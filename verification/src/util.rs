//! Small verified helpers over `Vec`.

use vstd::prelude::*;

verus! {

/// Overwrite one element of a vector in place.
pub fn vec_set<T>(v: &mut Vec<T>, i: usize, x: T)
    requires
        i < old(v)@.len(),
    ensures
        final(v)@ == old(v)@.update(i as int, x),
{
    let r = vstd::std_specs::vec::vec_index_mut(v, i);
    *r = x;
}

/// Take one element out of a vector, leaving `replacement` in its place.
pub fn vec_take<T>(v: &mut Vec<T>, i: usize, replacement: T) -> (r: T)
    requires
        i < old(v)@.len(),
    ensures
        r == old(v)@[i as int],
        final(v)@ == old(v)@.update(i as int, replacement),
{
    let mut x = replacement;
    core::mem::swap(&mut x, vstd::std_specs::vec::vec_index_mut(v, i));
    x
}

/// Byte-for-byte copy of a byte vector.
#[verifier::loop_isolation(false)]
pub fn copy_bytes(v: &Vec<u8>) -> (r: Vec<u8>)
    ensures
        r@ == v@,
{
    let mut r: Vec<u8> = Vec::new();
    let n = v.len();
    let mut i: usize = 0;
    loop
        invariant
            i <= n,
            r@ == v@.subrange(0, i as int),
        decreases n - i,
    {
        if i == n {
            break;
        }
        r.push(v[i]);
        proof {
            assert(r@ =~= v@.subrange(0, i + 1 as int));
        }
        i += 1;
    }
    proof {
        assert(r@ =~= v@);
    }
    r
}

/// True exactly when the two byte vectors hold the same bytes.
#[verifier::loop_isolation(false)]
pub fn bytes_eq(a: &Vec<u8>, b: &Vec<u8>) -> (r: bool)
    ensures
        r == (a@ == b@),
{
    if a.len() != b.len() {
        proof {
            assert(a@ != b@) by {
                assert(a@.len() != b@.len());
            }
        }
        return false;
    }
    let n = a.len();
    let mut i: usize = 0;
    loop
        invariant
            i <= n,
            forall|j: int| 0 <= j < i ==> a@[j] == b@[j],
        decreases n - i,
    {
        if i == n {
            break;
        }
        if a[i] != b[i] {
            return false;
        }
        i += 1;
    }
    proof {
        assert(a@ =~= b@);
    }
    true
}

} // verus!
