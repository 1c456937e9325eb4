//! Logical page contents: nodes, fragments, and fragment-chain reads.
//!
//! A page's content is a chain of fragments: zero or more deltas (insert or
//! remove of a single key) stacked over exactly one `Base` node snapshot.
//! `chain_get` defines what a read through such a chain returns; folding a
//! chain into a fresh base must preserve it.

use vstd::prelude::*;
use crate::util::{copy_bytes, vec_set};

verus! {

/// What a node holds: an ordered run of key/value entries (leaf), or of
/// (separator prefix, child page) pairs (index).
pub enum Data {
    Leaf(Vec<(Vec<u8>, Vec<u8>)>),
    Index(Vec<(Vec<u8>, u64)>),
}

/// The logical content of one tree page.
pub struct Node {
    pub data: Data,
    /// Inclusive low bound of the key range this node is responsible for.
    pub lo: Vec<u8>,
    /// Exclusive high bound of the key range this node is responsible for.
    pub hi: Vec<u8>,
    /// Optional right sibling, for right-leaning traversal during splits.
    pub next: Option<u64>,
    /// Set on a parent while one of its children is being merged away.
    pub merging_child: Option<u64>,
    /// Set on a node that is being merged into its left sibling.
    pub merging: bool,
}

/// One fragment of a page: a complete base snapshot, or a delta above one.
pub enum Frag {
    Base(Node),
    Insert(Vec<u8>, Vec<u8>),
    Remove(Vec<u8>),
}

/// The mathematical content of leaf entries: key and value byte sequences.
pub open spec fn leaf_view(es: Seq<(Vec<u8>, Vec<u8>)>) -> Seq<(Seq<u8>, Seq<u8>)> {
    es.map_values(|e: (Vec<u8>, Vec<u8>)| (e.0@, e.1@))
}

/// First-match lookup in a run of leaf entries.
pub open spec fn entries_get(es: Seq<(Seq<u8>, Seq<u8>)>, k: Seq<u8>) -> Option<Seq<u8>>
    decreases es.len(),
{
    if es.len() == 0 {
        Option::None
    } else if es[0].0 == k {
        Option::Some(es[0].1)
    } else {
        entries_get(es.drop_first(), k)
    }
}

/// No two entries share a key.
pub open spec fn entries_unique(es: Seq<(Seq<u8>, Seq<u8>)>) -> bool {
    forall|i: int, j: int| 0 <= i < j < es.len() ==> es[i].0 != es[j].0
}

/// The node a `Base` fragment carries.
pub open spec fn base_node(f: Frag) -> Node
    recommends
        f is Base,
{
    match f {
        Frag::Base(n) => n,
        _ => arbitrary(),
    }
}

/// A leaf node's entries are unique; index nodes carry no leaf entries.
pub open spec fn node_wf(n: Node) -> bool {
    match n.data {
        Data::Leaf(es) => entries_unique(leaf_view(es@)),
        Data::Index(_) => true,
    }
}

/// What a point read of key `k` returns on node `n`.
pub open spec fn node_get(n: Node, k: Seq<u8>) -> Option<Seq<u8>> {
    match n.data {
        Data::Leaf(es) => entries_get(leaf_view(es@), k),
        Data::Index(_) => Option::None,
    }
}

/// What a point read of key `k` returns through a fragment chain, newest
/// fragment first.
pub open spec fn chain_get(chain: Seq<Frag>, k: Seq<u8>) -> Option<Seq<u8>>
    decreases chain.len(),
{
    if chain.len() == 0 {
        Option::None
    } else {
        match chain[0] {
            Frag::Insert(ik, iv) => if ik@ == k {
                Option::Some(iv@)
            } else {
                chain_get(chain.drop_first(), k)
            },
            Frag::Remove(rk) => if rk@ == k {
                Option::None
            } else {
                chain_get(chain.drop_first(), k)
            },
            Frag::Base(n) => node_get(n, k),
        }
    }
}

/// A well-formed chain: deltas over exactly one base, and deltas only occur
/// over a leaf base.
pub open spec fn chain_wf(chain: Seq<Frag>) -> bool {
    &&& chain.len() >= 1
    &&& chain.last() is Base
    &&& node_wf(base_node(chain.last()))
    &&& forall|i: int| 0 <= i < chain.len() - 1 ==> !((#[trigger] chain[i]) is Base)
    &&& (chain.len() > 1 ==> base_node(chain.last()).data is Leaf)
}

/// Looking up a key none of the entries hold returns nothing.
pub proof fn lemma_entries_get_none(es: Seq<(Seq<u8>, Seq<u8>)>, k: Seq<u8>)
    requires
        forall|j: int| 0 <= j < es.len() ==> (#[trigger] es[j]).0 != k,
    ensures
        entries_get(es, k) is None,
    decreases es.len(),
{
    if es.len() > 0 {
        lemma_entries_get_none(es.drop_first(), k);
    }
}

/// Looking up the key of the first entry holding it returns that entry's
/// value.
pub proof fn lemma_entries_get_at(es: Seq<(Seq<u8>, Seq<u8>)>, i: int)
    requires
        0 <= i < es.len(),
        forall|j: int| 0 <= j < i ==> (#[trigger] es[j]).0 != es[i].0,
    ensures
        entries_get(es, es[i].0) == Option::Some(es[i].1),
    decreases i,
{
    if i > 0 {
        lemma_entries_get_at(es.drop_first(), i - 1);
    }
}

/// Appending an entry under a key the run does not hold adds exactly that
/// binding.
pub proof fn lemma_entries_get_push(
    es: Seq<(Seq<u8>, Seq<u8>)>,
    k: Seq<u8>,
    v: Seq<u8>,
    q: Seq<u8>,
)
    requires
        forall|j: int| 0 <= j < es.len() ==> (#[trigger] es[j]).0 != k,
    ensures
        entries_get(es.push((k, v)), q) == if q == k {
            Option::Some(v)
        } else {
            entries_get(es, q)
        },
    decreases es.len(),
{
    if es.len() == 0 {
        assert(es.push((k, v))[0] == (k, v));
        if q != k {
            assert(es.push((k, v)).drop_first() =~= es);
        }
    } else {
        assert(es.push((k, v)).drop_first() =~= es.drop_first().push((k, v)));
        lemma_entries_get_push(es.drop_first(), k, v, q);
    }
}

/// Overwriting the first entry holding a key rebinds exactly that key.
pub proof fn lemma_entries_get_update(
    es: Seq<(Seq<u8>, Seq<u8>)>,
    i: int,
    k: Seq<u8>,
    v: Seq<u8>,
    q: Seq<u8>,
)
    requires
        0 <= i < es.len(),
        es[i].0 == k,
        forall|j: int| 0 <= j < i ==> (#[trigger] es[j]).0 != k,
    ensures
        entries_get(es.update(i, (k, v)), q) == if q == k {
            Option::Some(v)
        } else {
            entries_get(es, q)
        },
    decreases i,
{
    if i == 0 {
        assert(es.update(0int, (k, v))[0] == (k, v));
        if q != k {
            assert(es.update(0int, (k, v)).drop_first() =~= es.drop_first());
        }
    } else {
        assert(es.update(i, (k, v))[0] == es[0]);
        assert(es.update(i, (k, v)).drop_first() =~= es.drop_first().update(i - 1, (k, v)));
        lemma_entries_get_update(es.drop_first(), i - 1, k, v, q);
    }
}

/// Removing the only entry holding a key unbinds exactly that key.
pub proof fn lemma_entries_get_remove(es: Seq<(Seq<u8>, Seq<u8>)>, i: int, k: Seq<u8>, q: Seq<u8>)
    requires
        0 <= i < es.len(),
        es[i].0 == k,
        forall|j: int| 0 <= j < i ==> (#[trigger] es[j]).0 != k,
        entries_unique(es),
    ensures
        entries_get(es.remove(i), q) == if q == k {
            Option::<Seq<u8>>::None
        } else {
            entries_get(es, q)
        },
    decreases i,
{
    if i == 0 {
        assert(es.remove(0int) =~= es.drop_first());
        if q == k {
            assert(forall|j: int|
                0 <= j < es.drop_first().len() ==> (#[trigger] es.drop_first()[j]).0 != k);
            lemma_entries_get_none(es.drop_first(), k);
        }
    } else {
        assert(es.remove(i)[0] == es[0]);
        assert(es.remove(i).drop_first() =~= es.drop_first().remove(i - 1));
        assert(entries_unique(es.drop_first()));
        lemma_entries_get_remove(es.drop_first(), i - 1, k, q);
    }
}

/// Find the first leaf entry holding key `k`, if any.
#[verifier::loop_isolation(false)]
pub fn entries_find(es: &Vec<(Vec<u8>, Vec<u8>)>, k: &Vec<u8>) -> (r: Option<usize>)
    ensures
        match r {
            Option::Some(i) => {
                &&& i < es@.len()
                &&& leaf_view(es@)[i as int].0 == k@
                &&& forall|j: int| 0 <= j < i ==> (#[trigger] leaf_view(es@)[j]).0 != k@
            },
            Option::None => forall|j: int|
                0 <= j < es@.len() ==> (#[trigger] leaf_view(es@)[j]).0 != k@,
        },
{
    let n = es.len();
    let mut i: usize = 0;
    loop
        invariant
            i <= n,
            forall|j: int| 0 <= j < i ==> (#[trigger] leaf_view(es@)[j]).0 != k@,
        decreases n - i,
    {
        if i == n {
            return Option::None;
        }
        if crate::util::bytes_eq(&es[i].0, k) {
            proof {
                assert(leaf_view(es@)[i as int].0 == es@[i as int].0@);
            }
            return Option::Some(i);
        }
        proof {
            assert(leaf_view(es@)[i as int].0 == es@[i as int].0@);
        }
        i += 1;
    }
}

/// Bind `k` to `v` in a run of leaf entries, replacing an existing binding
/// or appending a new one.
pub fn leaf_set(es: &mut Vec<(Vec<u8>, Vec<u8>)>, k: Vec<u8>, v: Vec<u8>)
    requires
        entries_unique(leaf_view(old(es)@)),
    ensures
        entries_unique(leaf_view(final(es)@)),
        forall|q: Seq<u8>| #[trigger] entries_get(leaf_view(final(es)@), q) == if q == k@ {
            Option::Some(v@)
        } else {
            entries_get(leaf_view(old(es)@), q)
        },
{
    let found = entries_find(es, &k);
    match found {
        Option::Some(i) => {
            let ghost pre = leaf_view(es@);
            vec_set(es, i, (k, v));
            proof {
                assert(leaf_view(es@) =~= pre.update(i as int, (k@, v@)));
                assert forall|q: Seq<u8>| #[trigger] entries_get(leaf_view(es@), q) == (if q
                    == k@ {
                    Option::Some(v@)
                } else {
                    entries_get(pre, q)
                }) by {
                    lemma_entries_get_update(pre, i as int, k@, v@, q);
                }
                assert forall|a: int, b: int|
                    0 <= a < b < leaf_view(es@).len() implies leaf_view(es@)[a].0 != leaf_view(
                    es@,
                )[b].0 by {
                    if a != i && b != i {
                        assert(pre[a].0 != pre[b].0);
                    } else if a == i as int {
                        assert(pre[b].0 != pre[i as int].0);
                    } else {
                        assert(pre[a].0 != pre[i as int].0);
                    }
                }
            }
        },
        Option::None => {
            let ghost pre = leaf_view(es@);
            es.push((k, v));
            proof {
                assert(leaf_view(es@) =~= pre.push((k@, v@)));
                assert forall|q: Seq<u8>| #[trigger] entries_get(leaf_view(es@), q) == (if q
                    == k@ {
                    Option::Some(v@)
                } else {
                    entries_get(pre, q)
                }) by {
                    lemma_entries_get_push(pre, k@, v@, q);
                }
                assert forall|a: int, b: int|
                    0 <= a < b < leaf_view(es@).len() implies leaf_view(es@)[a].0 != leaf_view(
                    es@,
                )[b].0 by {
                    if b < pre.len() {
                        assert(pre[a].0 != pre[b].0);
                    } else {
                        assert(pre[a].0 != k@);
                    }
                }
            }
        },
    }
}

/// Unbind `k` in a run of leaf entries, if bound.
pub fn leaf_del(es: &mut Vec<(Vec<u8>, Vec<u8>)>, k: &Vec<u8>)
    requires
        entries_unique(leaf_view(old(es)@)),
    ensures
        entries_unique(leaf_view(final(es)@)),
        forall|q: Seq<u8>| #[trigger] entries_get(leaf_view(final(es)@), q) == if q == k@ {
            Option::<Seq<u8>>::None
        } else {
            entries_get(leaf_view(old(es)@), q)
        },
{
    let found = entries_find(es, k);
    match found {
        Option::Some(i) => {
            let ghost pre = leaf_view(es@);
            es.remove(i);
            proof {
                assert(leaf_view(es@) =~= pre.remove(i as int));
                assert forall|q: Seq<u8>| #[trigger] entries_get(leaf_view(es@), q) == (if q
                    == k@ {
                    Option::<Seq<u8>>::None
                } else {
                    entries_get(pre, q)
                }) by {
                    lemma_entries_get_remove(pre, i as int, k@, q);
                }
                assert forall|a: int, b: int|
                    0 <= a < b < leaf_view(es@).len() implies leaf_view(es@)[a].0 != leaf_view(
                    es@,
                )[b].0 by {
                    let pa = if a < i as int {
                        a
                    } else {
                        a + 1
                    };
                    let pb = if b < i as int {
                        b
                    } else {
                        b + 1
                    };
                    assert(pre[pa].0 != pre[pb].0);
                }
            }
        },
        Option::None => {
            proof {
                lemma_entries_get_none(leaf_view(es@), k@);
            }
        },
    }
}

/// Element-for-element copy of a run of leaf entries.
#[verifier::loop_isolation(false)]
pub fn copy_leaf_entries(es: &Vec<(Vec<u8>, Vec<u8>)>) -> (r: Vec<(Vec<u8>, Vec<u8>)>)
    ensures
        leaf_view(r@) == leaf_view(es@),
{
    let n = es.len();
    let mut r: Vec<(Vec<u8>, Vec<u8>)> = Vec::new();
    let mut i: usize = 0;
    loop
        invariant
            i <= n,
            r@.len() == i,
            forall|j: int| 0 <= j < i ==> #[trigger] leaf_view(r@)[j] == leaf_view(es@)[j],
        decreases n - i,
    {
        if i == n {
            break;
        }
        let key = copy_bytes(&es[i].0);
        let val = copy_bytes(&es[i].1);
        let ghost pre = r@;
        r.push((key, val));
        proof {
            assert(r@[i as int] == (key, val));
            assert(leaf_view(r@)[i as int] == (r@[i as int].0@, r@[i as int].1@));
            assert(leaf_view(es@)[i as int] == (es@[i as int].0@, es@[i as int].1@));
            assert(leaf_view(r@)[i as int] == leaf_view(es@)[i as int]);
            assert forall|j: int| 0 <= j < i implies #[trigger] leaf_view(r@)[j] == leaf_view(
                es@,
            )[j] by {
                assert(r@[j] == pre[j]);
                assert(leaf_view(r@)[j] == (r@[j].0@, r@[j].1@));
                assert(leaf_view(pre)[j] == (pre[j].0@, pre[j].1@));
                assert(leaf_view(pre)[j] == leaf_view(es@)[j]);
            }
        }
        i += 1;
    }
    proof {
        assert(leaf_view(r@) =~= leaf_view(es@));
    }
    r
}


/// Clamp an ideal byte count into a `u64`.
pub open spec fn clamp_u64(x: int) -> u64 {
    if x > u64::MAX {
        u64::MAX
    } else if x < 0 {
        0
    } else {
        x as u64
    }
}

/// Encoded size of a run of leaf entries: a length-prefixed key and value
/// per entry.
pub open spec fn spec_leaf_payload(es: Seq<(Vec<u8>, Vec<u8>)>) -> int
    decreases es.len(),
{
    if es.len() == 0 {
        0
    } else {
        spec_leaf_payload(es.drop_last()) + 16int + es.last().0@.len() + es.last().1@.len()
    }
}

/// Encoded size of a run of index entries: a length-prefixed separator and
/// a child page id per entry.
pub open spec fn spec_index_payload(es: Seq<(Vec<u8>, u64)>) -> int
    decreases es.len(),
{
    if es.len() == 0 {
        0
    } else {
        spec_index_payload(es.drop_last()) + 16int + es.last().0@.len()
    }
}

/// Encoded size of a node: fixed header plus bounds plus its entries.
pub open spec fn spec_node_payload(n: Node) -> int {
    36int + n.lo@.len() + n.hi@.len() + match n.data {
        Data::Leaf(es) => spec_leaf_payload(es@),
        Data::Index(es) => spec_index_payload(es@),
    }
}

/// Encoded payload size of a fragment, before framing.
pub open spec fn spec_frag_payload(f: Frag) -> int {
    match f {
        Frag::Base(n) => 1 + spec_node_payload(n),
        Frag::Insert(k, v) => 17int + k@.len() + v@.len(),
        Frag::Remove(k) => 9int + k@.len(),
    }
}

pub proof fn lemma_leaf_payload_nonneg(es: Seq<(Vec<u8>, Vec<u8>)>)
    ensures
        spec_leaf_payload(es) >= 0,
    decreases es.len(),
{
    if es.len() > 0 {
        lemma_leaf_payload_nonneg(es.drop_last());
    }
}

pub proof fn lemma_index_payload_nonneg(es: Seq<(Vec<u8>, u64)>)
    ensures
        spec_index_payload(es) >= 0,
    decreases es.len(),
{
    if es.len() > 0 {
        lemma_index_payload_nonneg(es.drop_last());
    }
}

/// Encoded size of a run of leaf entries, clamped to a `u64`.
#[verifier::loop_isolation(false)]
fn leaf_payload_len(es: &Vec<(Vec<u8>, Vec<u8>)>) -> (r: u64)
    ensures
        r == clamp_u64(spec_leaf_payload(es@)),
{
    let n = es.len();
    let mut acc: u64 = 0;
    let mut i: usize = 0;
    proof {
        assert(es@.subrange(0, 0) =~= Seq::<(Vec<u8>, Vec<u8>)>::empty());
    }
    loop
        invariant
            i <= n,
            acc == clamp_u64(spec_leaf_payload(es@.subrange(0, i as int))),
        decreases n - i,
    {
        if i == n {
            break;
        }
        let step: u128 = 16u128 + es[i].0.len() as u128 + es[i].1.len() as u128;
        let t: u128 = acc as u128 + step;
        let ghost prefix = es@.subrange(0, i as int);
        let ghost next_prefix = es@.subrange(0, i + 1);
        proof {
            assert(next_prefix.drop_last() =~= prefix);
            assert(next_prefix.last() == es@[i as int]);
            lemma_leaf_payload_nonneg(prefix);
        }
        if t > u64::MAX as u128 {
            acc = u64::MAX;
        } else {
            acc = t as u64;
        }
        i += 1;
    }
    proof {
        assert(es@.subrange(0, n as int) =~= es@);
    }
    acc
}

/// Encoded size of a run of index entries, clamped to a `u64`.
#[verifier::loop_isolation(false)]
fn index_payload_len(es: &Vec<(Vec<u8>, u64)>) -> (r: u64)
    ensures
        r == clamp_u64(spec_index_payload(es@)),
{
    let n = es.len();
    let mut acc: u64 = 0;
    let mut i: usize = 0;
    proof {
        assert(es@.subrange(0, 0) =~= Seq::<(Vec<u8>, u64)>::empty());
    }
    loop
        invariant
            i <= n,
            acc == clamp_u64(spec_index_payload(es@.subrange(0, i as int))),
        decreases n - i,
    {
        if i == n {
            break;
        }
        let step: u128 = 16u128 + es[i].0.len() as u128;
        let t: u128 = acc as u128 + step;
        let ghost prefix = es@.subrange(0, i as int);
        let ghost next_prefix = es@.subrange(0, i + 1);
        proof {
            assert(next_prefix.drop_last() =~= prefix);
            assert(next_prefix.last() == es@[i as int]);
            lemma_index_payload_nonneg(prefix);
        }
        if t > u64::MAX as u128 {
            acc = u64::MAX;
        } else {
            acc = t as u64;
        }
        i += 1;
    }
    proof {
        assert(es@.subrange(0, n as int) =~= es@);
    }
    acc
}

/// Encoded payload size of a fragment, clamped to a `u64`.
pub fn frag_payload_len(f: &Frag) -> (r: u64)
    ensures
        r == clamp_u64(spec_frag_payload(*f)),
{
    match f {
        Frag::Base(n) => {
            let body: u64 = match &n.data {
                Data::Leaf(es) => leaf_payload_len(es),
                Data::Index(es) => index_payload_len(es),
            };
            let t: u128 = 37u128 + n.lo.len() as u128 + n.hi.len() as u128 + body as u128;
            proof {
                match &n.data {
                    Data::Leaf(es) => lemma_leaf_payload_nonneg(es@),
                    Data::Index(es) => lemma_index_payload_nonneg(es@),
                }
            }
            if t > u64::MAX as u128 {
                u64::MAX
            } else {
                t as u64
            }
        },
        Frag::Insert(k, v) => {
            let t: u128 = 17u128 + k.len() as u128 + v.len() as u128;
            if t > u64::MAX as u128 {
                u64::MAX
            } else {
                t as u64
            }
        },
        Frag::Remove(k) => {
            let t: u128 = 9u128 + k.len() as u128;
            if t > u64::MAX as u128 {
                u64::MAX
            } else {
                t as u64
            }
        },
    }
}

} // verus!
