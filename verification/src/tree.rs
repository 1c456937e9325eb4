//! Tree bootstrap: the create-or-open protocol for a named keyspace.
//!
//! Opening a name either finds its root in the metadata directory, or
//! speculatively allocates an empty leaf and a one-entry root index and
//! races to install the root under the name with a single compare-and-swap.
//! Exactly one racer wins; a loser frees both of its speculative pages —
//! which nothing else can have touched — and retries.

use vstd::prelude::*;
use crate::epoch::Guard;
use crate::error::Error;
use crate::node::{base_node, Data, Frag, Node};
use crate::pagecache::{frags_of, meta_get, PageCache, PageState};

verus! {

/// `parking_lot::RwLock` (an alias of this type), held opaquely: the
/// tree's coarse lock for structural root changes.
#[verifier::external_type_specification]
#[verifier::external_body]
#[verifier::reject_recursive_types(R)]
#[verifier::reject_recursive_types(T)]
pub struct ExRwLock<R, T: ?Sized>(lock_api::RwLock<R, T>);

/// The raw lock `parking_lot` plugs into `lock_api::RwLock`.
#[verifier::external_type_specification]
#[verifier::external_body]
pub struct ExRawRwLock(parking_lot::RawRwLock);

/// Relies on `parking_lot::RwLock::new`: returns a fresh, unlocked lock
/// around the given value.
#[verifier::external_body]
fn new_structural_lock() -> parking_lot::RwLock<()> {
    parking_lot::RwLock::new(())
}

/// A handle to one named keyspace: its immutable identifier, the root page
/// it was opened at, and the coarse lock taken only for structural root
/// changes, never for ordinary reads or writes.
pub struct Tree {
    pub tree_id: Vec<u8>,
    pub root: u64,
    pub concurrency_control: parking_lot::RwLock<()>,
}

impl Tree {
    /// The root page id, as the single atomically-read integer every
    /// consumer observes.
    pub fn root(&self) -> (r: u64)
        ensures
            r == self.root,
    {
        self.root
    }

    /// The keyspace's name.
    pub fn name(&self) -> (r: &Vec<u8>)
        ensures
            r@ == self.tree_id@,
    {
        &self.tree_id
    }
}

/// The root a create-or-open of `name` yields over a given directory and
/// allocation frontier: the existing root when the name is present, else
/// the second of the two pages the creator allocates (the empty leaf comes
/// first, the root index second).
pub open spec fn open_root(meta: Seq<(Vec<u8>, u64)>, next_pid: int, name: Seq<u8>) -> int {
    match meta_get(meta, name) {
        Option::Some(r) => r as int,
        Option::None => next_pid + 1,
    }
}

/// Open or create the named keyspace.
///
/// The lookup-allocate-install loop races concurrent creators: whoever
/// installs the root under `name` first wins, and a loser frees its two
/// speculative pages — both frees must report "was current", since pages
/// only the loser knows cannot have been touched — and retries, finding the
/// winner's root.
#[verifier::loop_isolation(false)]
pub fn open_tree(cache: &mut PageCache, name: Vec<u8>, guard: &Guard) -> (r: Result<Tree, Error>)
    requires
        old(cache).wf(),
        old(cache).epochs.holds(*guard),
        old(cache).headroom(8),
    ensures
        final(cache).wf(),
        r matches Result::Ok(t) && ({
            &&& t.tree_id@ == name@
            &&& t.root == open_root(old(cache).meta@, old(cache).table@.len() as int, name@)
            &&& meta_get(final(cache).meta@, name@) == Option::Some(t.root)
            &&& forall|q: Seq<u8>|
                q != name@ ==> #[trigger] meta_get(final(cache).meta@, q) == meta_get(
                    old(cache).meta@,
                    q,
                )
            &&& (meta_get(old(cache).meta@, name@) is Some ==> *final(cache) == *old(cache))
            &&& (meta_get(old(cache).meta@, name@) is None ==> {
                &&& t.root == old(cache).table@.len() + 1
                &&& final(cache).table@.len() == old(cache).table@.len() + 2
                // the new root: an unbounded index whose single entry maps
                // the canonical prefix-encoded empty prefix to the new leaf
                &&& (final(cache).table@[t.root as int] matches PageState::Live { entries, .. }
                    && ({
                    let n = base_node(frags_of(entries@).last());
                    &&& (n.data matches Data::Index(es) && es@.len() == 1 && es@[0].1 == old(
                        cache,
                    ).table@.len() && es@[0].0@ == seq![0u8])
                    &&& n.lo@ == Seq::<u8>::empty()
                    &&& n.hi@ == Seq::<u8>::empty()
                    &&& n.next is None
                }))
                // the new leaf: an empty, unbounded leaf
                &&& (final(cache).table@[old(cache).table@.len() as int] matches PageState::Live {
                    entries,
                    ..
                } && ({
                    let n = base_node(frags_of(entries@).last());
                    &&& (n.data matches Data::Leaf(le) && le@.len() == 0)
                    &&& n.lo@ == Seq::<u8>::empty()
                    &&& n.hi@ == Seq::<u8>::empty()
                    &&& n.next is None
                }))
                &&& forall|q: int|
                    0 <= q < old(cache).table@.len() ==> final(cache).table@[q] == old(
                        cache,
                    ).table@[q]
                // the exact cost of a creation, so successive opens compose:
                // two allocations, one install, two fresh pointer stamps
                &&& final(cache).epochs.current == old(cache).epochs.current + 3
                &&& final(cache).next_ptr_loc == old(cache).next_ptr_loc + 2
                &&& old(cache).log.segments@.len() <= final(cache).log.segments@.len() <= old(
                    cache,
                ).log.segments@.len() + 2
                &&& final(cache).log.segment_size == old(cache).log.segment_size
            })
            &&& final(cache).epochs.pinned@ == old(cache).epochs.pinned@
            &&& final(cache).config == old(cache).config
        }),
{
    // the loop exists because creating this tree may race concurrent
    // attempts to open the same name
    loop
        invariant
            *cache == *old(cache),
        // while this caller holds the cache exclusively, nothing can win a
        // race between its lookup and its install, so the retry path is
        // unreachable and the loop runs at most once
        decreases 0int,
    {
        match cache.meta_pid_for_name(&name, guard) {
            Result::Ok(root_id) => {
                return Result::Ok(
                    Tree {
                        tree_id: name,
                        root: root_id,
                        concurrency_control: new_structural_lock(),
                    },
                );
            },
            Result::Err(_) => {},
        }
        // set up an empty leaf
        let leaf = Frag::Base(
            Node {
                data: Data::Leaf(Vec::new()),
                lo: Vec::new(),
                hi: Vec::new(),
                next: Option::None,
                merging_child: Option::None,
                merging: false,
            },
        );
        let ghost leaf_frag = leaf;
        proof {
            assert(base_node(leaf_frag).lo@ =~= Seq::<u8>::empty());
            assert(base_node(leaf_frag).hi@ =~= Seq::<u8>::empty());
        }
        let (leaf_id, leaf_ptr) = match cache.allocate(leaf, guard) {
            Result::Ok(p) => p,
            Result::Err(e) => {
                return Result::Err(e);
            },
        };
        // set up a root index whose single entry maps the canonical
        // prefix-encoded empty prefix to the leaf
        let mut prefix: Vec<u8> = Vec::new();
        prefix.push(0);
        let ghost prefix_view = prefix@;
        proof {
            assert(prefix_view =~= seq![0u8]);
        }
        let mut root_entries: Vec<(Vec<u8>, u64)> = Vec::new();
        root_entries.push((prefix, leaf_id));
        proof {
            assert(root_entries@[0].0@ == prefix_view);
            assert(root_entries@[0].1 == leaf_id);
            assert(root_entries@.len() == 1);
        }
        let root = Frag::Base(
            Node {
                data: Data::Index(root_entries),
                lo: Vec::new(),
                hi: Vec::new(),
                next: Option::None,
                merging_child: Option::None,
                merging: false,
            },
        );
        let ghost root_frag = root;
        proof {
            assert(base_node(root_frag).lo@ =~= Seq::<u8>::empty());
            assert(base_node(root_frag).hi@ =~= Seq::<u8>::empty());
            assert(base_node(root_frag).data matches Data::Index(es) && es@.len() == 1
                && es@[0].0@ == seq![0u8] && es@[0].1 == leaf_id);
        }
        let (root_id, root_ptr) = match cache.allocate(root, guard) {
            Result::Ok(p) => p,
            Result::Err(e) => {
                return Result::Err(e);
            },
        };
        let res = match cache.cas_root_in_meta(
            &name,
            Option::None,
            Option::Some(root_id),
            guard,
        ) {
            Result::Ok(inner) => inner,
            Result::Err(e) => {
                return Result::Err(e);
            },
        };
        match res {
            Result::Ok(()) => {
                return Result::Ok(
                    Tree {
                        tree_id: name,
                        root: root_id,
                        concurrency_control: new_structural_lock(),
                    },
                );
            },
            Result::Err(_) => {
                // another opener installed a different root concurrently:
                // clean up the pages we just created, which must both still
                // be current, then retry from the lookup
                match cache.free(root_id, root_ptr, guard) {
                    Result::Ok(freed) => {
                        match freed {
                            Result::Ok(()) => {},
                            Result::Err(()) => {
                                return Result::Err(Error::ReportableBug);
                            },
                        }
                    },
                    Result::Err(e) => {
                        return Result::Err(e);
                    },
                }
                match cache.free(leaf_id, leaf_ptr, guard) {
                    Result::Ok(freed) => {
                        match freed {
                            Result::Ok(()) => {},
                            Result::Err(()) => {
                                return Result::Err(Error::ReportableBug);
                            },
                        }
                    },
                    Result::Err(e) => {
                        return Result::Err(e);
                    },
                }
            },
        }
    }
}

/// Idempotent open: a directory that maps `name` to `root` — as it does
/// after any open of `name` returning `root` — makes every later open of
/// `name` yield that same `root`, whatever the allocation frontier has
/// grown to.
pub proof fn lemma_open_idempotent(
    meta: Seq<(Vec<u8>, u64)>,
    next_pid: int,
    name: Seq<u8>,
    root: u64,
)
    requires
        meta_get(meta, name) == Option::Some(root),
    ensures
        open_root(meta, next_pid, name) == root,
{
}

/// Distinct new names yield distinct roots: creating `n1` then `n2`, both
/// absent, hands out roots from a strictly growing frontier, so the two
/// roots differ.
pub proof fn lemma_distinct_names_distinct_roots(
    meta: Seq<(Vec<u8>, u64)>,
    meta1: Seq<(Vec<u8>, u64)>,
    next_pid: int,
    n1: Seq<u8>,
    n2: Seq<u8>,
)
    requires
        n1 != n2,
        meta_get(meta, n1) is None,
        meta_get(meta, n2) is None,
        // the directory after the creation of `n1`
        forall|q: Seq<u8>| #[trigger] meta_get(meta1, q) == (if q == n1 {
            Option::Some((next_pid + 1) as u64)
        } else {
            meta_get(meta, q)
        }),
        0 <= next_pid,
        next_pid + 3 <= u64::MAX,
    ensures
        open_root(meta, next_pid, n1) != open_root(meta1, next_pid + 2, n2),
{
    assert(meta_get(meta1, n2) == meta_get(meta, n2));
}

/// A losing bootstrap attempt leaves nothing reachable: its two pages sit
/// above every id the directory holds, and a failed root install leaves
/// the directory unchanged, so no page of a losing attempt is reachable
/// from the directory, and both of its frees find their pointers current.
pub proof fn lemma_loser_pages_unreachable(
    meta: Seq<(Vec<u8>, u64)>,
    table_len: int,
    leaf_id: u64,
    root_id: u64,
)
    requires
        forall|i: int| 0 <= i < meta.len() ==> (#[trigger] meta[i]).1 < table_len,
        leaf_id >= table_len,
        root_id >= table_len,
    ensures
        forall|i: int|
            0 <= i < meta.len() ==> (#[trigger] meta[i]).1 != leaf_id && meta[i].1 != root_id,
{
}

} // verus!
