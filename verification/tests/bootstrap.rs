use pagestore::error::Error;
use pagestore::node::{Data, Frag, Node};
use pagestore::pagecache::{Config, PageCache};
use pagestore::tree::open_tree;

fn fresh_cache() -> PageCache {
    PageCache::start(Config::new().segment_size(2048).temporary(true))
}

fn empty_leaf() -> Frag {
    Frag::Base(Node {
        data: Data::Leaf(vec![]),
        lo: vec![],
        hi: vec![],
        next: None,
        merging_child: None,
        merging: false,
    })
}

fn root_index_over(leaf_id: u64) -> Frag {
    Frag::Base(Node {
        data: Data::Index(vec![(vec![0], leaf_id)]),
        lo: vec![],
        hi: vec![],
        next: None,
        merging_child: None,
        merging: false,
    })
}

/// Opening the same name twice from a single thread yields two handles
/// with the same root page.
#[test]
fn open_is_idempotent() {
    let mut pc = fresh_cache();
    let g = pc.pin();
    let t1 = open_tree(&mut pc, b"alpha".to_vec(), &g).unwrap();
    let t2 = open_tree(&mut pc, b"alpha".to_vec(), &g).unwrap();
    assert_eq!(t1.root(), t2.root());
    assert_eq!(t1.name(), t2.name());
    pc.unpin(g);
}

/// Opening two different new names never yields the same root page.
#[test]
fn distinct_names_distinct_roots() {
    let mut pc = fresh_cache();
    let g = pc.pin();
    let t1 = open_tree(&mut pc, b"alpha".to_vec(), &g).unwrap();
    let t2 = open_tree(&mut pc, b"beta".to_vec(), &g).unwrap();
    assert_ne!(t1.root(), t2.root());
    pc.unpin(g);
}

/// A lookup under a name nobody created reports `CollectionNotFound` with
/// that name.
#[test]
fn lookup_miss_is_collection_not_found() {
    let mut pc = fresh_cache();
    let g = pc.pin();
    let r = pc.meta_pid_for_name(&b"nobody".to_vec(), &g);
    match r {
        Err(Error::CollectionNotFound(n)) => assert_eq!(n, b"nobody".to_vec()),
        _ => panic!("expected CollectionNotFound"),
    }
    pc.unpin(g);
}

/// The race of two creators over one name, step by step: the loser's
/// compare-and-swap fails without side effects and returns the winner's
/// root; both of the loser's speculative pages free cleanly (each was
/// still current); nothing the loser allocated stays reachable from the
/// directory; and the loser's retry finds the winner's root.
#[test]
fn losing_creator_cleans_up_and_adopts_winner() {
    let mut pc = fresh_cache();
    let g = pc.pin();

    // the first creator finds nothing and allocates speculatively
    assert!(pc.meta_pid_for_name(&b"shared".to_vec(), &g).is_err());
    let (leaf_a, leaf_ptr_a) = pc.allocate(empty_leaf(), &g).unwrap();
    let (root_a, root_ptr_a) = pc.allocate(root_index_over(leaf_a), &g).unwrap();

    // a concurrent creator completes the whole protocol first
    let winner = open_tree(&mut pc, b"shared".to_vec(), &g).unwrap();

    // the first creator's install loses and learns the current root
    let res = pc
        .cas_root_in_meta(&b"shared".to_vec(), None, Some(root_a), &g)
        .unwrap();
    assert_eq!(res, Err(Some(winner.root())));

    // both speculative frees find their pointers still current
    assert_eq!(pc.free(root_a, root_ptr_a, &g).unwrap(), Ok(()));
    assert_eq!(pc.free(leaf_a, leaf_ptr_a, &g).unwrap(), Ok(()));

    // the loser's pages are gone: not current anywhere
    assert!(pc.page_ptr(root_a, &g).is_err());
    assert!(pc.page_ptr(leaf_a, &g).is_err());

    // the retry adopts the winner's root
    let adopted = pc.meta_pid_for_name(&b"shared".to_vec(), &g).unwrap();
    assert_eq!(adopted, winner.root());
    pc.unpin(g);
}

/// After a successful root install, a lookup through a guard pinned
/// afterwards observes the new value, never the old one.
#[test]
fn cas_install_is_immediately_visible() {
    let mut pc = fresh_cache();
    let g = pc.pin();
    let t = open_tree(&mut pc, b"cas".to_vec(), &g).unwrap();
    let old_root = t.root();
    // build a replacement root over the same leaf
    let leaf_id = pc.index_child(old_root, 0, &g).unwrap();
    let (new_root, _ptr) = pc.allocate(root_index_over(leaf_id), &g).unwrap();
    let res = pc
        .cas_root_in_meta(&b"cas".to_vec(), Some(old_root), Some(new_root), &g)
        .unwrap();
    assert_eq!(res, Ok(()));
    pc.unpin(g);

    let g2 = pc.pin();
    let seen = pc.meta_pid_for_name(&b"cas".to_vec(), &g2).unwrap();
    assert_eq!(seen, new_root);
    assert_ne!(seen, old_root);
    pc.unpin(g2);
}

/// A compare-and-swap against a stale expectation fails without side
/// effects and reports the actual current value.
#[test]
fn cas_mismatch_reports_current_value() {
    let mut pc = fresh_cache();
    let g = pc.pin();
    let t = open_tree(&mut pc, b"stale".to_vec(), &g).unwrap();
    let res = pc
        .cas_root_in_meta(&b"stale".to_vec(), None, Some(t.root()), &g)
        .unwrap();
    assert_eq!(res, Err(Some(t.root())));
    let still = pc.meta_pid_for_name(&b"stale".to_vec(), &g).unwrap();
    assert_eq!(still, t.root());
    pc.unpin(g);
}

/// The bootstrap shape: the fresh root is an index whose single entry
/// points at the fresh empty leaf, and a read of any key through the leaf
/// finds nothing.
#[test]
fn bootstrap_builds_index_over_empty_leaf() {
    let mut pc = fresh_cache();
    let g = pc.pin();
    let t = open_tree(&mut pc, b"shape".to_vec(), &g).unwrap();
    let leaf_id = pc.index_child(t.root(), 0, &g).unwrap();
    assert_eq!(leaf_id + 1, t.root());
    let miss = pc.page_get(leaf_id, &b"anything".to_vec(), &g).unwrap();
    assert_eq!(miss, None);
    pc.unpin(g);
}
