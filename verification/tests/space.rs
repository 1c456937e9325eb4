use pagestore::node::{Data, Frag, Node};
use pagestore::pagecache::{Config, PageCache};
use pagestore::segment::SegState;
use pagestore::tree::open_tree;

/// Inserting ten thousand empty-key/empty-value records into a temporary,
/// snapshot-suppressed store with tiny segments must stay within a few
/// segments of on-disk space: consolidation and segment reclamation
/// together bound log growth for trivial workloads.
#[test]
fn size_leak() {
    let config = Config::new()
        .segment_size(2048)
        .flush_every_ms(None)
        .snapshot_after_ops(100000000)
        .temporary(true);
    let mut pc = PageCache::start(config);
    let guard = pc.pin();
    let tree = open_tree(&mut pc, b"default".to_vec(), &guard).unwrap();
    let leaf_id = pc.index_child(tree.root(), 0, &guard).unwrap();
    pc.unpin(guard);

    for _ in 0..10_000 {
        let g = pc.pin();
        let ptr = pc.page_ptr(leaf_id, &g).unwrap();
        let delta = Frag::Insert(vec![], vec![]);
        let res = pc.link(leaf_id, ptr, delta, &g).unwrap();
        assert!(res.is_ok());
        pc.unpin(g);
    }
    pc.flush();
    assert!(pc.on_disk_size() <= 16384);
}

/// A store that has only just started occupies exactly one segment.
#[test]
fn fresh_store_footprint() {
    let config = Config::new().segment_size(2048).temporary(true);
    let pc = PageCache::start(config);
    assert_eq!(pc.on_disk_size(), 2048);
}

/// A payload at or above a quarter of a segment's usable space is stored
/// out of line: the blob bytes appear in the footprint, and the segment
/// only carries a framed pointer.
#[test]
fn large_value_goes_out_of_line() {
    let config = Config::new().segment_size(2048).temporary(true);
    let mut pc = PageCache::start(config);
    let g = pc.pin();
    let tree = open_tree(&mut pc, b"blobs".to_vec(), &g).unwrap();
    let leaf_id = pc.index_child(tree.root(), 0, &g).unwrap();
    let ptr = pc.page_ptr(leaf_id, &g).unwrap();
    // usable = 2048 - 20 = 2028; threshold = 507 bytes
    let big = vec![7u8; 1000];
    let res = pc.link(leaf_id, ptr, Frag::Insert(b"k".to_vec(), big), &g).unwrap();
    assert!(res.is_ok());
    pc.unpin(g);
    // one segment so far, plus the out-of-line payload
    assert!(pc.on_disk_size() > 2048);
    let g2 = pc.pin();
    let got = pc.page_get(leaf_id, &b"k".to_vec(), &g2).unwrap();
    assert_eq!(got.unwrap().len(), 1000);
    pc.unpin(g2);
}

/// Freeing a page that was never allocated is an unrecoverable consistency
/// error, reported loudly.
#[test]
fn free_of_dead_slot_is_reportable_bug() {
    let mut pc = PageCache::start(Config::new().segment_size(2048).temporary(true));
    let g = pc.pin();
    // a fresh store has only the two reserved pages
    let leaf = Frag::Base(Node {
        data: Data::Leaf(vec![]),
        lo: vec![],
        hi: vec![],
        next: None,
        merging_child: None,
        merging: false,
    });
    let (pid, ptr) = pc.allocate(leaf, &g).unwrap();
    let first = pc.free(pid, ptr, &g).unwrap();
    assert!(first.is_ok());
    // the slot is no longer live: freeing it again is a reportable bug
    let again = pc.free(pid, ptr, &g);
    assert!(again.is_err());
    // so is freeing a reserved page or one never handed out
    assert!(pc.free(0, ptr, &g).is_err());
    assert!(pc.free(4096, ptr, &g).is_err());
    pc.unpin(g);
}

/// Compaction: a sealed segment whose live fraction has dropped is a
/// candidate; rewriting the surviving page elsewhere drains it, and the
/// next sweeps reclaim it. Reads are unchanged throughout.
#[test]
fn compaction_drains_and_reclaims() {
    let config = Config::new().segment_size(2048).temporary(true);
    let mut pc = PageCache::start(config);
    let g = pc.pin();
    let tree = open_tree(&mut pc, b"c".to_vec(), &g).unwrap();
    let leaf_id = pc.index_child(tree.root(), 0, &g).unwrap();
    pc.unpin(g);
    // enough distinct-key writes to seal several segments
    for i in 0u16..200 {
        let g = pc.pin();
        let ptr = pc.page_ptr(leaf_id, &g).unwrap();
        let k = i.to_le_bytes().to_vec();
        pc.link(leaf_id, ptr, Frag::Insert(k, vec![1, 2, 3]), &g)
            .unwrap()
            .unwrap();
        pc.unpin(g);
    }
    let candidates = pc.log.compaction_candidates(4);
    assert!(!candidates.is_empty());
    // migrate the one live page away from its old records, then sweep
    let g = pc.pin();
    let before = pc.page_get(leaf_id, &42u16.to_le_bytes().to_vec(), &g).unwrap();
    pc.rewrite_page(leaf_id, &g).unwrap();
    let after = pc.page_get(leaf_id, &42u16.to_le_bytes().to_vec(), &g).unwrap();
    assert_eq!(before, after);
    assert_eq!(after, Some(vec![1, 2, 3]));
    pc.unpin(g);
    pc.flush();
    pc.flush();
    // everything the chain no longer backs has been reclaimed: the whole
    // store fits a handful of segments again
    assert!(pc.on_disk_size() <= 6 * 2048);
}

/// Epoch safety: a segment whose records all died while an older guard was
/// still pinned is retired but not recycled — only once that guard is
/// released does it become free.
#[test]
fn reclamation_waits_for_older_guards() {
    let config = Config::new().segment_size(256).temporary(true);
    let mut pc = PageCache::start(config);
    let g_old = pc.pin();
    // three one-record pages: the third spills over and seals segment 0,
    // which then holds exactly the first two records
    let page = |v: usize| {
        Frag::Base(Node {
            data: Data::Leaf(vec![(b"k".to_vec(), vec![9u8; v])]),
            lo: vec![],
            hi: vec![],
            next: None,
            merging_child: None,
            merging: false,
        })
    };
    let (a, a_ptr) = pc.allocate(page(4), &g_old).unwrap();
    let (b, b_ptr) = pc.allocate(page(4), &g_old).unwrap();
    let (_c, _c_ptr) = pc.allocate(page(4), &g_old).unwrap();
    assert!(matches!(pc.log.segments[0].state, SegState::Sealed));
    // everything in segment 0 dies
    assert_eq!(pc.free(a, a_ptr, &g_old).unwrap(), Ok(()));
    assert_eq!(pc.free(b, b_ptr, &g_old).unwrap(), Ok(()));
    pc.flush();
    // the guard pinned before the supersession is still live: the segment
    // may retire, but must not be recycled
    assert!(!matches!(pc.log.segments[0].state, SegState::Free));
    pc.unpin(g_old);
    assert!(matches!(pc.log.segments[0].state, SegState::Free));
}
