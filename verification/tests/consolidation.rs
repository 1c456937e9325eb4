use pagestore::node::Frag;
use pagestore::pagecache::{Config, PageCache, PagePtr};
use pagestore::tree::open_tree;

fn setup() -> (PageCache, u64) {
    let mut pc = PageCache::start(Config::new().segment_size(4096).temporary(true));
    let g = pc.pin();
    let t = open_tree(&mut pc, b"t".to_vec(), &g).unwrap();
    let leaf_id = pc.index_child(t.root(), 0, &g).unwrap();
    pc.unpin(g);
    (pc, leaf_id)
}

fn set(pc: &mut PageCache, pid: u64, k: &[u8], v: &[u8]) -> PagePtr {
    let g = pc.pin();
    let ptr = pc.page_ptr(pid, &g).unwrap();
    let res = pc
        .link(pid, ptr, Frag::Insert(k.to_vec(), v.to_vec()), &g)
        .unwrap()
        .unwrap();
    pc.unpin(g);
    res
}

fn del(pc: &mut PageCache, pid: u64, k: &[u8]) {
    let g = pc.pin();
    let ptr = pc.page_ptr(pid, &g).unwrap();
    pc.link(pid, ptr, Frag::Remove(k.to_vec()), &g)
        .unwrap()
        .unwrap();
    pc.unpin(g);
}

/// A chain of more than ten deltas is folded into a fresh base, and the
/// folded base answers every read exactly as the unfolded chain would:
/// newest insert wins, removes unbind, untouched keys keep their values.
#[test]
fn consolidated_chain_reads_like_unfolded_chain() {
    let (mut pc, leaf) = setup();
    // eleven distinct keys: crossing the threshold of ten deltas folds the
    // chain during the eleventh link
    for i in 0u8..11 {
        set(&mut pc, leaf, &[i], &[i, i]);
    }
    // overwrite one key and remove another; these start a new, short chain
    set(&mut pc, leaf, &[3], b"rewritten");
    del(&mut pc, leaf, &[5]);

    let g = pc.pin();
    for i in 0u8..11 {
        let got = pc.page_get(leaf, &vec![i], &g).unwrap();
        if i == 3 {
            assert_eq!(got, Some(b"rewritten".to_vec()));
        } else if i == 5 {
            assert_eq!(got, None);
        } else {
            assert_eq!(got, Some(vec![i, i]));
        }
    }
    assert_eq!(pc.page_get(leaf, &b"missing".to_vec(), &g).unwrap(), None);
    pc.unpin(g);
}

/// Repeated writes to one key always read back the newest value, across
/// any number of folds.
#[test]
fn newest_write_wins_across_folds() {
    let (mut pc, leaf) = setup();
    for round in 0u8..40 {
        set(&mut pc, leaf, b"counter", &[round]);
        let g = pc.pin();
        let got = pc.page_get(leaf, &b"counter".to_vec(), &g).unwrap();
        assert_eq!(got, Some(vec![round]));
        pc.unpin(g);
    }
}

/// A losing page-level compare-and-swap returns the current pointer and
/// changes nothing.
#[test]
fn stale_link_loses_and_learns_current_pointer() {
    let (mut pc, leaf) = setup();
    let current = set(&mut pc, leaf, b"a", b"1");
    let g = pc.pin();
    let stale = PagePtr { loc: current.loc + 1000 };
    let res = pc
        .link(leaf, stale, Frag::Insert(b"b".to_vec(), b"2".to_vec()), &g)
        .unwrap();
    assert_eq!(res, Err(current));
    // the losing write left no trace
    assert_eq!(pc.page_get(leaf, &b"b".to_vec(), &g).unwrap(), None);
    assert_eq!(pc.page_get(leaf, &b"a".to_vec(), &g).unwrap(), Some(b"1".to_vec()));
    pc.unpin(g);
}
