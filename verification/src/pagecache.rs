//! The page cache: a lock-free page table over the log-structured store.
//!
//! Every page's content is reached through a single pointer per `PageId`;
//! all mutation is a compare-and-swap from the old pointer to a new one, so
//! a reader never observes a torn page, and a losing writer learns it lost
//! and retries. The reserved metadata page holds the name-to-root directory
//! through which named trees are bootstrapped.

use vstd::prelude::*;
use crate::constants::{
    BATCH_MANIFEST_PID, COUNTER_PID, MAX_MSG_HEADER_LEN, META_PID, MINIMUM_ITEMS_PER_SEGMENT,
    PAGE_CONSOLIDATION_THRESHOLD, SEG_HEADER_LEN,
};
use crate::epoch::{EpochTracker, Guard};
use crate::error::Error;
use crate::node::{
    base_node, chain_get, chain_wf, clamp_u64, copy_leaf_entries, entries_find, entries_get,
    entries_unique,
    frag_payload_len, leaf_del, leaf_set, leaf_view, node_get, node_wf, spec_frag_payload, Data,
    Frag, Node,
};
use crate::segment::{SegmentAllocator, SEG_COUNT_LIMIT, SEGMENT_SIZE_LIMIT};
use crate::util::{bytes_eq, copy_bytes, vec_set};

verus! {

/// Tunables of the store.
#[derive(Clone, Copy, PartialEq, Eq, Structural)]
pub struct Config {
    /// Size in bytes of one log segment.
    pub segment_size: usize,
    /// How often to flush in the background; `None` means never.
    pub flush_every_ms: Option<u64>,
    /// How many operations may pass before a snapshot is attempted.
    pub snapshot_after_ops: u64,
    /// Whether the store is temporary: its space is recycled eagerly and
    /// nothing is kept at close.
    pub temporary: bool,
}

impl Config {
    pub open spec fn wf(self) -> bool {
        SEG_HEADER_LEN + 4 * MAX_MSG_HEADER_LEN <= self.segment_size <= SEGMENT_SIZE_LIMIT
    }

    pub fn new() -> (c: Config)
        ensures
            c.wf(),
            c.segment_size == 8388608,
            c.flush_every_ms == Option::Some(500u64),
            c.snapshot_after_ops == 1000000,
            c.temporary == false,
    {
        Config {
            segment_size: 8388608,
            flush_every_ms: Option::Some(500),
            snapshot_after_ops: 1000000,
            temporary: false,
        }
    }

    pub fn segment_size(self, segment_size: usize) -> (c: Config)
        requires
            SEG_HEADER_LEN + 4 * MAX_MSG_HEADER_LEN <= segment_size <= SEGMENT_SIZE_LIMIT,
        ensures
            c == (Config { segment_size, ..self }),
    {
        Config { segment_size, ..self }
    }

    pub fn flush_every_ms(self, flush_every_ms: Option<u64>) -> (c: Config)
        ensures
            c == (Config { flush_every_ms, ..self }),
    {
        Config { flush_every_ms, ..self }
    }

    pub fn snapshot_after_ops(self, snapshot_after_ops: u64) -> (c: Config)
        ensures
            c == (Config { snapshot_after_ops, ..self }),
    {
        Config { snapshot_after_ops, ..self }
    }

    pub fn temporary(self, temporary: bool) -> (c: Config)
        ensures
            c == (Config { temporary, ..self }),
    {
        Config { temporary, ..self }
    }
}

/// An opaque handle to the physical location a page version was written to.
/// Compare-and-swap succeeds only against the current one.
#[derive(Clone, Copy, PartialEq, Eq, Structural, Debug)]
pub struct PagePtr {
    pub loc: u64,
}

/// One fragment of a page together with where its log record lives.
pub struct CacheEntry {
    pub frag: Frag,
    /// Segment the record was appended to.
    pub seg: usize,
    /// Size of the record in that segment.
    pub bytes: usize,
    /// Size of the out-of-line blob backing this record, zero if inline.
    pub blob_bytes: u64,
}

/// What a page-table slot holds.
pub enum PageState {
    /// One of the reserved pages (metadata, counter).
    Reserved,
    /// Previously allocated, now freed.
    Free,
    /// A live page: its current pointer and its fragment chain, newest
    /// fragment first.
    Live { ptr_loc: u64, entries: Vec<CacheEntry> },
}

/// The fragments of a chain, newest first.
pub open spec fn frags_of(es: Seq<CacheEntry>) -> Seq<Frag> {
    es.map_values(|e: CacheEntry| e.frag)
}


/// The accounting effect of superseding one chain record: its bytes leave
/// its segment's live count and its blob bytes leave the blob account
/// (both saturating at zero); nothing else changes.
pub open spec fn one_marked_dead(
    pre: SegmentAllocator,
    post: SegmentAllocator,
    e: CacheEntry,
) -> bool {
    &&& 0 <= e.seg < pre.segments@.len()
    &&& post.segment_size == pre.segment_size
    &&& post.current == pre.current
    &&& post.segments@ == pre.segments@.update(
        e.seg as int,
        (crate::segment::Segment {
            used: pre.segments@[e.seg as int].used,
            live: if e.bytes <= pre.segments@[e.seg as int].live {
                (pre.segments@[e.seg as int].live - e.bytes) as usize
            } else {
                0
            },
            state: pre.segments@[e.seg as int].state,
        }),
    )
    &&& post.blob_live == if e.blob_bytes <= pre.blob_live {
        (pre.blob_live - e.blob_bytes) as u64
    } else {
        0u64
    }
}

/// The accounting effect of superseding a whole chain, record by record,
/// oldest bookkeeping state first.
pub open spec fn chain_marked_dead(
    pre: SegmentAllocator,
    post: SegmentAllocator,
    es: Seq<CacheEntry>,
) -> bool
    decreases es.len(),
{
    if es.len() == 0 {
        post == pre
    } else {
        exists|mid: SegmentAllocator|
            #[trigger] one_marked_dead(pre, mid, es[0]) && chain_marked_dead(
                mid,
                post,
                es.drop_first(),
            )
    }
}

/// Marking one more record dead extends a marked-dead chain.
pub proof fn lemma_chain_marked_dead_snoc(
    pre: SegmentAllocator,
    mid: SegmentAllocator,
    post: SegmentAllocator,
    es: Seq<CacheEntry>,
    e: CacheEntry,
)
    requires
        chain_marked_dead(pre, mid, es),
        one_marked_dead(mid, post, e),
    ensures
        chain_marked_dead(pre, post, es.push(e)),
    decreases es.len(),
{
    if es.len() == 0 {
        assert(es.push(e)[0] == e);
        assert(es.push(e).drop_first() =~= Seq::<CacheEntry>::empty());
        assert(mid == pre);
        assert(one_marked_dead(pre, post, es.push(e)[0]) && chain_marked_dead(
            post,
            post,
            es.push(e).drop_first(),
        ));
    } else {
        let m0 = choose|m: SegmentAllocator|
            #[trigger] one_marked_dead(pre, m, es[0]) && chain_marked_dead(
                m,
                mid,
                es.drop_first(),
            );
        lemma_chain_marked_dead_snoc(m0, mid, post, es.drop_first(), e);
        assert(es.push(e)[0] == es[0]);
        assert(es.push(e).drop_first() =~= es.drop_first().push(e));
        assert(one_marked_dead(pre, m0, es.push(e)[0]) && chain_marked_dead(
            m0,
            post,
            es.push(e).drop_first(),
        ));
    }
}


/// The accounting effect of migrating one chain record: the old copy is
/// superseded, then a fresh copy is framed elsewhere.
pub open spec fn one_migrated(
    pre: SegmentAllocator,
    post: SegmentAllocator,
    e_old: CacheEntry,
    e_new: CacheEntry,
) -> bool {
    exists|mid: SegmentAllocator|
        #[trigger] one_marked_dead(pre, mid, e_old) && crate::segment::record_written(
            mid,
            post,
            e_new.bytes as int,
            e_new.blob_bytes as int,
        )
}

/// The accounting effect of migrating a whole chain, record by record.
pub open spec fn chain_migrated(
    pre: SegmentAllocator,
    post: SegmentAllocator,
    olds: Seq<CacheEntry>,
    news: Seq<CacheEntry>,
) -> bool
    decreases olds.len(),
{
    if olds.len() == 0 {
        post == pre && news.len() == 0
    } else {
        &&& news.len() == olds.len()
        &&& exists|mid: SegmentAllocator|
            #[trigger] one_migrated(pre, mid, olds[0], news[0]) && chain_migrated(
                mid,
                post,
                olds.drop_first(),
                news.drop_first(),
            )
    }
}

/// Migrating one more record extends a migrated chain.
pub proof fn lemma_chain_migrated_snoc(
    pre: SegmentAllocator,
    mid: SegmentAllocator,
    post: SegmentAllocator,
    olds: Seq<CacheEntry>,
    news: Seq<CacheEntry>,
    e_old: CacheEntry,
    e_new: CacheEntry,
)
    requires
        chain_migrated(pre, mid, olds, news),
        one_migrated(mid, post, e_old, e_new),
    ensures
        chain_migrated(pre, post, olds.push(e_old), news.push(e_new)),
    decreases olds.len(),
{
    if olds.len() == 0 {
        assert(olds.push(e_old)[0] == e_old);
        assert(news.push(e_new)[0] == e_new);
        assert(olds.push(e_old).drop_first() =~= Seq::<CacheEntry>::empty());
        assert(news.push(e_new).drop_first() =~= Seq::<CacheEntry>::empty());
        assert(mid == pre);
        assert(one_migrated(pre, post, olds.push(e_old)[0], news.push(e_new)[0])
            && chain_migrated(
            post,
            post,
            olds.push(e_old).drop_first(),
            news.push(e_new).drop_first(),
        ));
    } else {
        let m0 = choose|m: SegmentAllocator|
            #[trigger] one_migrated(pre, m, olds[0], news[0]) && chain_migrated(
                m,
                mid,
                olds.drop_first(),
                news.drop_first(),
            );
        lemma_chain_migrated_snoc(
            m0,
            mid,
            post,
            olds.drop_first(),
            news.drop_first(),
            e_old,
            e_new,
        );
        assert(olds.push(e_old)[0] == olds[0]);
        assert(news.push(e_new)[0] == news[0]);
        assert(olds.push(e_old).drop_first() =~= olds.drop_first().push(e_old));
        assert(news.push(e_new).drop_first() =~= news.drop_first().push(e_new));
        assert(one_migrated(pre, m0, olds.push(e_old)[0], news.push(e_new)[0])
            && chain_migrated(
            m0,
            post,
            olds.push(e_old).drop_first(),
            news.push(e_new).drop_first(),
        ));
    }
}


/// Superseding records never grows the log: the segment count stays, and
/// the live accounts only shrink.
pub proof fn lemma_chain_marked_dead_growth(
    pre: SegmentAllocator,
    post: SegmentAllocator,
    es: Seq<CacheEntry>,
)
    requires
        chain_marked_dead(pre, post, es),
    ensures
        post.segments@.len() == pre.segments@.len(),
        post.blob_live <= pre.blob_live,
        post.segment_size == pre.segment_size,
        post.current == pre.current,
    decreases es.len(),
{
    if es.len() > 0 {
        let mid = choose|mid: SegmentAllocator|
            #[trigger] one_marked_dead(pre, mid, es[0]) && chain_marked_dead(
                mid,
                post,
                es.drop_first(),
            );
        lemma_chain_marked_dead_growth(mid, post, es.drop_first());
    }
}

/// First-match lookup of a name in the directory.
pub open spec fn meta_get(s: Seq<(Vec<u8>, u64)>, name: Seq<u8>) -> Option<u64>
    decreases s.len(),
{
    if s.len() == 0 {
        Option::None
    } else if s[0].0@ == name {
        Option::Some(s[0].1)
    } else {
        meta_get(s.drop_first(), name)
    }
}

/// A name the directory does not hold maps to nothing.
pub proof fn lemma_meta_get_none(s: Seq<(Vec<u8>, u64)>, name: Seq<u8>)
    requires
        forall|j: int| 0 <= j < s.len() ==> (#[trigger] s[j]).0@ != name,
    ensures
        meta_get(s, name) is None,
    decreases s.len(),
{
    if s.len() > 0 {
        lemma_meta_get_none(s.drop_first(), name);
    }
}

/// The first entry holding a name decides its mapping.
pub proof fn lemma_meta_get_at(s: Seq<(Vec<u8>, u64)>, i: int)
    requires
        0 <= i < s.len(),
        forall|j: int| 0 <= j < i ==> (#[trigger] s[j]).0@ != s[i].0@,
    ensures
        meta_get(s, s[i].0@) == Option::Some(s[i].1),
    decreases i,
{
    if i > 0 {
        lemma_meta_get_at(s.drop_first(), i - 1);
    }
}

/// Appending a directory entry under a fresh name binds exactly that name.
pub proof fn lemma_meta_get_push(s: Seq<(Vec<u8>, u64)>, e: (Vec<u8>, u64), q: Seq<u8>)
    requires
        forall|j: int| 0 <= j < s.len() ==> (#[trigger] s[j]).0@ != e.0@,
    ensures
        meta_get(s.push(e), q) == if q == e.0@ {
            Option::Some(e.1)
        } else {
            meta_get(s, q)
        },
    decreases s.len(),
{
    if s.len() == 0 {
        assert(s.push(e)[0] == e);
        if q != e.0@ {
            assert(s.push(e).drop_first() =~= s);
        }
    } else {
        assert(s.push(e).drop_first() =~= s.drop_first().push(e));
        lemma_meta_get_push(s.drop_first(), e, q);
    }
}

/// Overwriting the first entry holding a name rebinds exactly that name.
pub proof fn lemma_meta_get_update(s: Seq<(Vec<u8>, u64)>, i: int, e: (Vec<u8>, u64), q: Seq<u8>)
    requires
        0 <= i < s.len(),
        s[i].0@ == e.0@,
        forall|j: int| 0 <= j < i ==> (#[trigger] s[j]).0@ != e.0@,
    ensures
        meta_get(s.update(i, e), q) == if q == e.0@ {
            Option::Some(e.1)
        } else {
            meta_get(s, q)
        },
    decreases i,
{
    if i == 0 {
        assert(s.update(0int, e)[0] == e);
        if q != e.0@ {
            assert(s.update(0int, e).drop_first() =~= s.drop_first());
        }
    } else {
        assert(s.update(i, e)[0] == s[0]);
        assert(s.update(i, e).drop_first() =~= s.drop_first().update(i - 1, e));
        lemma_meta_get_update(s.drop_first(), i - 1, e, q);
    }
}

/// Removing the only entry holding a name unbinds exactly that name.
pub proof fn lemma_meta_get_remove(s: Seq<(Vec<u8>, u64)>, i: int, q: Seq<u8>)
    requires
        0 <= i < s.len(),
        forall|j: int| 0 <= j < i ==> (#[trigger] s[j]).0@ != s[i].0@,
        forall|a: int, b: int| 0 <= a < b < s.len() ==> (#[trigger] s[a]).0@ != (#[trigger] s[b]).0@,
    ensures
        meta_get(s.remove(i), q) == if q == s[i].0@ {
            Option::<u64>::None
        } else {
            meta_get(s, q)
        },
    decreases i,
{
    if i == 0 {
        assert(s.remove(0int) =~= s.drop_first());
        if q == s[0].0@ {
            assert(forall|j: int|
                0 <= j < s.drop_first().len() ==> (#[trigger] s.drop_first()[j]).0@ != q);
            lemma_meta_get_none(s.drop_first(), q);
        }
    } else {
        assert(s.remove(i)[0] == s[0]);
        assert(s.remove(i).drop_first() =~= s.drop_first().remove(i - 1));
        lemma_meta_get_remove(s.drop_first(), i - 1, q);
    }
}

/// The page cache: page table, name directory, log-space accounting, and
/// epoch tracking, over one configuration.
pub struct PageCache {
    pub config: Config,
    /// The page table, indexed by `PageId`.
    pub table: Vec<PageState>,
    /// The name-to-root directory: the content of the reserved metadata
    /// page.
    pub meta: Vec<(Vec<u8>, u64)>,
    /// Log-space accounting.
    pub log: SegmentAllocator,
    /// Epoch bookkeeping for safe reclamation.
    pub epochs: EpochTracker,
    /// Next fresh physical-pointer stamp.
    pub next_ptr_loc: u64,
}

/// A single page-table slot is sound with respect to the rest of the cache.
pub open spec fn slot_wf(s: PageState, seg_count: int, ptr_bound: u64) -> bool {
    s matches PageState::Live { ptr_loc, entries } ==> {
        &&& chain_wf(frags_of(entries@))
        &&& ptr_loc < ptr_bound
        &&& forall|j: int| 0 <= j < entries@.len() ==> (#[trigger] entries@[j]).seg < seg_count
    }
}

impl PageCache {
    pub open spec fn wf(self) -> bool {
        &&& self.config.wf()
        &&& self.log.wf()
        &&& self.log.segment_size == self.config.segment_size
        &&& self.epochs.wf()
        &&& 2 <= self.table@.len() <= BATCH_MANIFEST_PID
        &&& self.table@[META_PID as int] is Reserved
        &&& self.table@[COUNTER_PID as int] is Reserved
        &&& forall|i: int| 2 <= i < self.table@.len() ==> !((#[trigger] self.table@[i]) is Reserved)
        &&& forall|i: int|
            0 <= i < self.table@.len() ==> slot_wf(
                #[trigger] self.table@[i],
                self.log.segments@.len() as int,
                self.next_ptr_loc,
            )
        &&& forall|a: int, b: int|
            0 <= a < b < self.meta@.len() ==> (#[trigger] self.meta@[a]).0@ != (
            #[trigger] self.meta@[b]).0@
        &&& forall|i: int|
            0 <= i < self.meta@.len() ==> {
                &&& 2 <= (#[trigger] self.meta@[i]).1 < self.table@.len()
                &&& self.table@[self.meta@[i].1 as int] is Live
            }
    }

    /// The directory this cache currently serves: what each name maps to.
    pub open spec fn directory(self) -> Seq<(Vec<u8>, u64)> {
        self.meta@
    }

    /// Room, in fresh page ids, epochs, segments, and pointer stamps, for a
    /// few more mutating operations. Purely a machine limit: all counters
    /// are far from their bounds in any real run.
    pub open spec fn headroom(self, n: int) -> bool {
        &&& self.table@.len() + n <= BATCH_MANIFEST_PID
        &&& self.epochs.current + n <= u64::MAX
        &&& self.log.segments@.len() + n <= SEG_COUNT_LIMIT
        &&& self.next_ptr_loc + n <= u64::MAX
    }

    /// Open a fresh, empty store.
    pub fn start(config: Config) -> (r: PageCache)
        requires
            config.wf(),
        ensures
            r.wf(),
            r.config == config,
            r.meta@.len() == 0,
            r.table@.len() == 2,
            r.epochs.current == 0,
            r.epochs.pinned@.len() == 0,
            r.log.segments@.len() == 1,
            r.log.blob_live == 0,
            r.headroom(8),
    {
        let mut table: Vec<PageState> = Vec::new();
        table.push(PageState::Reserved);
        table.push(PageState::Reserved);
        PageCache {
            config,
            table,
            meta: Vec::new(),
            log: SegmentAllocator::new(config.segment_size),
            epochs: EpochTracker::new(),
            next_ptr_loc: 1,
        }
    }

    /// Pin a guard for one operation.
    pub fn pin(&mut self) -> (g: Guard)
        requires
            old(self).wf(),
        ensures
            final(self).wf(),
            final(self).epochs.holds(g),
            g.epoch == old(self).epochs.current,
            final(self).epochs.pinned@ == old(self).epochs.pinned@.push(g.epoch),
            *final(self) == (PageCache { epochs: final(self).epochs, ..*old(self) }),
            final(self).epochs.current == old(self).epochs.current,
    {
        self.epochs.pin()
    }

    /// Release a guard, then reclaim whatever space no remaining guard can
    /// still reach.
    pub fn unpin(&mut self, g: Guard)
        requires
            old(self).wf(),
            old(self).epochs.holds(g),
        ensures
            final(self).wf(),
            final(self).meta@ == old(self).meta@,
            final(self).table@ == old(self).table@,
            final(self).config == old(self).config,
            final(self).epochs.current == old(self).epochs.current,
            final(self).next_ptr_loc == old(self).next_ptr_loc,
            // exactly the surrendered guard goes away
            exists|i: int|
                0 <= i < old(self).epochs.pinned@.len() && old(self).epochs.pinned@[i] == g.epoch
                    && final(self).epochs.pinned@ == old(self).epochs.pinned@.remove(i),
            // one reaper sweep runs under the remaining guards' horizon
            exists|oldest: Option<u64>|
                #[trigger] crate::segment::oldest_valid(final(self).epochs.pinned@, oldest)
                    && crate::segment::reaped(
                    old(self).log,
                    final(self).log,
                    old(self).epochs.current,
                    oldest,
                ),
            final(self).log.segments@.len() == old(self).log.segments@.len(),
            // reclamation safety: a segment goes free only when no live
            // guard was pinned at or before its retirement
            forall|i: int|
                0 <= i < final(self).log.segments@.len() && !(old(self).log.segments@[i].state
                    is Free) && (#[trigger] final(self).log.segments@[i]).state is Free ==> (old(
                    self,
                ).log.segments@[i].state matches crate::segment::SegState::Retiring { epoch }
                    && final(self).epochs.no_guard_at_or_before(epoch)),
    {
        self.epochs.unpin(g);
        let oldest = self.epochs.oldest_pinned();
        let now = self.epochs.current;
        self.log.reap(now, oldest, &self.epochs);
        proof {
            assert(crate::segment::oldest_valid(self.epochs.pinned@, oldest));
            assert(crate::segment::reaped(old(self).log, self.log, now, oldest));
        }
        proof {
            assert forall|i: int| 0 <= i < self.table@.len() implies slot_wf(
                #[trigger] self.table@[i],
                self.log.segments@.len() as int,
                self.next_ptr_loc,
            ) by {
                assert(slot_wf(
                    old(self).table@[i],
                    old(self).log.segments@.len() as int,
                    old(self).next_ptr_loc,
                ));
            }
        }
    }

    /// Find the first directory entry holding `name`.
    #[verifier::loop_isolation(false)]
    fn meta_find(&self, name: &Vec<u8>) -> (r: Option<usize>)
        ensures
            match r {
                Option::Some(i) => {
                    &&& i < self.meta@.len()
                    &&& self.meta@[i as int].0@ == name@
                    &&& forall|j: int| 0 <= j < i ==> (#[trigger] self.meta@[j]).0@ != name@
                    &&& meta_get(self.meta@, name@) == Option::Some(self.meta@[i as int].1)
                },
                Option::None => {
                    &&& forall|j: int|
                        0 <= j < self.meta@.len() ==> (#[trigger] self.meta@[j]).0@ != name@
                    &&& meta_get(self.meta@, name@) is None
                },
            },
    {
        let n = self.meta.len();
        let mut i: usize = 0;
        loop
            invariant
                i <= n,
                forall|j: int| 0 <= j < i ==> (#[trigger] self.meta@[j]).0@ != name@,
            decreases n - i,
        {
            if i == n {
                proof {
                    lemma_meta_get_none(self.meta@, name@);
                }
                return Option::None;
            }
            if bytes_eq(&self.meta[i].0, name) {
                proof {
                    lemma_meta_get_at(self.meta@, i as int);
                }
                return Option::Some(i);
            }
            i += 1;
        }
    }

    /// Look up the root `PageId` the directory holds for `name`; a miss is
    /// reported as `CollectionNotFound` and drives the bootstrap allocation
    /// path.
    pub fn meta_pid_for_name(&self, name: &Vec<u8>, guard: &Guard) -> (r: Result<u64, Error>)
        requires
            self.wf(),
            self.epochs.holds(*guard),
        ensures
            match r {
                Result::Ok(pid) => {
                    &&& meta_get(self.meta@, name@) == Option::Some(pid)
                    &&& 2 <= pid < self.table@.len()
                    &&& self.table@[pid as int] is Live
                },
                Result::Err(e) => {
                    &&& meta_get(self.meta@, name@) is None
                    &&& e.is_collection_not_found(name@)
                },
            },
    {
        match self.meta_find(name) {
            Option::Some(i) => Result::Ok(self.meta[i].1),
            Option::None => Result::Err(Error::CollectionNotFound(copy_bytes(name))),
        }
    }

    /// Atomically install `new` under `name` in the directory if and only
    /// if the directory currently maps `name` to `expected`. On mismatch
    /// nothing changes and the actual current value is returned, so the
    /// caller can decide whether to retry. Linearization point of every
    /// root change: afterwards, every lookup under `name` yields `new`.
    pub fn cas_root_in_meta(
        &mut self,
        name: &Vec<u8>,
        expected: Option<u64>,
        new: Option<u64>,
        guard: &Guard,
    ) -> (r: Result<Result<(), Option<u64>>, Error>)
        requires
            old(self).wf(),
            old(self).epochs.holds(*guard),
            old(self).epochs.current < u64::MAX,
            new matches Option::Some(v) ==> 2 <= v < old(self).table@.len() && old(
                self,
            ).table@[v as int] is Live,
        ensures
            final(self).wf(),
            r is Ok,
            final(self).table@ == old(self).table@,
            final(self).log == old(self).log,
            final(self).config == old(self).config,
            final(self).epochs.pinned@ == old(self).epochs.pinned@,
            final(self).next_ptr_loc == old(self).next_ptr_loc,
            match r {
                Result::Ok(inner) => match inner {
                    Result::Ok(()) => {
                        &&& meta_get(old(self).meta@, name@) == expected
                        &&& forall|q: Seq<u8>| #[trigger] meta_get(final(self).meta@, q) == (
                        if q == name@ {
                            new
                        } else {
                            meta_get(old(self).meta@, q)
                        })
                        &&& final(self).epochs.current == old(self).epochs.current + 1
                    },
                    Result::Err(current) => {
                        &&& meta_get(old(self).meta@, name@) != expected
                        &&& current == meta_get(old(self).meta@, name@)
                        &&& final(self).meta@ == old(self).meta@
                        &&& final(self).epochs == old(self).epochs
                    },
                },
                Result::Err(_) => false,
            },
    {
        let found = self.meta_find(name);
        let current: Option<u64> = match found {
            Option::Some(i) => Option::Some(self.meta[i].1),
            Option::None => Option::None,
        };
        let matches_expected: bool = match (&current, &expected) {
            (Option::Some(a), Option::Some(b)) => *a == *b,
            (Option::None, Option::None) => true,
            _ => false,
        };
        if !matches_expected {
            return Result::Ok(Result::Err(current));
        }
        let ghost pre = self.meta@;
        match new {
            Option::Some(v) => {
                match found {
                    Option::Some(i) => {
                        let key = copy_bytes(name);
                        vec_set(&mut self.meta, i, (key, v));
                        proof {
                            assert(self.meta@ == pre.update(i as int, (self.meta@[i as int].0, v)));
                            assert(self.meta@[i as int].0@ == name@);
                            assert forall|q: Seq<u8>| #[trigger] meta_get(self.meta@, q) == (
                            if q == name@ {
                                new
                            } else {
                                meta_get(pre, q)
                            }) by {
                                lemma_meta_get_update(
                                    pre,
                                    i as int,
                                    self.meta@[i as int],
                                    q,
                                );
                            }
                            assert forall|a: int, b: int|
                                0 <= a < b < self.meta@.len() implies (
                            #[trigger] self.meta@[a]).0@ != (#[trigger] self.meta@[b]).0@ by {
                                assert(pre[a].0@ != pre[b].0@);
                            }
                        }
                    },
                    Option::None => {
                        let key = copy_bytes(name);
                        self.meta.push((key, v));
                        proof {
                            assert(self.meta@ == pre.push(self.meta@.last()));
                            assert(self.meta@.last().0@ == name@);
                            assert forall|q: Seq<u8>| #[trigger] meta_get(self.meta@, q) == (
                            if q == name@ {
                                new
                            } else {
                                meta_get(pre, q)
                            }) by {
                                lemma_meta_get_push(pre, self.meta@.last(), q);
                            }
                            assert forall|a: int, b: int|
                                0 <= a < b < self.meta@.len() implies (
                            #[trigger] self.meta@[a]).0@ != (#[trigger] self.meta@[b]).0@ by {
                                if b < pre.len() {
                                    assert(pre[a].0@ != pre[b].0@);
                                } else {
                                    assert(pre[a].0@ != name@);
                                }
                            }
                        }
                    },
                }
            },
            Option::None => {
                match found {
                    Option::Some(i) => {
                        self.meta.remove(i);
                        proof {
                            assert forall|q: Seq<u8>| #[trigger] meta_get(self.meta@, q) == (
                            if q == name@ {
                                Option::<u64>::None
                            } else {
                                meta_get(pre, q)
                            }) by {
                                lemma_meta_get_remove(pre, i as int, q);
                            }
                            assert forall|a: int, b: int|
                                0 <= a < b < self.meta@.len() implies (
                            #[trigger] self.meta@[a]).0@ != (#[trigger] self.meta@[b]).0@ by {
                                let pa = if a < i as int {
                                    a
                                } else {
                                    a + 1
                                };
                                let pb = if b < i as int {
                                    b
                                } else {
                                    b + 1
                                };
                                assert(pre[pa].0@ != pre[pb].0@);
                            }
                        }
                    },
                    Option::None => {
                        proof {
                            lemma_meta_get_none(self.meta@, name@);
                        }
                    },
                }
            },
        }
        self.epochs.advance();
        Result::Ok(Result::Ok(()))
    }
}


/// Payload size at or above which a record's payload is stored out of line
/// as a blob, to keep at least `MINIMUM_ITEMS_PER_SEGMENT` records per
/// segment.
pub open spec fn spec_blob_threshold(segment_size: int) -> int {
    (segment_size - SEG_HEADER_LEN) / (MINIMUM_ITEMS_PER_SEGMENT as int)
}

/// Bytes a record occupies inside its segment: a framed inline payload, or
/// a framed blob pointer.
pub open spec fn spec_record_size(segment_size: int, payload: int) -> int {
    if payload >= spec_blob_threshold(segment_size) {
        MAX_MSG_HEADER_LEN + 8
    } else {
        MAX_MSG_HEADER_LEN + payload
    }
}

/// Bytes the record stores out of line, zero when inline.
pub open spec fn spec_blob_size(segment_size: int, payload: int) -> int {
    if payload >= spec_blob_threshold(segment_size) {
        payload
    } else {
        0
    }
}

/// Decide framing for one fragment: bytes inside the segment, and bytes
/// stored out of line.
fn record_size(segment_size: usize, frag: &Frag) -> (r: (usize, u64))
    requires
        SEG_HEADER_LEN + 4 * MAX_MSG_HEADER_LEN <= segment_size <= SEGMENT_SIZE_LIMIT,
    ensures
        ({
            let p = clamp_u64(spec_frag_payload(*frag)) as int;
            &&& r.0 == spec_record_size(segment_size as int, p)
            &&& r.1 == spec_blob_size(segment_size as int, p)
            &&& 0 < r.0 <= segment_size - SEG_HEADER_LEN
        }),
{
    let payload = frag_payload_len(frag);
    let usable = segment_size - SEG_HEADER_LEN;
    let threshold = usable / MINIMUM_ITEMS_PER_SEGMENT;
    if payload >= threshold as u64 {
        (MAX_MSG_HEADER_LEN + 8, payload)
    } else {
        proof {
            assert(4 * MAX_MSG_HEADER_LEN <= usable);
            assert(threshold >= MAX_MSG_HEADER_LEN) by (nonlinear_arith)
                requires
                    threshold == usable / MINIMUM_ITEMS_PER_SEGMENT,
                    MINIMUM_ITEMS_PER_SEGMENT == 4,
                    usable >= 4 * MAX_MSG_HEADER_LEN,
                    MAX_MSG_HEADER_LEN == 29,
            ;
            assert(4 * threshold <= usable) by (nonlinear_arith)
                requires
                    threshold == usable / 4,
                    usable >= 0,
            ;
        }
        (MAX_MSG_HEADER_LEN + payload as usize, 0)
    }
}

/// Fold a fragment chain into one fresh base node: the same reads, and
/// the same key-range bounds, sibling link, and merge state as the old
/// base.
#[verifier::loop_isolation(false)]
fn fold_chain(entries: &Vec<CacheEntry>) -> (r: Node)
    requires
        chain_wf(frags_of(entries@)),
        base_node(frags_of(entries@).last()).data is Leaf,
    ensures
        node_wf(r),
        r.data is Leaf,
        forall|q: Seq<u8>| #[trigger] node_get(r, q) == chain_get(frags_of(entries@), q),
        r.lo@ == base_node(frags_of(entries@).last()).lo@,
        r.hi@ == base_node(frags_of(entries@).last()).hi@,
        r.next == base_node(frags_of(entries@).last()).next,
        r.merging_child == base_node(frags_of(entries@).last()).merging_child,
        r.merging == base_node(frags_of(entries@).last()).merging,
{
    let len = entries.len();
    let ghost frags = frags_of(entries@);
    proof {
        assert(frags.len() == len);
        assert(frags.last() == entries@[len - 1].frag);
    }
    let (mut es, lo, hi, nx, mc, mg): (
        Vec<(Vec<u8>, Vec<u8>)>,
        Vec<u8>,
        Vec<u8>,
        Option<u64>,
        Option<u64>,
        bool,
    ) = match &entries[len - 1].frag {
        Frag::Base(n) => {
            match &n.data {
                Data::Leaf(b) => (
                    copy_leaf_entries(b),
                    copy_bytes(&n.lo),
                    copy_bytes(&n.hi),
                    n.next,
                    n.merging_child,
                    n.merging,
                ),
                Data::Index(_) => {
                    proof {
                        assert(false);
                    }
                    (Vec::new(), Vec::new(), Vec::new(), Option::None, Option::None, false)
                },
            }
        },
        _ => {
            proof {
                assert(false);
            }
            (Vec::new(), Vec::new(), Vec::new(), Option::None, Option::None, false)
        },
    };
    proof {
        assert(frags.subrange(len - 1, len as int).len() == 1);
        assert(frags.subrange(len - 1, len as int)[0] == frags[len - 1]);
        assert(forall|q: Seq<u8>| #[trigger] chain_get(frags.subrange(len - 1, len as int), q)
            == node_get(base_node(frags.last()), q));
    }
    let mut j: usize = len - 1;
    loop
        invariant
            j <= len - 1,
            entries_unique(leaf_view(es@)),
            forall|q: Seq<u8>| #[trigger] entries_get(leaf_view(es@), q) == chain_get(
                frags.subrange(j as int, len as int),
                q,
            ),
        decreases j,
    {
        if j == 0 {
            break;
        }
        j -= 1;
        let ghost pre = leaf_view(es@);
        proof {
            assert(frags.subrange(j as int, len as int).drop_first() =~= frags.subrange(
                j + 1,
                len as int,
            ));
            assert(frags.subrange(j as int, len as int)[0] == frags[j as int]);
            assert(frags[j as int] == entries@[j as int].frag);
            assert(!(frags[j as int] is Base));
        }
        match &entries[j].frag {
            Frag::Insert(k, v) => {
                let k2 = copy_bytes(k);
                let v2 = copy_bytes(v);
                leaf_set(&mut es, k2, v2);
            },
            Frag::Remove(k) => {
                leaf_del(&mut es, k);
            },
            Frag::Base(_) => {
                proof {
                    assert(false);
                }
            },
        }
    }
    proof {
        assert(frags.subrange(0, len as int) =~= frags);
    }
    Node { data: Data::Leaf(es), lo, hi, next: nx, merging_child: mc, merging: mg }
}

impl PageCache {
    /// Reserve a fresh `PageId` — never a reserved one, never one in use —
    /// and durably write `frag` as that page's initial content, returning
    /// the id and the pointer to the written location.
    pub fn allocate(&mut self, frag: Frag, guard: &Guard) -> (r: Result<(u64, PagePtr), Error>)
        requires
            old(self).wf(),
            old(self).epochs.holds(*guard),
            frag matches Frag::Base(n) && node_wf(n),
            old(self).headroom(1),
        ensures
            final(self).wf(),
            r matches Result::Ok(p) && ({
                let (pid, ptr) = p;
                &&& pid == old(self).table@.len()
                &&& pid != META_PID && pid != COUNTER_PID && pid != BATCH_MANIFEST_PID
                &&& ptr.loc == old(self).next_ptr_loc
                &&& final(self).next_ptr_loc == old(self).next_ptr_loc + 1
                &&& final(self).table@.len() == old(self).table@.len() + 1
                &&& (final(self).table@[pid as int] matches PageState::Live { ptr_loc, entries }
                    && ptr_loc == ptr.loc && frags_of(entries@) == seq![frag])
                &&& forall|q: int|
                    0 <= q < old(self).table@.len()
                        ==> final(self).table@[q] == old(self).table@[q]
                &&& final(self).meta@ == old(self).meta@
                &&& final(self).config == old(self).config
                &&& final(self).epochs.pinned@ == old(self).epochs.pinned@
                &&& final(self).epochs.current == old(self).epochs.current + 1
                &&& old(self).log.segments@.len() <= final(self).log.segments@.len() <= old(
                    self,
                ).log.segments@.len() + 1
                // the accounting effect: exactly one record framed
                &&& ({
                    let payload = clamp_u64(spec_frag_payload(frag)) as int;
                    crate::segment::record_written(
                        old(self).log,
                        final(self).log,
                        spec_record_size(old(self).config.segment_size as int, payload),
                        spec_blob_size(old(self).config.segment_size as int, payload),
                    )
                })
            }),
    {
        let (bytes, blob) = record_size(self.config.segment_size, &frag);
        let seg = self.log.reserve(bytes);
        let ghost log_mid = self.log;
        if blob > 0 {
            self.log.blob_written(blob);
        }
        proof {
            assert(crate::segment::reserved_one(old(self).log, log_mid, seg as int, bytes as int));
            assert(self.log == (SegmentAllocator {
                blob_live: if log_mid.blob_live + blob <= u64::MAX {
                    (log_mid.blob_live + blob) as u64
                } else {
                    u64::MAX
                },
                ..log_mid
            }));
            assert(crate::segment::record_written(
                old(self).log,
                self.log,
                bytes as int,
                blob as int,
            ));
        }
        let pid = self.table.len() as u64;
        let ptr = PagePtr { loc: self.next_ptr_loc };
        let mut entries: Vec<CacheEntry> = Vec::new();
        entries.push(CacheEntry { frag, seg, bytes, blob_bytes: blob });
        let ghost new_entries = entries@;
        self.table.push(PageState::Live { ptr_loc: ptr.loc, entries });
        self.next_ptr_loc = self.next_ptr_loc + 1;
        self.epochs.advance();
        proof {
            assert(frags_of(new_entries) =~= seq![frags_of(new_entries)[0]]);
            assert(chain_wf(frags_of(new_entries)));
            assert forall|i: int| 0 <= i < self.table@.len() implies slot_wf(
                #[trigger] self.table@[i],
                self.log.segments@.len() as int,
                self.next_ptr_loc,
            ) by {
                if i < old(self).table@.len() {
                    assert(slot_wf(
                        old(self).table@[i],
                        old(self).log.segments@.len() as int,
                        old(self).next_ptr_loc,
                    ));
                }
            }
        }
        Result::Ok((pid, ptr))
    }

    /// Return a page's space to the store, if and only if `ptr` still is
    /// the current occupant of `pid`. An inner `Err` means another writer
    /// replaced the page first: freeing a stale pointer would be a lost
    /// update, and the caller must treat it as fatal. The freed space is
    /// reclaimed only once no guard pinned before this call remains live.
    #[verifier::loop_isolation(false)]
    pub fn free(&mut self, pid: u64, ptr: PagePtr, guard: &Guard) -> (r: Result<
        Result<(), ()>,
        Error,
    >)
        requires
            old(self).wf(),
            old(self).epochs.holds(*guard),
            old(self).epochs.current < u64::MAX,
            // the directory must not reach the page being freed
            forall|i: int| 0 <= i < old(self).meta@.len() ==> (#[trigger] old(self).meta@[i]).1
                != pid,
        ensures
            final(self).wf(),
            final(self).meta@ == old(self).meta@,
            final(self).config == old(self).config,
            final(self).epochs.pinned@ == old(self).epochs.pinned@,
            final(self).next_ptr_loc == old(self).next_ptr_loc,
            final(self).table@.len() == old(self).table@.len(),
            final(self).log.segments@.len() == old(self).log.segments@.len(),
            match r {
                Result::Err(e) => {
                    &&& e is ReportableBug
                    &&& (pid < 2 || pid >= old(self).table@.len() || !(old(
                        self,
                    ).table@[pid as int] is Live))
                    &&& *final(self) == *old(self)
                },
                Result::Ok(inner) => {
                    &&& 2 <= pid < old(self).table@.len()
                    &&& old(self).table@[pid as int] matches PageState::Live { ptr_loc, entries }
                    &&& match inner {
                        Result::Err(()) => ptr_loc != ptr.loc && *final(self) == *old(self),
                        Result::Ok(()) => {
                            &&& ptr_loc == ptr.loc
                            &&& final(self).table@ == old(self).table@.update(
                                pid as int,
                                PageState::Free,
                            )
                            &&& final(self).epochs.current == old(self).epochs.current + 1
                            // every record of the chain is accounted dead,
                            // then one reaper sweep runs
                            &&& exists|mid: SegmentAllocator, oldest: Option<u64>|
                                chain_marked_dead(old(self).log, mid, entries@)
                                    && crate::segment::oldest_valid(
                                    final(self).epochs.pinned@,
                                    oldest,
                                ) && #[trigger] crate::segment::reaped(
                                    mid,
                                    final(self).log,
                                    (old(self).epochs.current + 1) as u64,
                                    oldest,
                                )
                        },
                    }
                },
            },
    {
        if pid < 2 || pid >= self.table.len() as u64 {
            return Result::Err(Error::ReportableBug);
        }
        let pidus = pid as usize;
        let (is_live, cur_loc, n_entries): (bool, u64, usize) = match &self.table[pidus] {
            PageState::Live { ptr_loc, entries } => (true, *ptr_loc, entries.len()),
            _ => (false, 0, 0),
        };
        if !is_live {
            return Result::Err(Error::ReportableBug);
        }
        if cur_loc != ptr.loc {
            return Result::Ok(Result::Err(()));
        }
        // account every record of the chain as dead
        let ghost the_entries = match old(self).table@[pid as int] {
            PageState::Live { entries, .. } => entries@,
            _ => arbitrary(),
        };
        let mut j: usize = 0;
        proof {
            assert(the_entries.subrange(0, 0) =~= Seq::<CacheEntry>::empty());
        }
        loop
            invariant
                j <= n_entries,
                n_entries == the_entries.len(),
                self.table@ == old(self).table@,
                self.meta@ == old(self).meta@,
                self.epochs == old(self).epochs,
                self.next_ptr_loc == old(self).next_ptr_loc,
                self.config == old(self).config,
                self.log.wf(),
                self.log.segment_size == old(self).log.segment_size,
                self.log.segments@.len() == old(self).log.segments@.len(),
                self.log.current == old(self).log.current,
                chain_marked_dead(old(self).log, self.log, the_entries.subrange(0, j as int)),
            decreases n_entries - j,
        {
            if j == n_entries {
                break;
            }
            let (seg, bytes, blob): (usize, usize, u64) = match &self.table[pidus] {
                PageState::Live { entries, .. } => (
                    entries[j].seg,
                    entries[j].bytes,
                    entries[j].blob_bytes,
                ),
                _ => (0, 0, 0),
            };
            let ghost log_pre = self.log;
            self.log.mark_dead(seg, bytes);
            if blob > 0 {
                self.log.blob_dead(blob);
            }
            proof {
                assert(one_marked_dead(log_pre, self.log, the_entries[j as int]));
                lemma_chain_marked_dead_snoc(
                    old(self).log,
                    log_pre,
                    self.log,
                    the_entries.subrange(0, j as int),
                    the_entries[j as int],
                );
                assert(the_entries.subrange(0, j + 1) =~= the_entries.subrange(
                    0,
                    j as int,
                ).push(the_entries[j as int]));
            }
            j += 1;
        }
        proof {
            assert(the_entries.subrange(0, n_entries as int) =~= the_entries);
        }
        let ghost log_dead = self.log;
        vec_set(&mut self.table, pidus, PageState::Free);
        self.epochs.advance();
        let oldest = self.epochs.oldest_pinned();
        let now = self.epochs.current;
        self.log.reap(now, oldest, &self.epochs);
        proof {
            assert(chain_marked_dead(old(self).log, log_dead, the_entries));
            assert(crate::segment::oldest_valid(self.epochs.pinned@, oldest));
            assert(crate::segment::reaped(
                log_dead,
                self.log,
                (old(self).epochs.current + 1) as u64,
                oldest,
            ));
        }
        proof {
            assert forall|i: int| 0 <= i < self.table@.len() implies slot_wf(
                #[trigger] self.table@[i],
                self.log.segments@.len() as int,
                self.next_ptr_loc,
            ) by {
                assert(slot_wf(
                    old(self).table@[i],
                    old(self).log.segments@.len() as int,
                    old(self).next_ptr_loc,
                ));
                if i != pid as int {
                    assert(self.table@[i] == old(self).table@[i]);
                }
            }
        }
        Result::Ok(Result::Ok(()))
    }

    /// True when `pid` is a live leaf page: the pages onto which a delta
    /// may be linked.
    pub open spec fn linkable(self, pid: u64) -> bool {
        &&& 2 <= pid < self.table@.len()
        &&& (self.table@[pid as int] matches PageState::Live { entries, .. } && base_node(
            frags_of(entries@).last(),
        ).data is Leaf)
    }

    /// Compare-and-swap prepend of one delta onto a page's fragment chain:
    /// succeeds only against the current pointer, and hands back the new
    /// one. It answers — with the new pointer, or the current one after a
    /// lost race — if and only if the page is a live leaf. When the chain's
    /// deltas exceed `PAGE_CONSOLIDATION_THRESHOLD`, the chain is folded
    /// into one fresh base with the same reads, the same key-range bounds,
    /// and the same sibling link, bounding read amplification.
    #[verifier::loop_isolation(false)]
    pub fn link(&mut self, pid: u64, old_ptr: PagePtr, frag: Frag, guard: &Guard) -> (r: Result<
        Result<PagePtr, PagePtr>,
        Error,
    >)
        requires
            old(self).wf(),
            old(self).epochs.holds(*guard),
            old(self).headroom(2),
            frag is Insert || frag is Remove,
        ensures
            final(self).wf(),
            final(self).meta@ == old(self).meta@,
            final(self).config == old(self).config,
            final(self).epochs.pinned@ == old(self).epochs.pinned@,
            final(self).table@.len() == old(self).table@.len(),
            old(self).log.segments@.len() <= final(self).log.segments@.len() <= old(
                self,
            ).log.segments@.len() + 2,
            r is Err <==> !old(self).linkable(pid),
            match r {
                Result::Err(e) => {
                    &&& e is ReportableBug
                    &&& *final(self) == *old(self)
                },
                Result::Ok(inner) => {
                    &&& 2 <= pid < old(self).table@.len()
                    &&& old(self).table@[pid as int] matches PageState::Live { ptr_loc, entries }
                    &&& match inner {
                        Result::Err(cur) => {
                            &&& cur.loc == ptr_loc
                            &&& ptr_loc != old_ptr.loc
                            &&& *final(self) == *old(self)
                        },
                        Result::Ok(new_ptr) => {
                            &&& ptr_loc == old_ptr.loc
                            &&& new_ptr.loc == old(self).next_ptr_loc
                            &&& final(self).next_ptr_loc == old(self).next_ptr_loc + 1
                            &&& (final(self).table@[pid as int] matches PageState::Live {
                                ptr_loc: nl,
                                entries: ne,
                            } && nl == new_ptr.loc && (forall|q: Seq<u8>| #[trigger] chain_get(
                                frags_of(ne@),
                                q,
                            ) == chain_get(seq![frag] + frags_of(entries@), q)) && (entries@.len()
                                > PAGE_CONSOLIDATION_THRESHOLD ==> ne@.len() == 1 && frags_of(
                                ne@,
                            )[0] is Base && ({
                                let folded = base_node(frags_of(ne@)[0]);
                                let base = base_node(frags_of(entries@).last());
                                &&& folded.lo@ == base.lo@
                                &&& folded.hi@ == base.hi@
                                &&& folded.next == base.next
                                &&& folded.merging_child == base.merging_child
                                &&& folded.merging == base.merging
                            })) && (entries@.len() <= PAGE_CONSOLIDATION_THRESHOLD
                                ==> frags_of(ne@) == seq![frag] + frags_of(entries@)))
                            &&& forall|q: int|
                                0 <= q < old(self).table@.len() && q != pid
                                    ==> final(self).table@[q] == old(self).table@[q]
                            &&& final(self).epochs.current == old(self).epochs.current + 1
                            // the accounting effect: the delta record is
                            // framed; a fold supersedes the whole grown
                            // chain and frames the fresh base
                            &&& ({
                                let payload = clamp_u64(spec_frag_payload(frag)) as int;
                                let dbytes = spec_record_size(
                                    old(self).config.segment_size as int,
                                    payload,
                                );
                                let dblob = spec_blob_size(
                                    old(self).config.segment_size as int,
                                    payload,
                                );
                                &&& (entries@.len() <= PAGE_CONSOLIDATION_THRESHOLD
                                    ==> crate::segment::record_written(
                                    old(self).log,
                                    final(self).log,
                                    dbytes,
                                    dblob,
                                ))
                                &&& (entries@.len() > PAGE_CONSOLIDATION_THRESHOLD
                                    ==> (final(self).table@[pid as int] matches PageState::Live {
                                    entries: ne2,
                                    ..
                                }
                                    && ({
                                    let bpayload = clamp_u64(
                                        spec_frag_payload(frags_of(ne2@)[0]),
                                    ) as int;
                                    let bbytes = spec_record_size(
                                        old(self).config.segment_size as int,
                                        bpayload,
                                    );
                                    let bblob = spec_blob_size(
                                        old(self).config.segment_size as int,
                                        bpayload,
                                    );
                                    exists|
                                        mid1: SegmentAllocator,
                                        mid2: SegmentAllocator,
                                        e: CacheEntry,
                                    |
                                        {
                                            &&& crate::segment::record_written(
                                                old(self).log,
                                                mid1,
                                                dbytes,
                                                dblob,
                                            )
                                            &&& e.frag == frag
                                            &&& e.bytes == dbytes
                                            &&& e.blob_bytes == dblob
                                            &&& #[trigger] chain_marked_dead(
                                                mid1,
                                                mid2,
                                                seq![e] + entries@,
                                            )
                                            &&& crate::segment::record_written(
                                                mid2,
                                                final(self).log,
                                                bbytes,
                                                bblob,
                                            )
                                        }
                                })))
                            })
                        },
                    }
                },
            },
    {
        if pid < 2 || pid >= self.table.len() as u64 {
            return Result::Err(Error::ReportableBug);
        }
        let pidus = pid as usize;
        let (is_live, cur_loc, base_is_leaf): (bool, u64, bool) = match &self.table[pidus] {
            PageState::Live { ptr_loc, entries } => {
                let leaf = match &entries[entries.len() - 1].frag {
                    Frag::Base(n) => match &n.data {
                        Data::Leaf(_) => true,
                        Data::Index(_) => false,
                    },
                    _ => false,
                };
                (true, *ptr_loc, leaf)
            },
            _ => (false, 0, false),
        };
        if !is_live || !base_is_leaf {
            return Result::Err(Error::ReportableBug);
        }
        if cur_loc != old_ptr.loc {
            return Result::Ok(Result::Err(PagePtr { loc: cur_loc }));
        }
        // write the delta record
        let (bytes, blob) = record_size(self.config.segment_size, &frag);
        let seg = self.log.reserve(bytes);
        let ghost log_mid = self.log;
        if blob > 0 {
            self.log.blob_written(blob);
        }
        let ghost log_after_delta = self.log;
        proof {
            assert(crate::segment::reserved_one(old(self).log, log_mid, seg as int, bytes as int));
            assert(self.log == (SegmentAllocator {
                blob_live: if log_mid.blob_live + blob <= u64::MAX {
                    (log_mid.blob_live + blob) as u64
                } else {
                    u64::MAX
                },
                ..log_mid
            }));
            assert(crate::segment::record_written(
                old(self).log,
                log_after_delta,
                bytes as int,
                blob as int,
            ));
        }
        let ghost the_frag = frag;
        let new_entry = CacheEntry { frag, seg, bytes, blob_bytes: blob };
        let slot = crate::util::vec_take(&mut self.table, pidus, PageState::Free);
        let mut entries: Vec<CacheEntry> = match slot {
            PageState::Live { entries, .. } => entries,
            _ => {
                proof {
                    assert(false);
                }
                Vec::new()
            },
        };
        let ghost old_entries = entries@;
        entries.insert(0, new_entry);
        proof {
            assert(frags_of(entries@) =~= seq![the_frag] + frags_of(old_entries));
            assert(chain_wf(frags_of(old_entries)));
            assert(frags_of(entries@).last() == frags_of(old_entries).last());
            assert(base_node(frags_of(old_entries).last()).data is Leaf);
            assert forall|i: int| 0 <= i < frags_of(entries@).len() - 1 implies !((
            #[trigger] frags_of(entries@)[i]) is Base) by {
                if i > 0 {
                    assert(frags_of(entries@)[i] == frags_of(old_entries)[i - 1]);
                }
            }
            assert(chain_wf(frags_of(entries@)));
        }
        if entries.len() > PAGE_CONSOLIDATION_THRESHOLD + 1 {
            // the chain grew past the threshold: fold it into a fresh base
            let ghost pre_fold = entries@;
            let ghost log0 = self.log;
            let ghost table0 = self.table@;
            let mut j: usize = 0;
            let n_entries = entries.len();
            proof {
                assert(pre_fold.subrange(0, 0) =~= Seq::<CacheEntry>::empty());
            }
            loop
                invariant
                    j <= n_entries,
                    entries@ == pre_fold,
                    self.log.wf(),
                    self.log.segment_size == log0.segment_size,
                    self.log.segments@.len() == log0.segments@.len(),
                    self.log.current == log0.current,
                    self.log.blob_live <= log0.blob_live,
                    self.table@ == table0,
                    self.meta@ == old(self).meta@,
                    self.epochs == old(self).epochs,
                    self.next_ptr_loc == old(self).next_ptr_loc,
                    self.config == old(self).config,
                    chain_marked_dead(log0, self.log, pre_fold.subrange(0, j as int)),
                decreases n_entries - j,
            {
                if j == n_entries {
                    break;
                }
                let ghost log_pre = self.log;
                self.log.mark_dead(entries[j].seg, entries[j].bytes);
                if entries[j].blob_bytes > 0 {
                    self.log.blob_dead(entries[j].blob_bytes);
                }
                proof {
                    assert(one_marked_dead(log_pre, self.log, pre_fold[j as int]));
                    lemma_chain_marked_dead_snoc(
                        log0,
                        log_pre,
                        self.log,
                        pre_fold.subrange(0, j as int),
                        pre_fold[j as int],
                    );
                    assert(pre_fold.subrange(0, j + 1) =~= pre_fold.subrange(0, j as int).push(
                        pre_fold[j as int],
                    ));
                }
                j += 1;
            }
            let ghost log_dead = self.log;
            proof {
                assert(pre_fold.subrange(0, n_entries as int) =~= pre_fold);
                assert(pre_fold =~= seq![pre_fold[0]] + old_entries);
                assert(chain_marked_dead(log0, log_dead, seq![pre_fold[0]] + old_entries));
                assert(pre_fold[0].frag == the_frag);
                assert(pre_fold[0].bytes == bytes);
                assert(pre_fold[0].blob_bytes == blob);
            }
            let folded = fold_chain(&entries);
            let ffrag = Frag::Base(folded);
            let (b2, blob2) = record_size(self.config.segment_size, &ffrag);
            let seg2 = self.log.reserve(b2);
            let ghost log_mid2 = self.log;
            if blob2 > 0 {
                self.log.blob_written(blob2);
            }
            proof {
                assert(crate::segment::reserved_one(log_dead, log_mid2, seg2 as int, b2 as int));
                assert(self.log == (SegmentAllocator {
                    blob_live: if log_mid2.blob_live + blob2 <= u64::MAX {
                        (log_mid2.blob_live + blob2) as u64
                    } else {
                        u64::MAX
                    },
                    ..log_mid2
                }));
                assert(crate::segment::record_written(log_dead, self.log, b2 as int, blob2 as int));
            }
            let mut folded_entries: Vec<CacheEntry> = Vec::new();
            folded_entries.push(CacheEntry { frag: ffrag, seg: seg2, bytes: b2, blob_bytes: blob2 });
            proof {
                assert(frags_of(folded_entries@) =~= seq![frags_of(folded_entries@)[0]]);
            }
            entries = folded_entries;
        }
        let new_loc = self.next_ptr_loc;
        vec_set(&mut self.table, pidus, PageState::Live { ptr_loc: new_loc, entries });
        self.next_ptr_loc = self.next_ptr_loc + 1;
        self.epochs.advance();
        proof {
            assert forall|i: int| 0 <= i < self.table@.len() implies slot_wf(
                #[trigger] self.table@[i],
                self.log.segments@.len() as int,
                self.next_ptr_loc,
            ) by {
                assert(slot_wf(
                    old(self).table@[i],
                    old(self).log.segments@.len() as int,
                    old(self).next_ptr_loc,
                ));
                if i != pid as int {
                    assert(self.table@[i] == old(self).table@[i]);
                }
            }
        }
        Result::Ok(Result::Ok(PagePtr { loc: new_loc }))
    }
}


impl PageCache {
    /// The current pointer of a live page: what a compare-and-swap must
    /// present to win.
    pub fn page_ptr(&self, pid: u64, guard: &Guard) -> (r: Result<PagePtr, Error>)
        requires
            self.wf(),
            self.epochs.holds(*guard),
        ensures
            match r {
                Result::Ok(p) => self.table@[pid as int] matches PageState::Live { ptr_loc, .. }
                    && p.loc == ptr_loc && 2 <= pid < self.table@.len(),
                Result::Err(e) => e is ReportableBug && (pid < 2 || pid >= self.table@.len() || !(
                self.table@[pid as int] is Live)),
            },
    {
        if pid < 2 || pid >= self.table.len() as u64 {
            return Result::Err(Error::ReportableBug);
        }
        match &self.table[pid as usize] {
            PageState::Live { ptr_loc, .. } => Result::Ok(PagePtr { loc: *ptr_loc }),
            _ => Result::Err(Error::ReportableBug),
        }
    }

    /// Read one key through a live page's fragment chain: exactly what
    /// `chain_get` defines, whether or not the chain has been folded.
    #[verifier::loop_isolation(false)]
    pub fn page_get(&self, pid: u64, key: &Vec<u8>, guard: &Guard) -> (r: Result<
        Option<Vec<u8>>,
        Error,
    >)
        requires
            self.wf(),
            self.epochs.holds(*guard),
        ensures
            match r {
                Result::Ok(o) => self.table@[pid as int] matches PageState::Live {
                    entries,
                    ..
                } && (match o {
                    Option::Some(v) => chain_get(frags_of(entries@), key@) == Option::Some(v@),
                    Option::None => chain_get(frags_of(entries@), key@) is None,
                }),
                Result::Err(e) => e is ReportableBug && (pid < 2 || pid >= self.table@.len() || !(
                self.table@[pid as int] is Live)),
            },
    {
        if pid < 2 || pid >= self.table.len() as u64 {
            return Result::Err(Error::ReportableBug);
        }
        let pidus = pid as usize;
        let n: usize = match &self.table[pidus] {
            PageState::Live { entries, .. } => entries.len(),
            _ => {
                return Result::Err(Error::ReportableBug);
            },
        };
        let ghost frags = match self.table@[pid as int] {
            PageState::Live { entries, .. } => frags_of(entries@),
            _ => arbitrary(),
        };
        proof {
            assert(chain_wf(frags));
            assert(frags.subrange(0, n as int) =~= frags);
        }
        let mut j: usize = 0;
        loop
            invariant
                j < n,
                chain_get(frags, key@) == chain_get(frags.subrange(j as int, n as int), key@),
            decreases n - j,
        {
            proof {
                assert(frags.subrange(j as int, n as int)[0] == frags[j as int]);
                assert(frags.subrange(j as int, n as int).drop_first() =~= frags.subrange(
                    j + 1,
                    n as int,
                ));
            }
            let step: Option<Option<Vec<u8>>> = match &self.table[pidus] {
                PageState::Live { entries, .. } => {
                    match &entries[j].frag {
                        Frag::Insert(k, v) => {
                            if bytes_eq(k, key) {
                                Option::Some(Option::Some(copy_bytes(v)))
                            } else {
                                Option::None
                            }
                        },
                        Frag::Remove(k) => {
                            if bytes_eq(k, key) {
                                Option::Some(Option::None)
                            } else {
                                Option::None
                            }
                        },
                        Frag::Base(node) => {
                            match &node.data {
                                Data::Leaf(es) => {
                                    match entries_find(es, key) {
                                        Option::Some(i) => {
                                            proof {
                                                crate::node::lemma_entries_get_at(
                                                    leaf_view(es@),
                                                    i as int,
                                                );
                                            }
                                            Option::Some(
                                                Option::Some(copy_bytes(&es[i].1)),
                                            )
                                        },
                                        Option::None => {
                                            proof {
                                                crate::node::lemma_entries_get_none(
                                                    leaf_view(es@),
                                                    key@,
                                                );
                                            }
                                            Option::Some(Option::None)
                                        },
                                    }
                                },
                                Data::Index(_) => Option::Some(Option::None),
                            }
                        },
                    }
                },
                _ => Option::None,
            };
            match step {
                Option::Some(out) => {
                    return Result::Ok(out);
                },
                Option::None => {},
            }
            j += 1;
            proof {
                if j == n {
                    assert(false);
                }
            }
        }
    }

    /// True when `pid` is a live page whose base is an index with an
    /// `i`-th entry: the inputs on which `index_child` must answer.
    pub open spec fn index_child_ok(self, pid: u64, i: usize) -> bool {
        &&& 2 <= pid < self.table@.len()
        &&& (self.table@[pid as int] matches PageState::Live { entries, .. } && (base_node(
            frags_of(entries@).last(),
        ).data matches Data::Index(es) && i < es@.len()))
    }

    /// The child page id one index entry of a live index page points to.
    /// Answers if and only if the page is live, its base is an index, and
    /// the entry exists.
    pub fn index_child(&self, pid: u64, i: usize, guard: &Guard) -> (r: Result<u64, Error>)
        requires
            self.wf(),
            self.epochs.holds(*guard),
        ensures
            r is Ok <==> self.index_child_ok(pid, i),
            match r {
                Result::Ok(child) => self.table@[pid as int] matches PageState::Live {
                    entries,
                    ..
                } && base_node(frags_of(entries@).last()).data matches Data::Index(es) && i
                    < es@.len() && child == es@[i as int].1,
                Result::Err(e) => e is ReportableBug,
            },
    {
        if pid < 2 || pid >= self.table.len() as u64 {
            return Result::Err(Error::ReportableBug);
        }
        match &self.table[pid as usize] {
            PageState::Live { entries, .. } => {
                let last = entries.len() - 1;
                proof {
                    assert(chain_wf(frags_of(entries@)));
                    assert(frags_of(entries@)[last as int] == entries@[last as int].frag);
                }
                match &entries[last].frag {
                    Frag::Base(node) => match &node.data {
                        Data::Index(es) => {
                            if i < es.len() {
                                Result::Ok(es[i].1)
                            } else {
                                Result::Err(Error::ReportableBug)
                            }
                        },
                        _ => Result::Err(Error::ReportableBug),
                    },
                    _ => Result::Err(Error::ReportableBug),
                }
            },
            _ => Result::Err(Error::ReportableBug),
        }
    }

    /// Total on-disk footprint: all segments at their full size, plus live
    /// blob bytes.
    pub fn on_disk_size(&self) -> (r: u64)
        requires
            self.wf(),
            self.log.segments@.len() * self.log.segment_size + self.log.blob_live <= u64::MAX,
        ensures
            r == self.log.segments@.len() * self.log.segment_size + self.log.blob_live,
    {
        self.log.on_disk_size()
    }

    /// Make everything written so far durable, and reclaim whatever space
    /// no live guard can still reach.
    pub fn flush(&mut self)
        requires
            old(self).wf(),
            old(self).epochs.current < u64::MAX,
        ensures
            final(self).wf(),
            final(self).meta@ == old(self).meta@,
            final(self).table@ == old(self).table@,
            final(self).config == old(self).config,
            final(self).epochs.pinned@ == old(self).epochs.pinned@,
            final(self).epochs.current == old(self).epochs.current + 1,
            final(self).next_ptr_loc == old(self).next_ptr_loc,
            final(self).log.segments@.len() == old(self).log.segments@.len(),
            // one reaper sweep runs at the new epoch under the live guards'
            // horizon: dead sealed segments retire, safe retired ones free
            exists|oldest: Option<u64>|
                #[trigger] crate::segment::oldest_valid(final(self).epochs.pinned@, oldest)
                    && crate::segment::reaped(
                    old(self).log,
                    final(self).log,
                    (old(self).epochs.current + 1) as u64,
                    oldest,
                ),
            // reclamation safety: a segment goes free only when no live
            // guard was pinned at or before its retirement
            forall|i: int|
                0 <= i < final(self).log.segments@.len() && !(old(self).log.segments@[i].state
                    is Free) && (#[trigger] final(self).log.segments@[i]).state is Free ==> (old(
                    self,
                ).log.segments@[i].state matches crate::segment::SegState::Retiring { epoch }
                    && final(self).epochs.no_guard_at_or_before(epoch)),
    {
        self.epochs.advance();
        let oldest = self.epochs.oldest_pinned();
        let now = self.epochs.current;
        self.log.reap(now, oldest, &self.epochs);
        proof {
            assert(crate::segment::oldest_valid(self.epochs.pinned@, oldest));
            assert(crate::segment::reaped(old(self).log, self.log, now, oldest));
        }
        proof {
            assert forall|i: int| 0 <= i < self.table@.len() implies slot_wf(
                #[trigger] self.table@[i],
                self.log.segments@.len() as int,
                self.next_ptr_loc,
            ) by {
                assert(slot_wf(
                    old(self).table@[i],
                    old(self).log.segments@.len() as int,
                    old(self).next_ptr_loc,
                ));
            }
        }
    }
}


impl PageCache {
    /// Relocate a live page: every record of its chain is rewritten into
    /// fresh segment space and the old copies become dead. This is how a
    /// compaction candidate is drained of its survivors so it can be
    /// reclaimed; reclamation never touches a page that has not been
    /// migrated. The chain's fragments — and so every read — are
    /// unchanged; the page gets a fresh current pointer.
    #[verifier::loop_isolation(false)]
    pub fn rewrite_page(&mut self, pid: u64, guard: &Guard) -> (r: Result<PagePtr, Error>)
        requires
            old(self).wf(),
            old(self).epochs.holds(*guard),
            old(self).epochs.current < u64::MAX,
            old(self).next_ptr_loc < u64::MAX,
            old(self).table@[pid as int] matches PageState::Live { entries, .. } ==> old(
                self,
            ).log.segments@.len() + entries@.len() <= SEG_COUNT_LIMIT,
        ensures
            final(self).wf(),
            final(self).meta@ == old(self).meta@,
            final(self).config == old(self).config,
            final(self).epochs.pinned@ == old(self).epochs.pinned@,
            final(self).table@.len() == old(self).table@.len(),
            match r {
                Result::Err(e) => {
                    &&& e is ReportableBug
                    &&& (pid < 2 || pid >= old(self).table@.len() || !(old(
                        self,
                    ).table@[pid as int] is Live))
                    &&& *final(self) == *old(self)
                },
                Result::Ok(p) => {
                    &&& old(self).table@[pid as int] matches PageState::Live { ptr_loc, entries }
                    &&& p.loc == old(self).next_ptr_loc
                    &&& final(self).next_ptr_loc == old(self).next_ptr_loc + 1
                    &&& (final(self).table@[pid as int] matches PageState::Live {
                        ptr_loc: nl,
                        entries: ne,
                    } && nl == p.loc && frags_of(ne@) == frags_of(entries@))
                    &&& forall|q: int|
                        0 <= q < old(self).table@.len() && q != pid
                            ==> final(self).table@[q] == old(self).table@[q]
                    &&& final(self).epochs.current == old(self).epochs.current + 1
                    // every record is superseded and rewritten, then one
                    // reaper sweep runs
                    &&& (final(self).table@[pid as int] matches PageState::Live {
                        entries: ne2,
                        ..
                    } && exists|mid: SegmentAllocator, oldest: Option<u64>|
                        chain_migrated(old(self).log, mid, entries@, ne2@)
                            && crate::segment::oldest_valid(final(self).epochs.pinned@, oldest)
                            && #[trigger] crate::segment::reaped(
                            mid,
                            final(self).log,
                            (old(self).epochs.current + 1) as u64,
                            oldest,
                        ))
                },
            },
    {
        if pid < 2 || pid >= self.table.len() as u64 {
            return Result::Err(Error::ReportableBug);
        }
        let pidus = pid as usize;
        let is_live = match &self.table[pidus] {
            PageState::Live { .. } => true,
            _ => false,
        };
        if !is_live {
            return Result::Err(Error::ReportableBug);
        }
        let slot = crate::util::vec_take(&mut self.table, pidus, PageState::Free);
        let mut entries: Vec<CacheEntry> = match slot {
            PageState::Live { entries, .. } => entries,
            _ => {
                proof {
                    assert(false);
                }
                Vec::new()
            },
        };
        let ghost old_entries = entries@;
        let ghost log0 = self.log;
        let n = entries.len();
        let mut j: usize = 0;
        proof {
            assert(old_entries.subrange(0, 0) =~= Seq::<CacheEntry>::empty());
            assert(entries@.subrange(0, 0) =~= Seq::<CacheEntry>::empty());
        }
        loop
            invariant
                j <= n,
                entries@.len() == n,
                forall|k: int| 0 <= k < n ==> (#[trigger] entries@[k]).frag == old_entries[k].frag,
                forall|k: int| j <= k < n ==> (#[trigger] entries@[k]) == old_entries[k],
                forall|k: int| 0 <= k < n ==> (#[trigger] entries@[k]).seg
                    < self.log.segments@.len(),
                self.log.wf(),
                self.log.segment_size == log0.segment_size,
                log0.segments@.len() <= self.log.segments@.len() <= log0.segments@.len() + j,
                chain_migrated(
                    log0,
                    self.log,
                    old_entries.subrange(0, j as int),
                    entries@.subrange(0, j as int),
                ),
                self.table@ == old(self).table@.update(pid as int, PageState::Free),
                self.meta@ == old(self).meta@,
                self.epochs == old(self).epochs,
                self.next_ptr_loc == old(self).next_ptr_loc,
                self.config == old(self).config,
            decreases n - j,
        {
            if j == n {
                break;
            }
            // recompute the record's framing, retire the old copy, and
            // account a fresh one
            let ghost news_pre = entries@.subrange(0, j as int);
            let ghost lp = self.log;
            let (bytes2, blob2) = record_size(self.config.segment_size, &entries[j].frag);
            self.log.mark_dead(entries[j].seg, entries[j].bytes);
            if entries[j].blob_bytes > 0 {
                self.log.blob_dead(entries[j].blob_bytes);
            }
            let ghost lm = self.log;
            let nseg = self.log.reserve(bytes2);
            let ghost lr = self.log;
            if blob2 > 0 {
                self.log.blob_written(blob2);
            }
            proof {
                assert(one_marked_dead(lp, lm, old_entries[j as int]));
                assert(crate::segment::reserved_one(lm, lr, nseg as int, bytes2 as int));
                assert(self.log == (SegmentAllocator {
                    blob_live: if lr.blob_live + blob2 <= u64::MAX {
                        (lr.blob_live + blob2) as u64
                    } else {
                        u64::MAX
                    },
                    ..lr
                }));
                assert(crate::segment::record_written(lm, self.log, bytes2 as int, blob2 as int));
            }
            let hole = CacheEntry {
                frag: Frag::Remove(Vec::new()),
                seg: 0,
                bytes: 0,
                blob_bytes: 0,
            };
            let e = crate::util::vec_take(&mut entries, j, hole);
            vec_set(
                &mut entries,
                j,
                CacheEntry { frag: e.frag, seg: nseg, bytes: bytes2, blob_bytes: blob2 },
            );
            proof {
                assert(entries@[j as int].bytes == bytes2 && entries@[j as int].blob_bytes
                    == blob2);
                assert(one_migrated(lp, self.log, old_entries[j as int], entries@[j as int]));
                assert(entries@.subrange(0, j as int) =~= news_pre);
                lemma_chain_migrated_snoc(
                    log0,
                    lp,
                    self.log,
                    old_entries.subrange(0, j as int),
                    news_pre,
                    old_entries[j as int],
                    entries@[j as int],
                );
                assert(old_entries.subrange(0, j + 1) =~= old_entries.subrange(0, j as int).push(
                    old_entries[j as int],
                ));
                assert(entries@.subrange(0, j + 1) =~= entries@.subrange(0, j as int).push(
                    entries@[j as int],
                ));
            }
            j += 1;
        }
        proof {
            assert(frags_of(entries@) =~= frags_of(old_entries));
            assert(old_entries.subrange(0, n as int) =~= old_entries);
            assert(entries@.subrange(0, n as int) =~= entries@);
        }
        let ghost log_migr = self.log;
        let ghost final_entries = entries@;
        let new_loc = self.next_ptr_loc;
        vec_set(&mut self.table, pidus, PageState::Live { ptr_loc: new_loc, entries });
        self.next_ptr_loc = self.next_ptr_loc + 1;
        self.epochs.advance();
        let oldest = self.epochs.oldest_pinned();
        let now = self.epochs.current;
        self.log.reap(now, oldest, &self.epochs);
        proof {
            assert(chain_migrated(old(self).log, log_migr, old_entries, final_entries));
            assert(crate::segment::oldest_valid(self.epochs.pinned@, oldest));
            assert(crate::segment::reaped(
                log_migr,
                self.log,
                (old(self).epochs.current + 1) as u64,
                oldest,
            ));
            assert forall|i: int| 0 <= i < self.table@.len() implies slot_wf(
                #[trigger] self.table@[i],
                self.log.segments@.len() as int,
                self.next_ptr_loc,
            ) by {
                assert(slot_wf(
                    old(self).table@[i],
                    old(self).log.segments@.len() as int,
                    old(self).next_ptr_loc,
                ));
                if i != pid as int {
                    assert(self.table@[i] == old(self).table@[i]);
                }
            }
        }
        Result::Ok(PagePtr { loc: new_loc })
    }
}


impl PageCache {
    /// Open a store from an on-disk log image. The store starts from the
    /// last verified consistent point: exactly the records recovery
    /// accepts come back, so a log torn mid-record opens with the same
    /// records — and so the same logical state — as if the torn record had
    /// never been written. The accepted records are handed to the owner to
    /// replay: their payloads are opaque bytes at this layer, while live
    /// pages hold structured fragments, so what each record means to a
    /// page is the replayer's decision.
    pub fn start_from_log(config: Config, buf: &Vec<u8>) -> (r: (
        PageCache,
        Vec<crate::logfmt::LogRecord>,
    ))
        requires
            config.wf(),
        ensures
            r.0.wf(),
            r.0.config == config,
            r.0.meta@.len() == 0,
            r.0.table@.len() == 2,
            r.0.epochs.current == 0,
            r.0.epochs.pinned@.len() == 0,
            r.0.log.segments@.len() == 1,
            r.0.log.blob_live == 0,
            r.0.headroom(8),
            r.1@.map_values(|x: crate::logfmt::LogRecord| x@) == crate::logfmt::spec_recover(
                buf@,
            ),
    {
        let pc = PageCache::start(config);
        let records = crate::logfmt::recover(buf);
        (pc, records)
    }
}

/// Once a root install linearizes, it is the one truth: after a successful
/// compare-and-swap of `name` to `new`, every lookup of `name` against the
/// resulting directory yields `new`, and, unless `new` equals the replaced
/// value, no lookup yields the replaced value. A guard pinned strictly
/// after the swap reads the resulting directory, so it observes `new` and
/// never the old root.
pub proof fn lemma_cas_root_visibility(
    pre: Seq<(Vec<u8>, u64)>,
    post: Seq<(Vec<u8>, u64)>,
    name: Seq<u8>,
    expected: Option<u64>,
    new: Option<u64>,
)
    requires
        meta_get(pre, name) == expected,
        forall|q: Seq<u8>| #[trigger] meta_get(post, q) == (if q == name {
            new
        } else {
            meta_get(pre, q)
        }),
    ensures
        meta_get(post, name) == new,
        new != expected ==> meta_get(post, name) != expected,
        forall|q: Seq<u8>| q != name ==> #[trigger] meta_get(post, q) == meta_get(pre, q),
{
}

} // verus!
