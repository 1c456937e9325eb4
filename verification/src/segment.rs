//! The segment allocator: append-only accounting for the on-disk log.
//!
//! Records are appended into fixed-size segments. Each segment tracks how
//! many bytes it holds (`used`) and how many of those still back the current
//! version of some page (`live`). A sealed segment whose live count has
//! dropped to zero is retired at the then-current epoch, and becomes free
//! for reuse only once no guard pinned at or before that epoch remains.

use vstd::prelude::*;
use crate::constants::SEG_HEADER_LEN;
use crate::epoch::EpochTracker;
use crate::util::vec_set;

verus! {

/// Upper bound on a configurable segment size (16 MiB). A machine limit:
/// it keeps all byte accounting comfortably inside fixed-width integers.
pub const SEGMENT_SIZE_LIMIT: usize = 16777216;

/// Upper bound on how many segments the log may hold, a machine limit for
/// the same reason.
pub const SEG_COUNT_LIMIT: usize = 268435456;

/// Where a segment stands in its life cycle.
pub enum SegState {
    /// The segment currently being appended to.
    Active,
    /// Full; no further appends, but some records may still be live.
    Sealed,
    /// Sealed with no live records; waiting for guards pinned at or before
    /// `epoch` to be released.
    Retiring { epoch: u64 },
    /// Reusable: nothing in it can still be referenced.
    Free,
}

/// One fixed-size append-only region of the log.
pub struct Segment {
    pub used: usize,
    pub live: usize,
    pub state: SegState,
}

/// The allocator that hands out segment space and recycles dead segments.
pub struct SegmentAllocator {
    pub segment_size: usize,
    pub segments: Vec<Segment>,
    /// Index of the one active segment.
    pub current: usize,
    /// Total bytes of live out-of-line blob payloads.
    pub blob_live: u64,
}

impl Segment {
    /// Byte accounting a segment must satisfy.
    pub open spec fn wf(self, segment_size: int) -> bool {
        match self.state {
            SegState::Free => self.used == 0 && self.live == 0,
            _ => {
                &&& SEG_HEADER_LEN <= self.used <= segment_size
                &&& self.live <= self.used - SEG_HEADER_LEN
            },
        }
    }
}

/// How one sweep of the reaper moves a single segment along its life cycle:
/// a dead sealed segment starts retiring at epoch `now`; a retiring segment
/// becomes free once no guard from at or before its retirement epoch can be
/// live, which `oldest` (the earliest pinned epoch, `None` when no guard is
/// live) decides.
pub open spec fn reap_step(o: Segment, now: u64, oldest: Option<u64>) -> Segment {
    match o.state {
        SegState::Sealed => if o.live == 0 {
            (Segment { used: o.used, live: 0, state: SegState::Retiring { epoch: now } })
        } else {
            o
        },
        SegState::Retiring { epoch } => match oldest {
            Option::Some(m) => if epoch < m {
                (Segment { used: 0, live: 0, state: SegState::Free })
            } else {
                o
            },
            Option::None => (Segment { used: 0, live: 0, state: SegState::Free }),
        },
        _ => o,
    }
}


/// `oldest` is the epoch of the earliest-pinned guard of `pinned`, or
/// `None` when no guard is pinned.
pub open spec fn oldest_valid(pinned: Seq<u64>, oldest: Option<u64>) -> bool {
    match oldest {
        Option::None => pinned.len() == 0,
        Option::Some(m) => pinned.contains(m) && forall|i: int|
            0 <= i < pinned.len() ==> m <= pinned[i],
    }
}

/// One whole reaper sweep at epoch `now` under reclamation horizon
/// `oldest`: every segment moves by exactly `reap_step`, and nothing else
/// about the allocator changes.
pub open spec fn reaped(
    pre: SegmentAllocator,
    post: SegmentAllocator,
    now: u64,
    oldest: Option<u64>,
) -> bool {
    &&& post.segment_size == pre.segment_size
    &&& post.current == pre.current
    &&& post.blob_live == pre.blob_live
    &&& post.segments@.len() == pre.segments@.len()
    &&& forall|i: int|
        0 <= i < pre.segments@.len() ==> post.segments@[i] == reap_step(
            #[trigger] pre.segments@[i],
            now,
            oldest,
        )
}


/// The effect of `reserve`: the record's bytes land in the now-active
/// segment `seg`; when the record moved to a new segment, the previously
/// active one is sealed with its accounting intact and `seg` was free or
/// fresh; every other segment is untouched.
pub open spec fn reserved_one(
    pre: SegmentAllocator,
    post: SegmentAllocator,
    seg: int,
    bytes: int,
) -> bool {
    &&& post.segment_size == pre.segment_size
    &&& post.blob_live == pre.blob_live
    &&& seg == post.current
    &&& 0 <= seg < post.segments@.len()
    &&& pre.segments@.len() <= post.segments@.len() <= pre.segments@.len() + 1
    &&& post.segments@[seg].state is Active
    &&& forall|i: int|
        0 <= i < pre.segments@.len() && i != seg && i != pre.current
            ==> post.segments@[i] == pre.segments@[i]
    &&& (seg == pre.current ==> post.segments@ == pre.segments@.update(
        seg,
        (Segment {
            used: (pre.segments@[seg].used + bytes) as usize,
            live: (pre.segments@[seg].live + bytes) as usize,
            state: SegState::Active,
        }),
    ))
    &&& (seg != pre.current ==> {
        &&& post.segments@[pre.current as int].state is Sealed
        &&& post.segments@[pre.current as int].used == pre.segments@[pre.current as int].used
        &&& post.segments@[pre.current as int].live == pre.segments@[pre.current as int].live
        &&& post.segments@[seg].used == SEG_HEADER_LEN + bytes
        &&& post.segments@[seg].live == bytes
        &&& (seg < pre.segments@.len() ==> pre.segments@[seg].state is Free)
    })
}

/// The effect of framing one record: `bytes` reserved in exactly one
/// segment, and `blob` out-of-line bytes added to the blob account
/// (saturating).
pub open spec fn record_written(
    pre: SegmentAllocator,
    post: SegmentAllocator,
    bytes: int,
    blob: int,
) -> bool {
    exists|seg: int, mid: SegmentAllocator|
        #[trigger] reserved_one(pre, mid, seg, bytes) && post == (SegmentAllocator {
            blob_live: if mid.blob_live + blob <= u64::MAX {
                (mid.blob_live + blob) as u64
            } else {
                u64::MAX
            },
            ..mid
        })
}


/// Framing one record grows the log by at most one segment and the blob
/// account by at most the payload.
pub proof fn lemma_record_written_growth(
    pre: SegmentAllocator,
    post: SegmentAllocator,
    bytes: int,
    blob: int,
)
    requires
        record_written(pre, post, bytes, blob),
        0 <= blob,
    ensures
        pre.segments@.len() <= post.segments@.len() <= pre.segments@.len() + 1,
        post.blob_live <= pre.blob_live + blob,
        post.segment_size == pre.segment_size,
        post.current < post.segments@.len(),
{
    let (seg, mid) = choose|seg: int, mid: SegmentAllocator|
        #[trigger] reserved_one(pre, mid, seg, bytes) && post == (SegmentAllocator {
            blob_live: if mid.blob_live + blob <= u64::MAX {
                (mid.blob_live + blob) as u64
            } else {
                u64::MAX
            },
            ..mid
        });
}

impl SegmentAllocator {
    pub open spec fn wf(self) -> bool {
        &&& SEG_HEADER_LEN + 4 * crate::constants::MAX_MSG_HEADER_LEN <= self.segment_size
            <= SEGMENT_SIZE_LIMIT
        &&& self.segments@.len() <= SEG_COUNT_LIMIT
        &&& self.current < self.segments@.len()
        &&& self.segments@[self.current as int].state is Active
        &&& forall|i: int|
            0 <= i < self.segments@.len() ==> (#[trigger] self.segments@[i]).wf(
                self.segment_size as int,
            )
        &&& forall|i: int|
            0 <= i < self.segments@.len() && i != self.current
                ==> !((#[trigger] self.segments@[i]).state is Active)
    }

    /// Bytes of one segment available for records.
    pub open spec fn spec_usable(self) -> int {
        self.segment_size - SEG_HEADER_LEN
    }

    /// Bytes of one segment available for records.
    pub fn usable(&self) -> (r: usize)
        requires
            self.wf(),
        ensures
            r == self.spec_usable(),
    {
        self.segment_size - SEG_HEADER_LEN
    }

    pub fn new(segment_size: usize) -> (r: SegmentAllocator)
        requires
            SEG_HEADER_LEN + 4 * crate::constants::MAX_MSG_HEADER_LEN <= segment_size
                <= SEGMENT_SIZE_LIMIT,
        ensures
            r.wf(),
            r.segment_size == segment_size,
            r.segments@.len() == 1,
            r.segments@[0].used == SEG_HEADER_LEN,
            r.segments@[0].live == 0,
            r.blob_live == 0,
    {
        let mut segments: Vec<Segment> = Vec::new();
        segments.push(Segment { used: SEG_HEADER_LEN, live: 0, state: SegState::Active });
        SegmentAllocator { segment_size, segments, current: 0, blob_live: 0 }
    }

    /// Account for one record of `bytes` bytes appended to the log, sealing
    /// the active segment and moving to a free or fresh one when the record
    /// does not fit. Returns the index of the segment the record went to.
    #[verifier::loop_isolation(false)]
    pub fn reserve(&mut self, bytes: usize) -> (seg: usize)
        requires
            old(self).wf(),
            0 < bytes <= old(self).spec_usable(),
            old(self).segments@.len() < SEG_COUNT_LIMIT,
        ensures
            final(self).wf(),
            final(self).segment_size == old(self).segment_size,
            final(self).blob_live == old(self).blob_live,
            seg == final(self).current,
            seg < final(self).segments@.len(),
            old(self).segments@.len() <= final(self).segments@.len() <= old(self).segments@.len() + 1,
            final(self).segments@[seg as int].state is Active,
            final(self).segments@[seg as int].live >= bytes,
            reserved_one(*old(self), *final(self), seg as int, bytes as int),
            // untouched segments keep their accounting
            forall|i: int|
                0 <= i < old(self).segments@.len() && i != seg && i != old(self).current
                    ==> final(self).segments@[i] == old(self).segments@[i],
            // either the record fit in the already-active segment ...
            (seg == old(self).current ==> final(self).segments@ == old(self).segments@.update(
                seg as int,
                (Segment {
                    used: (old(self).segments@[seg as int].used + bytes) as usize,
                    live: (old(self).segments@[seg as int].live + bytes) as usize,
                    state: SegState::Active,
                }),
            )),
            // ... or the old active segment was sealed and a free or fresh
            // one took its place
            (seg != old(self).current ==> {
                &&& final(self).segments@[old(self).current as int].state is Sealed
                &&& final(self).segments@[old(self).current as int].used == old(self).segments@[old(
                    self,
                ).current as int].used
                &&& final(self).segments@[old(self).current as int].live == old(self).segments@[old(
                    self,
                ).current as int].live
                &&& final(self).segments@[seg as int].used == SEG_HEADER_LEN + bytes
                &&& final(self).segments@[seg as int].live == bytes
                &&& (seg < old(self).segments@.len() ==> old(self).segments@[seg as int].state
                    is Free)
            }),
    {
        let cur = self.current;
        let cur_used = self.segments[cur].used;
        if cur_used + bytes <= self.segment_size {
            let live0 = self.segments[cur].live;
            vec_set(
                &mut self.segments,
                cur,
                Segment { used: cur_used + bytes, live: live0 + bytes, state: SegState::Active },
            );
            return cur;
        }
        // seal the active segment
        let live_cur = self.segments[cur].live;
        vec_set(
            &mut self.segments,
            cur,
            Segment { used: cur_used, live: live_cur, state: SegState::Sealed },
        );
        let ghost sealed_state = *self;
        // look for a free segment to recycle
        let n = self.segments.len();
        let mut i: usize = 0;
        loop
            invariant
                i <= n,
                *self == sealed_state,
            decreases n - i,
        {
            if i == n {
                break;
            }
            let is_free = match self.segments[i].state {
                SegState::Free => true,
                _ => false,
            };
            if is_free {
                vec_set(
                    &mut self.segments,
                    i,
                    Segment {
                        used: SEG_HEADER_LEN + bytes,
                        live: bytes,
                        state: SegState::Active,
                    },
                );
                self.current = i;
                return i;
            }
            i += 1;
        }
        // none free: append a fresh segment
        self.segments.push(
            Segment { used: SEG_HEADER_LEN + bytes, live: bytes, state: SegState::Active },
        );
        self.current = n;
        n
    }

    /// Account for `bytes` of a segment's records having been superseded.
    /// The live count never goes below zero; marking more bytes dead than
    /// are live leaves it at zero.
    pub fn mark_dead(&mut self, seg: usize, bytes: usize)
        requires
            old(self).wf(),
            seg < old(self).segments@.len(),
        ensures
            final(self).wf(),
            final(self).segment_size == old(self).segment_size,
            final(self).current == old(self).current,
            final(self).blob_live == old(self).blob_live,
            final(self).segments@ == old(self).segments@.update(
                seg as int,
                (Segment {
                    used: old(self).segments@[seg as int].used,
                    live: if bytes <= old(self).segments@[seg as int].live {
                        (old(self).segments@[seg as int].live - bytes) as usize
                    } else {
                        0
                    },
                    state: old(self).segments@[seg as int].state,
                }),
            ),
    {
        let live0 = self.segments[seg].live;
        let new_live = if bytes <= live0 {
            live0 - bytes
        } else {
            0
        };
        let used0 = self.segments[seg].used;
        let st = clone_state(&self.segments[seg].state);
        vec_set(&mut self.segments, seg, Segment { used: used0, live: new_live, state: st });
    }

    /// Account for an out-of-line blob of `bytes` bytes written. The count
    /// saturates at its maximum, a size no real store reaches.
    pub fn blob_written(&mut self, bytes: u64)
        requires
            old(self).wf(),
        ensures
            final(self).wf(),
            *final(self) == (SegmentAllocator {
                blob_live: if old(self).blob_live + bytes <= u64::MAX {
                    (old(self).blob_live + bytes) as u64
                } else {
                    u64::MAX
                },
                ..*old(self)
            }),
    {
        if bytes <= u64::MAX - self.blob_live {
            self.blob_live = self.blob_live + bytes;
        } else {
            self.blob_live = u64::MAX;
        }
    }

    /// Account for an out-of-line blob of `bytes` bytes superseded.
    pub fn blob_dead(&mut self, bytes: u64)
        requires
            old(self).wf(),
        ensures
            final(self).wf(),
            *final(self) == (SegmentAllocator {
                blob_live: if bytes <= old(self).blob_live {
                    (old(self).blob_live - bytes) as u64
                } else {
                    0
                },
                ..*old(self)
            }),
    {
        self.blob_live = if bytes <= self.blob_live {
            self.blob_live - bytes
        } else {
            0
        };
    }

    /// Retire sealed segments whose live count has dropped to zero, stamping
    /// them with the current epoch `now`, and free retired segments once no
    /// guard pinned at or before their retirement epoch remains live.
    ///
    /// `oldest` must be the epoch of the earliest-pinned live guard of
    /// `epochs`, or `None` when no guard is live, as
    /// `EpochTracker::oldest_pinned` gives it.
    #[verifier::loop_isolation(false)]
    pub fn reap(&mut self, now: u64, oldest: Option<u64>, epochs: &EpochTracker)
        requires
            old(self).wf(),
            match oldest {
                Option::None => epochs.pinned@.len() == 0,
                Option::Some(m) => forall|i: int|
                    0 <= i < epochs.pinned@.len() ==> m <= epochs.pinned@[i],
            },
        ensures
            final(self).wf(),
            final(self).segment_size == old(self).segment_size,
            final(self).current == old(self).current,
            final(self).blob_live == old(self).blob_live,
            final(self).segments@.len() == old(self).segments@.len(),
            forall|i: int|
                0 <= i < final(self).segments@.len() ==> final(self).segments@[i] == reap_step(
                    #[trigger] old(self).segments@[i],
                    now,
                    oldest,
                ),
            reaped(*old(self), *final(self), now, oldest),
            // space is never reclaimed under a guard that might still reach
            // it: a segment becomes free only when no live guard was pinned
            // at or before its retirement epoch
            forall|i: int|
                0 <= i < final(self).segments@.len() && !(old(self).segments@[i].state is Free) && (
                #[trigger] final(self).segments@[i]).state is Free ==> (old(
                    self,
                ).segments@[i].state matches SegState::Retiring { epoch }
                    && epochs.no_guard_at_or_before(epoch)),
    {
        let n = self.segments.len();
        let mut i: usize = 0;
        loop
            invariant
                i <= n,
                self.segments@.len() == n,
                self.segment_size == old(self).segment_size,
                self.current == old(self).current,
                self.blob_live == old(self).blob_live,
                forall|j: int| i <= j < n ==> self.segments@[j] == old(self).segments@[j],
                forall|j: int|
                    0 <= j < i ==> self.segments@[j] == reap_step(
                        #[trigger] old(self).segments@[j],
                        now,
                        oldest,
                    ),
            decreases n - i,
        {
            if i == n {
                break;
            }
            let retire = match self.segments[i].state {
                SegState::Sealed => self.segments[i].live == 0,
                _ => false,
            };
            if retire {
                let used0 = self.segments[i].used;
                vec_set(
                    &mut self.segments,
                    i,
                    Segment { used: used0, live: 0, state: SegState::Retiring { epoch: now } },
                );
            } else {
                let release = match self.segments[i].state {
                    SegState::Retiring { epoch } => match oldest {
                        Option::Some(m) => epoch < m,
                        Option::None => true,
                    },
                    _ => false,
                };
                if release {
                    vec_set(
                        &mut self.segments,
                        i,
                        Segment { used: 0, live: 0, state: SegState::Free },
                    );
                }
            }
            i += 1;
        }
        proof {
            assert(self.segments@.len() <= SEG_COUNT_LIMIT);
            assert(self.current < self.segments@.len());
            assert(self.segments@[self.current as int] == reap_step(
                old(self).segments@[self.current as int],
                now,
                oldest,
            ));
            assert(old(self).segments@[self.current as int].state is Active);
            assert(self.segments@[self.current as int].state is Active);
            assert forall|i: int| 0 <= i < self.segments@.len() implies (
            #[trigger] self.segments@[i]).wf(self.segment_size as int) by {
                assert(self.segments@[i] == reap_step(old(self).segments@[i], now, oldest));
                assert(old(self).segments@[i].wf(self.segment_size as int));
            }
            assert forall|i: int|
                0 <= i < self.segments@.len() && i != self.current implies !((
            #[trigger] self.segments@[i]).state is Active) by {
                assert(self.segments@[i] == reap_step(old(self).segments@[i], now, oldest));
                assert(!(old(self).segments@[i].state is Active));
            }
        }
    }


    /// Sealed segments whose live bytes have dropped to at most a
    /// `1/denominator` fraction of a segment's usable space: rewriting
    /// their surviving records elsewhere net-reduces space, so these are
    /// the candidates for compaction, in index order.
    #[verifier::loop_isolation(false)]
    pub fn compaction_candidates(&self, denominator: usize) -> (r: Vec<usize>)
        requires
            self.wf(),
            denominator >= 1,
        ensures
            forall|i: int|
                0 <= i < r@.len() ==> {
                    &&& (#[trigger] r@[i]) < self.segments@.len()
                    &&& self.segments@[r@[i] as int].state is Sealed
                    &&& self.segments@[r@[i] as int].live * denominator <= self.spec_usable()
                },
            forall|s: int|
                0 <= s < self.segments@.len() && (#[trigger] self.segments@[s]).state is Sealed
                    && self.segments@[s].live * denominator <= self.spec_usable()
                    ==> r@.contains(s as usize),
    {
        let n = self.segments.len();
        let usable = self.segment_size - SEG_HEADER_LEN;
        let mut r: Vec<usize> = Vec::new();
        let mut i: usize = 0;
        loop
            invariant
                i <= n,
                forall|k: int|
                    0 <= k < r@.len() ==> {
                        &&& (#[trigger] r@[k]) < i
                        &&& self.segments@[r@[k] as int].state is Sealed
                        &&& self.segments@[r@[k] as int].live * denominator <= self.spec_usable()
                    },
                forall|s: int|
                    0 <= s < i && (#[trigger] self.segments@[s]).state is Sealed
                        && self.segments@[s].live * denominator <= self.spec_usable()
                        ==> r@.contains(s as usize),
            decreases n - i,
        {
            if i == n {
                break;
            }
            let sealed = match self.segments[i].state {
                SegState::Sealed => true,
                _ => false,
            };
            if sealed {
                let live = self.segments[i].live;
                proof {
                    assert(live * denominator <= SEGMENT_SIZE_LIMIT * denominator)
                        by (nonlinear_arith)
                        requires
                            live <= SEGMENT_SIZE_LIMIT,
                            denominator >= 1,
                    ;
                }
                if live as u128 * denominator as u128 <= usable as u128 {
                    let ghost pre = r@;
                    r.push(i);
                    proof {
                        assert(r@.last() == i);
                        assert forall|s: int|
                            pre.contains(s as usize) implies #[trigger] r@.contains(
                            s as usize,
                        ) by {
                            let w = choose|w: int| 0 <= w < pre.len() && pre[w] == s as usize;
                            assert(r@[w] == s as usize);
                        }
                    }
                }
            }
            i += 1;
        }
        r
    }

    /// Total on-disk footprint: every segment's full size plus live blob
    /// bytes.
    pub fn on_disk_size(&self) -> (r: u64)
        requires
            self.wf(),
            self.segments@.len() * self.segment_size + self.blob_live <= u64::MAX,
        ensures
            r == self.segments@.len() * self.segment_size + self.blob_live,
    {
        let n = self.segments.len() as u64;
        let s = self.segment_size as u64;
        proof {
            assert(n * s == self.segments@.len() * self.segment_size) by (nonlinear_arith)
                requires
                    n == self.segments@.len(),
                    s == self.segment_size,
            ;
        }
        n * s + self.blob_live
    }
}

/// A structural copy of a segment state.
fn clone_state(s: &SegState) -> (r: SegState)
    ensures
        r == *s,
{
    match s {
        SegState::Active => SegState::Active,
        SegState::Sealed => SegState::Sealed,
        SegState::Retiring { epoch } => SegState::Retiring { epoch: *epoch },
        SegState::Free => SegState::Free,
    }
}

} // verus!
