//! Epoch-based reclamation tokens.
//!
//! A guard is pinned before any page-store operation and released after it.
//! Physical space behind a superseded page version may only be reclaimed
//! once no guard pinned at or before the supersession remains live.

use vstd::prelude::*;

verus! {

/// A reclamation token stamped with the epoch at which it was pinned.
///
/// A guard is not `Clone`: it is surrendered to `unpin`, so a released
/// guard cannot be presented to a later operation.
pub struct Guard {
    pub epoch: u64,
}

/// The bookkeeping behind guards: the current epoch and the epochs of all
/// guards that are still live.
pub struct EpochTracker {
    pub current: u64,
    pub pinned: Vec<u64>,
}

impl EpochTracker {
    /// Every live guard was pinned at or before the current epoch.
    pub open spec fn wf(self) -> bool {
        forall|i: int| 0 <= i < self.pinned@.len() ==> self.pinned@[i] <= self.current
    }

    /// No live guard was pinned at or before epoch `e`.
    pub open spec fn no_guard_at_or_before(self, e: u64) -> bool {
        forall|i: int| 0 <= i < self.pinned@.len() ==> self.pinned@[i] > e
    }

    /// True when `g` is one of the live guards.
    pub open spec fn holds(self, g: Guard) -> bool {
        self.pinned@.contains(g.epoch)
    }

    pub fn new() -> (r: EpochTracker)
        ensures
            r.wf(),
            r.current == 0,
            r.pinned@ =~= Seq::<u64>::empty(),
    {
        EpochTracker { current: 0, pinned: Vec::new() }
    }

    /// Pin a guard at the current epoch.
    pub fn pin(&mut self) -> (g: Guard)
        requires
            old(self).wf(),
        ensures
            final(self).wf(),
            g.epoch == old(self).current,
            final(self).current == old(self).current,
            final(self).pinned@ == old(self).pinned@.push(g.epoch),
            final(self).holds(g),
    {
        self.pinned.push(self.current);
        let g = Guard { epoch: self.current };
        proof {
            assert(self.pinned@.last() == g.epoch);
        }
        g
    }

    /// Release a guard. One live guard with its epoch goes away; the rest
    /// are untouched.
    #[verifier::loop_isolation(false)]
    pub fn unpin(&mut self, g: Guard)
        requires
            old(self).wf(),
            old(self).holds(g),
        ensures
            final(self).wf(),
            final(self).current == old(self).current,
            exists|i: int|
                0 <= i < old(self).pinned@.len() && old(self).pinned@[i] == g.epoch
                    && final(self).pinned@ == old(self).pinned@.remove(i),
    {
        let n = self.pinned.len();
        let mut i: usize = 0;
        loop
            invariant
                i <= n,
                n == self.pinned@.len(),
                forall|j: int| 0 <= j < i ==> self.pinned@[j] != g.epoch,
            decreases n - i,
        {
            proof {
                if i == self.pinned@.len() {
                    let w = choose|w: int|
                        0 <= w < self.pinned@.len() && self.pinned@[w] == g.epoch;
                    assert(false);
                }
            }
            if self.pinned[i] == g.epoch {
                break;
            }
            i += 1;
        }
        self.pinned.remove(i);
    }

    /// Move to the next epoch. Live guards keep their older stamps.
    pub fn advance(&mut self)
        requires
            old(self).wf(),
            old(self).current < u64::MAX,
        ensures
            final(self).wf(),
            final(self).current == old(self).current + 1,
            final(self).pinned@ == old(self).pinned@,
    {
        self.current = self.current + 1;
    }

    /// The epoch of the earliest-pinned live guard, or `None` when no guard
    /// is live.
    #[verifier::loop_isolation(false)]
    pub fn oldest_pinned(&self) -> (r: Option<u64>)
        ensures
            match r {
                Option::None => self.pinned@.len() == 0,
                Option::Some(m) => {
                    &&& self.pinned@.contains(m)
                    &&& forall|i: int| 0 <= i < self.pinned@.len() ==> m <= self.pinned@[i]
                },
            },
    {
        if self.pinned.len() == 0 {
            return Option::None;
        }
        let mut m: u64 = self.pinned[0];
        proof {
            assert(self.pinned@[0] == m);
        }
        let mut i: usize = 1;
        loop
            invariant
                1 <= i <= self.pinned@.len(),
                self.pinned@.contains(m),
                forall|j: int| 0 <= j < i ==> m <= self.pinned@[j],
            decreases self.pinned@.len() - i,
        {
            if i == self.pinned.len() {
                break;
            }
            if self.pinned[i] < m {
                m = self.pinned[i];
                proof {
                    assert(self.pinned@[i as int] == m);
                }
            }
            i += 1;
        }
        Option::Some(m)
    }
}

} // verus!
