//! The fetch stage's decisions: which unit to launch next under a
//! concurrency budget.
use vstd::prelude::*;

verus! {

/// The launch order of a chunk's units under a budget of concurrent fetches.
///
/// The runner asks for a unit to launch, performs its fetch, and reports
/// each completion; at no point are more fetches in flight than the budget.
pub struct FetchScheduler {
    units: Vec<u64>,
    budget: usize,
    next: usize,
    in_flight: usize,
}

impl FetchScheduler {
    /// The units of the chunk, in submission order.
    pub closed spec fn units(&self) -> Seq<u64> {
        self.units@
    }

    /// The most fetches that may be in flight at once.
    pub closed spec fn budget(&self) -> nat {
        self.budget as nat
    }

    /// How many units have been launched.
    pub closed spec fn launched(&self) -> nat {
        self.next as nat
    }

    /// How many launched fetches have not completed.
    pub closed spec fn in_flight(&self) -> nat {
        self.in_flight as nat
    }

    /// Counts stay within the chunk and the budget.
    pub closed spec fn wf(&self) -> bool {
        &&& self.budget > 0
        &&& self.next <= self.units@.len()
        &&& self.in_flight <= self.budget
        &&& self.in_flight <= self.next
    }

    /// In every reachable state no more fetches are in flight than the budget.
    pub proof fn lemma_bounded_concurrency(&self)
        requires
            self.wf(),
        ensures
            self.in_flight() <= self.budget(),
            self.in_flight() <= self.launched() <= self.units().len(),
    {
    }

    /// A scheduler for a chunk of units and a budget.
    pub fn new(units: Vec<u64>, budget: usize) -> (r: FetchScheduler)
        requires
            budget > 0,
        ensures
            r.wf(),
            r.units() == units@,
            r.budget() == budget,
            r.launched() == 0,
            r.in_flight() == 0,
    {
        FetchScheduler { units, budget, next: 0, in_flight: 0 }
    }

    /// The next unit to launch, in submission order, if the budget has room
    /// and units remain.
    pub fn launch(&mut self) -> (r: Option<u64>)
        requires
            old(self).wf(),
        ensures
            final(self).wf(),
            final(self).units() == old(self).units(),
            final(self).budget() == old(self).budget(),
            if old(self).in_flight() < old(self).budget() && old(self).launched() < old(
                self,
            ).units().len() {
                &&& r == Some(old(self).units()[old(self).launched() as int])
                &&& final(self).launched() == old(self).launched() + 1
                &&& final(self).in_flight() == old(self).in_flight() + 1
            } else {
                &&& r is None
                &&& final(self).launched() == old(self).launched()
                &&& final(self).in_flight() == old(self).in_flight()
            },
    {
        if self.in_flight < self.budget && self.next < self.units.len() {
            let u = self.units[self.next];
            self.next = self.next + 1;
            self.in_flight = self.in_flight + 1;
            Some(u)
        } else {
            None
        }
    }

    /// Record that a launched fetch completed, with success or failure;
    /// false, and no change, when none was in flight.
    pub fn complete(&mut self) -> (r: bool)
        requires
            old(self).wf(),
        ensures
            final(self).wf(),
            final(self).units() == old(self).units(),
            final(self).budget() == old(self).budget(),
            final(self).launched() == old(self).launched(),
            r == (old(self).in_flight() > 0),
            final(self).in_flight() == if r {
                old(self).in_flight() - 1
            } else {
                old(self).in_flight() as int
            },
    {
        if self.in_flight > 0 {
            self.in_flight = self.in_flight - 1;
            true
        } else {
            false
        }
    }

    /// Whether every unit was launched and has completed.
    pub fn is_done(&self) -> (r: bool)
        ensures
            r == (self.launched() == self.units().len() && self.in_flight() == 0),
    {
        self.next == self.units.len() && self.in_flight == 0
    }
}

/// Admission slots spaced by a fixed interval: a shared clock that lets one
/// fetch through per interval, independent of the concurrency budget.
pub struct RateLimiter {
    interval: u64,
    next_slot: u64,
}

/// The slot admitted at time `now` when the next free slot is `next`.
pub open spec fn admitted_at(now: u64, next: u64) -> u64 {
    if now >= next {
        now
    } else {
        next
    }
}

/// The next free slot after admitting at `slot`, saturating at the clock's end.
pub open spec fn slot_after(slot: u64, interval: u64) -> u64 {
    if slot as int + interval as int > u64::MAX as int {
        u64::MAX
    } else {
        (slot + interval) as u64
    }
}

impl RateLimiter {
    /// The spacing between admissions.
    pub closed spec fn interval(&self) -> u64 {
        self.interval
    }

    /// The earliest time of the next admission.
    pub closed spec fn next_slot(&self) -> u64 {
        self.next_slot
    }

    /// A limiter that admits one fetch per `interval` time units, starting now.
    pub fn new(interval: u64) -> (r: RateLimiter)
        ensures
            r.interval() == interval,
            r.next_slot() == 0,
    {
        RateLimiter { interval, next_slot: 0 }
    }

    /// Reserve the next admission slot for a fetch asked for at time `now`:
    /// the returned time is when the fetch may be issued.
    pub fn reserve_slot(&mut self, now: u64) -> (r: u64)
        ensures
            r == admitted_at(now, old(self).next_slot()),
            r >= now,
            final(self).interval() == old(self).interval(),
            final(self).next_slot() == slot_after(r, old(self).interval()),
    {
        let slot = if now >= self.next_slot {
            now
        } else {
            self.next_slot
        };
        self.next_slot = self.next_slot_after(slot);
        slot
    }

    fn next_slot_after(&self, slot: u64) -> (r: u64)
        ensures
            r == slot_after(slot, self.interval),
    {
        if slot > u64::MAX - self.interval {
            u64::MAX
        } else {
            slot + self.interval
        }
    }
}

/// Two successive admissions are at least one interval apart, unless the
/// clock has saturated, whatever the times at which they were asked for.
pub proof fn lemma_admissions_spaced(now1: u64, now2: u64, next: u64, interval: u64)
    ensures
        ({
            let a1 = admitted_at(now1, next);
            let a2 = admitted_at(now2, slot_after(a1, interval));
            a1 as int + interval as int <= u64::MAX as int ==> a2 >= a1 + interval
        }),
{
}

} // verus!
