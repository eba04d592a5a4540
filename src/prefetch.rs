//! The bounded-concurrency prefetch window: which id to start next as
//! fetch-and-store units complete, and the success and failure counts.
use vstd::prelude::*;

verus! {

/// The prefetch window over `total` ids taken in order, at most `limit` of
/// them in flight at once.
pub struct Prefetch {
    pub total: usize,
    pub limit: usize,
    /// The number of ids started so far (ids `0..next`).
    pub next: usize,
    pub in_flight: usize,
    pub success: usize,
    pub failed: usize,
}

/// Counts of a finished run.
pub struct PrefetchResult {
    pub success: usize,
    pub failed: usize,
}

impl Prefetch {
    /// At most `limit` units are in flight, every started unit is in flight
    /// or counted, and the window stays full while ids remain.
    pub open spec fn wf(&self) -> bool {
        &&& 1 <= self.limit
        &&& self.in_flight <= self.limit
        &&& self.next <= self.total
        &&& self.success + self.failed + self.in_flight == self.next
        &&& (self.in_flight == self.limit || self.next == self.total)
    }

    /// Whether every unit has completed.
    pub open spec fn drained(&self) -> bool {
        self.in_flight == 0
    }

    /// A window over `total` ids that starts the first `min(limit, total)`
    /// of them at once.
    pub fn start(total: usize, limit: usize) -> (r: Prefetch)
        requires
            1 <= limit,
        ensures
            r.wf(),
            r.total == total,
            r.limit == limit,
            r.next == (if limit < total { limit } else { total }),
            r.in_flight == r.next,
            r.success == 0,
            r.failed == 0,
    {
        let first = if limit < total { limit } else { total };
        Prefetch { total, limit, next: first, in_flight: first, success: 0, failed: 0 }
    }

    /// Records the completion of one unit, successful when `ok`, and returns
    /// the id to start in its place, if any remains.
    pub fn complete(&mut self, ok: bool) -> (r: Option<usize>)
        requires
            old(self).wf(),
            old(self).in_flight > 0,
        ensures
            final(self).wf(),
            final(self).total == old(self).total,
            final(self).limit == old(self).limit,
            final(self).success == old(self).success + (if ok { 1int } else { 0int }),
            final(self).failed == old(self).failed + (if ok { 0int } else { 1int }),
            old(self).next < old(self).total ==> r == Some(old(self).next) && final(self).next == old(self).next + 1
                && final(self).in_flight == old(self).in_flight,
            old(self).next == old(self).total ==> r is None && final(self).next == old(self).next
                && final(self).in_flight == old(self).in_flight - 1,
    {
        if ok {
            self.success = self.success + 1;
        } else {
            self.failed = self.failed + 1;
        }
        if self.next < self.total {
            let id = self.next;
            self.next = self.next + 1;
            Some(id)
        } else {
            self.in_flight = self.in_flight - 1;
            None
        }
    }

    /// The counts of the run so far.
    pub fn result(&self) -> (r: PrefetchResult)
        ensures
            r.success == self.success,
            r.failed == self.failed,
    {
        PrefetchResult { success: self.success, failed: self.failed }
    }
}

/// A drained window has counted every id exactly once, as a success or as a
/// failure, and never had more than `limit` units in flight.
pub proof fn lemma_drained_counts(p: Prefetch)
    requires
        p.wf(),
        p.drained(),
    ensures
        p.success + p.failed == p.total,
        p.in_flight <= p.limit,
{
}

/// Runs the window to the end with the units completing in order, the
/// `k`-th completion succeeding when `outcomes[k]` holds.
pub fn run_in_order(total: usize, limit: usize, outcomes: &Vec<bool>) -> (r: PrefetchResult)
    requires
        1 <= limit,
        outcomes@.len() == total,
    ensures
        r.success + r.failed == total,
        r.success == count_true(outcomes@),
{
    let mut p = Prefetch::start(total, limit);
    let mut k: usize = 0;
    while p.in_flight > 0
        invariant
            p.wf(),
            p.total == total,
            p.limit == limit,
            outcomes@.len() == total,
            k == p.success + p.failed,
            p.success == count_true(outcomes@.take(k as int)),
        decreases p.total - p.next + p.in_flight,
    {
        assert(outcomes@.take(k + 1).drop_last() =~= outcomes@.take(k as int));
        let ok = outcomes[k];
        let _ = p.complete(ok);
        k = k + 1;
    }
    assert(outcomes@.take(k as int) =~= outcomes@);
    p.result()
}

/// The number of `true` values.
pub open spec fn count_true(s: Seq<bool>) -> nat
    decreases s.len(),
{
    if s.len() == 0 {
        0
    } else {
        count_true(s.drop_last()) + if s.last() { 1nat } else { 0nat }
    }
}

/// Whether a fetched detail document is stored: status 200 and a non-empty
/// body.
pub fn unit_succeeds(status: u16, body: &str) -> (r: bool)
    ensures
        r == (status == 200 && body@.len() > 0),
{
    status == 200 && !body.is_empty()
}

} // verus!
