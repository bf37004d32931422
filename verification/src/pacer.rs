use vstd::prelude::*;

verus! {

/// A precision pacer producing monotonically spaced wake-up deadlines.
///
/// Ticks are spaced by a configurable interval measured from the previous
/// *scheduled* tick, not from the previous actual wake, so transient
/// scheduling delay does not accumulate drift: the next deadline is
/// `max(now, previous_deadline + interval)`.
///
/// Times are readings of a monotone clock, in milliseconds. The caller
/// supplies the current reading and sleeps until the returned deadline;
/// this type only does the deadline arithmetic.
pub struct Pacer {
    next_pace_time: u64,
    interval: u64,
}

impl Pacer {
    /// The deadline scheduled by the most recent call (or the creation time).
    pub closed spec fn next_time(self) -> u64 {
        self.next_pace_time
    }

    /// The configured spacing between ticks, in milliseconds.
    pub closed spec fn interval(self) -> u64 {
        self.interval
    }

    /// What the next deadline is, given the previous scheduled deadline,
    /// the interval, and the current time.
    pub open spec fn spec_next_deadline(prev: u64, interval: u64, now: u64) -> int {
        if now >= prev + interval {
            now as int
        } else {
            prev + interval
        }
    }

    /// Creates a pacer whose first tick is due immediately.
    pub fn new(now_ms: u64, interval_ms: u64) -> (p: Pacer)
        ensures
            p.next_time() == now_ms,
            p.interval() == interval_ms,
    {
        Pacer { next_pace_time: now_ms, interval: interval_ms }
    }

    /// Schedules the next tick and returns its deadline: the caller suspends
    /// until that time. The deadline is `max(now, previous deadline + interval)`,
    /// so consecutive deadlines are at least one interval apart however late
    /// the caller was woken.
    pub fn wait_next(&mut self, now_ms: u64) -> (deadline: u64)
        requires
            old(self).next_time() + old(self).interval() <= u64::MAX,
        ensures
            deadline == Self::spec_next_deadline(old(self).next_time(), old(self).interval(), now_ms),
            final(self).next_time() == deadline,
            final(self).interval() == old(self).interval(),
            deadline >= old(self).next_time() + old(self).interval(),
    {
        let base = self.next_pace_time + self.interval;
        let next = if now_ms >= base {
            now_ms
        } else {
            base
        };
        self.next_pace_time = next;
        next
    }

    /// The deadline scheduled by the most recent call, readable by the
    /// caller that does the actual sleeping.
    pub fn next_time_ms(&self) -> (r: u64)
        ensures
            r == self.next_time(),
    {
        self.next_pace_time
    }

    /// The configured interval in milliseconds.
    pub fn interval_ms(&self) -> (r: u64)
        ensures
            r == self.interval(),
    {
        self.interval
    }

    /// Changes the spacing for subsequent waits; a deadline already handed
    /// out is unaffected.
    pub fn set_interval(&mut self, interval_ms: u64)
        ensures
            final(self).interval() == interval_ms,
            final(self).next_time() == old(self).next_time(),
    {
        self.interval = interval_ms;
    }
}

/// The deadlines produced by a run of consecutive `wait_next` calls, one per
/// observed clock reading, starting from previous scheduled deadline `prev`.
pub open spec fn schedule(prev: int, interval: u64, nows: Seq<u64>) -> Seq<int>
    decreases nows.len(),
{
    if nows.len() == 0 {
        Seq::empty()
    } else {
        let first = if nows[0] >= prev + interval {
            nows[0] as int
        } else {
            prev + interval
        };
        seq![first] + schedule(first, interval, nows.skip(1))
    }
}

/// Pacer spacing law: across any run of consecutive waits, each scheduled
/// deadline is at least one interval after the previous scheduled deadline
/// (the first, one interval after the deadline the run started from),
/// whatever clock readings the caller observed — jitter never shrinks the
/// spacing, and lateness never accumulates as drift.
pub proof fn lemma_pacer_spacing(prev: int, interval: u64, nows: Seq<u64>)
    ensures
        schedule(prev, interval, nows).len() == nows.len(),
        nows.len() > 0 ==> schedule(prev, interval, nows)[0] >= prev + interval,
        forall|i: int|
            0 <= i < nows.len() - 1 ==> #[trigger] schedule(prev, interval, nows)[i + 1]
                >= schedule(prev, interval, nows)[i] + interval,
    decreases nows.len(),
{
    if nows.len() > 0 {
        let first = if nows[0] >= prev + interval {
            nows[0] as int
        } else {
            prev + interval
        };
        lemma_pacer_spacing(first, interval, nows.skip(1));
        let s = schedule(prev, interval, nows);
        let rest = schedule(first, interval, nows.skip(1));
        assert forall|i: int| 0 <= i < nows.len() - 1 implies #[trigger] s[i + 1] >= s[i] + interval by {
            assert(s[i + 1] == rest[i]);
            if i == 0 {
                assert(rest[0] >= first + interval);
            } else {
                assert(s[i] == rest[i - 1]);
                assert(rest[(i - 1) + 1] >= rest[i - 1] + interval);
            }
        }
    }
}

/// No-drift law: the i-th deadline of a run is at least `i + 1` intervals
/// after the deadline the run started from, for every pattern of clock
/// readings.
pub proof fn lemma_pacer_no_drift(prev: int, interval: u64, nows: Seq<u64>, i: int)
    requires
        0 <= i < nows.len(),
    ensures
        schedule(prev, interval, nows)[i] >= prev + (i + 1) * interval,
    decreases i,
{
    lemma_pacer_spacing(prev, interval, nows);
    let s = schedule(prev, interval, nows);
    if i > 0 {
        lemma_pacer_no_drift(prev, interval, nows, i - 1);
        assert(s[(i - 1) + 1] >= s[i - 1] + interval);
        assert(prev + i * interval + interval == prev + (i + 1) * interval) by (nonlinear_arith);
    } else {
        assert(s[0] >= prev + interval);
    }
}

} // verus!
