use vstd::prelude::*;

verus! {

/// How long a shard may stay quiet before the next outgoing datagram also
/// carries a fresh resumption announcement, in milliseconds.
pub const REMIND_INTERVAL_MS: u64 = 1000;

/// How long a superseded socket keeps being drained before it is dropped,
/// in milliseconds.
pub const DRAIN_GRACE_MS: u64 = 60000;

/// What the shard loop does before sending one outgoing datagram.
pub struct UpstreamPlan {
    /// Send a `ClientResume` announcement first.
    pub send_resume: bool,
    /// Spawn a drain task for the old socket and replace it with a fresh
    /// one before sending.
    pub rotate_socket: bool,
}

/// Relies on rand::rngs::ThreadRng through rand::Rng::gen_range: a value
/// drawn uniformly from the half-open range. Only the bounds are promised.
#[verifier::external_body]
fn pick_in_range(lo: u64, hi: u64) -> (r: u64)
    requires
        lo < hi,
    ensures
        lo <= r < hi,
{
    rand::Rng::gen_range(&mut rand::thread_rng(), lo..hi)
}

/// The decision state of one shard's transport loop: when it last
/// announced itself, whether it has announced on the current socket at
/// all, and when its randomized socket-rotation deadline falls. Times are
/// monotone clock readings in milliseconds, supplied by the caller; all
/// I/O (the race, the sockets, the sends) lives outside this core.
pub struct ShardState {
    /// The configured reset interval, if socket rotation is enabled.
    pub reset_interval_ms: Option<u64>,
    /// Rotate once more than this many milliseconds have passed since the
    /// previous rotation; redrawn at random from [interval/2, interval)
    /// after every rotation, decorrelating shards from each other.
    pub reset_deadline_ms: Option<u64>,
    /// When the socket was last rotated (or the loop started).
    pub last_reset_ms: u64,
    /// Whether an announcement has been sent since the last rotation
    /// state began.
    pub announced: bool,
    /// When the last announcement was sent, if any.
    pub last_remind_ms: Option<u64>,
}

impl ShardState {
    /// A rotation deadline exists exactly when an interval is configured,
    /// and always falls inside [interval/2, interval).
    pub open spec fn wf(self) -> bool {
        match self.reset_interval_ms {
            Some(i) => {
                &&& i >= 1
                &&& match self.reset_deadline_ms {
                    Some(d) => i / 2 <= d < i,
                    None => false,
                }
            },
            None => self.reset_deadline_ms is None,
        }
    }

    /// Whether an announcement is due at `now_ms`: always on the first
    /// outgoing datagram, then whenever more than the reminder interval
    /// has passed since the previous announcement.
    pub open spec fn resume_due(self, now_ms: u64) -> bool {
        ||| !self.announced
        ||| match self.last_remind_ms {
            Some(t) => now_ms - t > REMIND_INTERVAL_MS,
            None => false,
        }
    }

    /// Whether the randomized rotation deadline has passed at `now_ms`.
    pub open spec fn rotation_due(self, now_ms: u64) -> bool {
        match self.reset_deadline_ms {
            Some(d) => now_ms - self.last_reset_ms > d,
            None => false,
        }
    }

    /// Starts a shard loop at `now_ms` with the given rotation interval.
    pub fn new(reset_interval_ms: Option<u64>, now_ms: u64) -> (s: ShardState)
        requires
            match reset_interval_ms {
                Some(i) => i >= 1,
                None => true,
            },
        ensures
            s.wf(),
            s.reset_interval_ms == reset_interval_ms,
            s.last_reset_ms == now_ms,
            !s.announced,
            s.last_remind_ms is None,
    {
        let deadline = match reset_interval_ms {
            Some(i) => Some(pick_in_range(i / 2, i)),
            None => None,
        };
        ShardState {
            reset_interval_ms,
            reset_deadline_ms: deadline,
            last_reset_ms: now_ms,
            announced: false,
            last_remind_ms: None,
        }
    }

    /// Decides what accompanies the next outgoing datagram. An
    /// announcement is sent when one is due; only then is the rotation
    /// deadline even consulted, so rotation latency is bounded by the
    /// reminder cadence, not by the configured interval's precision. A
    /// rotation re-randomizes the next deadline and restarts the rotation
    /// clock at `now_ms`.
    pub fn on_outgoing(&mut self, now_ms: u64) -> (plan: UpstreamPlan)
        requires
            old(self).wf(),
            now_ms >= old(self).last_reset_ms,
            match old(self).last_remind_ms {
                Some(t) => now_ms >= t,
                None => true,
            },
        ensures
            final(self).wf(),
            final(self).reset_interval_ms == old(self).reset_interval_ms,
            plan.send_resume == old(self).resume_due(now_ms),
            plan.rotate_socket == (old(self).resume_due(now_ms) && old(self).rotation_due(
                now_ms,
            )),
            final(self).last_remind_ms == Some(now_ms),
            old(self).resume_due(now_ms) ==> final(self).announced,
            !old(self).resume_due(now_ms) ==> {
                &&& final(self).announced == old(self).announced
                &&& final(self).last_reset_ms == old(self).last_reset_ms
                &&& final(self).reset_deadline_ms == old(self).reset_deadline_ms
            },
            plan.rotate_socket ==> final(self).last_reset_ms == now_ms,
            !plan.rotate_socket ==> {
                &&& final(self).last_reset_ms == old(self).last_reset_ms
                &&& final(self).reset_deadline_ms == old(self).reset_deadline_ms
            },
    {
        let due = match self.last_remind_ms {
            Some(t) => now_ms - t > REMIND_INTERVAL_MS || !self.announced,
            None => !self.announced,
        };
        self.last_remind_ms = Some(now_ms);
        if !due {
            return UpstreamPlan { send_resume: false, rotate_socket: false };
        }
        self.announced = true;
        let rotate = match self.reset_deadline_ms {
            Some(d) => now_ms - self.last_reset_ms > d,
            None => false,
        };
        if rotate {
            let interval = match self.reset_interval_ms {
                Some(i) => i,
                None => {
                    proof {
                        assert(false);
                    }
                    1
                },
            };
            self.reset_deadline_ms = Some(pick_in_range(interval / 2, interval));
            self.last_reset_ms = now_ms;
        }
        UpstreamPlan { send_resume: true, rotate_socket: rotate }
    }
}

} // verus!

verus! {

/// The shard identifiers a freshly established session spawns one
/// transport loop for: 0 up to the configured shard count.
pub fn shard_ids(num_shards: usize) -> (ids: Vec<u8>)
    requires
        num_shards <= 256,
    ensures
        ids@.len() == num_shards,
        forall|i: int| 0 <= i < num_shards ==> ids@[i] == i as u8,
{
    let mut ids: Vec<u8> = Vec::new();
    let mut i: usize = 0;
    while i < num_shards
        invariant
            0 <= i <= num_shards <= 256,
            ids@.len() == i,
            forall|j: int| 0 <= j < i ==> ids@[j] == j as u8,
        decreases num_shards - i,
    {
        ids.push(i as u8);
        i += 1;
    }
    ids
}

} // verus!
