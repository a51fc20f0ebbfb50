//! Poll-loop supervisor: the reconnect state machine, the per-tick
//! series assembly, and error routing.
//!
//! The loop around it performs the outside work (store round trips, the
//! HTTP POST, the interval sleep) and hands every outcome back here; the
//! supervisor decides what the tick does next.

use vstd::prelude::*;
use crate::metrics::{Metric, MetricView, Series, is_gauge_of};
use crate::stats::{delta_of, processed_delta};

verus! {

/// The store was unreachable, or a protocol failure ended the round
/// trip. Distinct from "key absent," which is a normal reading.
pub struct ConnectionError {
    pub reason: String,
}

/// The remote monitoring API could not be reached, or replied with
/// something other than acceptance.
pub enum DeliveryError {
    /// A response arrived, but its status was not the accepted one; the
    /// response body is carried along.
    Rejected { body: String },
    /// No response arrived: DNS, TLS, connection reset, timeout.
    Transport { reason: String },
}

impl DeliveryError {
    /// One log-ready line naming what went wrong.
    pub fn describe(&self) -> (r: String)
        ensures
            self matches DeliveryError::Rejected { body } ==> r@ == "the monitoring API replied with an error: "@ + body@,
            self matches DeliveryError::Transport { reason } ==> r@ == "could not reach the monitoring API: "@ + reason@,
    {
        match self {
            DeliveryError::Rejected { body } => {
                let mut out = String::from_str("the monitoring API replied with an error: ");
                out.append(body.as_str());
                out
            },
            DeliveryError::Transport { reason } => {
                let mut out = String::from_str("could not reach the monitoring API: ");
                out.append(reason.as_str());
                out
            },
        }
    }
}

/// What one tick's series must hold, given the enqueued reading and the
/// processed delta: one `sidekiq.enqueued` gauge when the backlog total
/// is present, then one `sidekiq.processed` gauge when a delta was
/// produced, each carrying the configured tags.
pub open spec fn is_tick_series(
    s: Seq<MetricView>,
    enqueued: Option<u32>,
    delta: Option<u32>,
    tags: Seq<Seq<char>>,
) -> bool {
    match (enqueued, delta) {
        (Some(e), Some(d)) => {
            &&& s.len() == 2
            &&& is_gauge_of(s[0], "sidekiq.enqueued"@, e, tags)
            &&& is_gauge_of(s[1], "sidekiq.processed"@, d, tags)
        },
        (Some(e), None) => s.len() == 1 && is_gauge_of(s[0], "sidekiq.enqueued"@, e, tags),
        (None, Some(d)) => s.len() == 1 && is_gauge_of(s[0], "sidekiq.processed"@, d, tags),
        (None, None) => s.len() == 0,
    }
}

/// An owned copy of the tag list, character for character.
pub fn clone_tags(tags: &Vec<String>) -> (r: Vec<String>)
    ensures
        r.deep_view() == tags.deep_view(),
{
    let mut out: Vec<String> = Vec::new();
    let mut i: usize = 0;
    while i < tags.len()
        invariant
            i <= tags.len(),
            out@.len() == i,
            forall|j: int| 0 <= j < i ==> out@[j]@ == tags@[j]@,
        decreases tags.len() - i,
    {
        out.push(tags[i].clone());
        i = i + 1;
    }
    proof {
        assert(out.deep_view() =~~= tags.deep_view());
    }
    out
}

/// The poll loop's state: whether the store connection must be
/// re-established before the next tick, the last successfully observed
/// cumulative processed counter, and the backlog total read earlier in
/// the current tick.
pub struct Supervisor {
    /// True while the connection is known broken: the next action is a
    /// reconnect attempt, not a read and not a sleep.
    pub reconnecting: bool,
    /// Absent at startup and after the counter key read absent; updated
    /// on every successful read of the processed counter.
    pub previous_processed: Option<u32>,
    /// The backlog total read by the current tick, awaiting the
    /// processed reading; absent between ticks.
    pub pending_enqueued: Option<u32>,
}

impl Supervisor {
    /// Startup state: connected (the process cannot start without a
    /// store connection), no previous counter sample, no pending tick.
    pub fn new() -> (s: Supervisor)
        ensures
            !s.reconnecting,
            s.previous_processed is None,
            s.pending_enqueued is None,
    {
        Supervisor { reconnecting: false, previous_processed: None, pending_enqueued: None }
    }

    /// Whether the next action must be a connection attempt.
    pub fn needs_reconnect(&self) -> (r: bool)
        ensures
            r == self.reconnecting,
    {
        self.reconnecting
    }

    /// A connection was re-established: back to ticking. The delta
    /// baseline survives the gap untouched.
    pub fn connection_restored(&mut self)
        ensures
            !final(self).reconnecting,
            final(self).previous_processed == old(self).previous_processed,
            final(self).pending_enqueued == old(self).pending_enqueued,
    {
        self.reconnecting = false;
    }

    /// The tick's first reading: the backlog total. A connection
    /// failure abandons the tick at once — no series, no delivery — and
    /// routes the loop to a reconnect attempt; the delta baseline is
    /// untouched.
    pub fn on_enqueued(&mut self, reading: Result<Option<u32>, ConnectionError>) -> (proceed: bool)
        requires
            !old(self).reconnecting,
        ensures
            proceed == reading is Ok,
            final(self).previous_processed == old(self).previous_processed,
            reading is Err ==> final(self).reconnecting && final(self).pending_enqueued is None,
            reading matches Ok(v) ==> !final(self).reconnecting && final(self).pending_enqueued == v,
    {
        match reading {
            Ok(value) => {
                self.pending_enqueued = value;
                true
            },
            Err(_) => {
                self.pending_enqueued = None;
                self.reconnecting = true;
                false
            },
        }
    }

    /// The tick's second reading: the cumulative processed counter. A
    /// connection failure abandons the tick exactly as above. A
    /// successful reading finishes the tick: the series is assembled
    /// from the pending backlog total and the counter delta, and the
    /// current counter sample becomes the new baseline — also when it is
    /// absent, which restarts delta tracking after a read gap.
    pub fn on_processed(
        &mut self,
        reading: Result<Option<u32>, ConnectionError>,
        tags: &Vec<String>,
    ) -> (out: Option<Series>)
        requires
            !old(self).reconnecting,
        ensures
            final(self).pending_enqueued is None,
            reading is Err ==> {
                &&& out is None
                &&& final(self).reconnecting
                &&& final(self).previous_processed == old(self).previous_processed
            },
            reading matches Ok(current) ==> {
                &&& !final(self).reconnecting
                &&& final(self).previous_processed == current
                &&& out matches Some(s) && is_tick_series(
                    s@,
                    old(self).pending_enqueued,
                    delta_of(current, old(self).previous_processed),
                    tags.deep_view(),
                )
            },
    {
        match reading {
            Err(_) => {
                self.pending_enqueued = None;
                self.reconnecting = true;
                None
            },
            Ok(current) => {
                let mut series = Series::new();
                if let Some(enqueued) = self.pending_enqueued {
                    series.push(Metric::gauge("sidekiq.enqueued", enqueued, clone_tags(tags)));
                }
                let delta = processed_delta(current, self.previous_processed);
                if let Some(d) = delta {
                    series.push(Metric::gauge("sidekiq.processed", d, clone_tags(tags)));
                }
                self.previous_processed = current;
                self.pending_enqueued = None;
                Some(series)
            },
        }
    }

    /// The delivery outcome never feeds back into the loop's state: a
    /// failure is reduced to a log line, the connection state and the
    /// delta baseline stay as they are, and the loop proceeds to its
    /// sleep on schedule.
    pub fn on_delivery(&mut self, outcome: Result<(), DeliveryError>) -> (log: Option<String>)
        ensures
            *final(self) == *old(self),
            log is Some <==> outcome is Err,
            outcome matches Err(e) ==> (log matches Some(line) && (
                e matches DeliveryError::Rejected { body } ==> line@ == "the monitoring API replied with an error: "@ + body@)
                && (e matches DeliveryError::Transport { reason } ==> line@ == "could not reach the monitoring API: "@ + reason@)),
    {
        match outcome {
            Ok(()) => None,
            Err(e) => Some(e.describe()),
        }
    }
}

} // verus!
