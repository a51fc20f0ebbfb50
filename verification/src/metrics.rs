//! Metric and Series: single-sample gauges assembled into a batch for
//! one delivery attempt.

use vstd::prelude::*;

verus! {

/// The mathematical content of one metric: its name, its points (each a
/// unix timestamp and an unsigned value), its kind, and its tags.
pub struct MetricView {
    pub metric: Seq<char>,
    pub points: Seq<(i64, u32)>,
    pub metric_type: Seq<char>,
    pub tags: Seq<Seq<char>>,
}

/// One named, tagged metric. In this system every metric carries exactly
/// one point, whose timestamp is the capture time, not the flush time.
pub struct Metric {
    pub metric: String,
    pub points: Vec<(i64, u32)>,
    pub metric_type: String,
    pub tags: Vec<String>,
}

impl View for Metric {
    type V = MetricView;

    open spec fn view(&self) -> MetricView {
        MetricView {
            metric: self.metric@,
            points: self.points@,
            metric_type: self.metric_type@,
            tags: self.tags.deep_view(),
        }
    }
}

impl DeepView for Metric {
    type V = MetricView;

    open spec fn deep_view(&self) -> MetricView {
        self@
    }
}

/// A single-sample gauge, field by field.
pub open spec fn is_gauge_of(
    m: MetricView,
    name: Seq<char>,
    value: u32,
    tags: Seq<Seq<char>>,
) -> bool {
    &&& m.metric == name
    &&& m.metric_type == "gauge"@
    &&& m.tags == tags
    &&& m.points.len() == 1
    &&& m.points[0].1 == value
}

/// Relies on std::time::SystemTime::now and duration_since, against the
/// Unix epoch: `Ok(s)` when the clock reads `s` whole seconds at or
/// after the epoch, `Err(s)` when it reads `s` whole seconds before it
/// (`duration_since` returns the gap as its error then). No call in the
/// body can panic, whatever the clock reads; nothing can be promised of
/// the reading itself.
#[verifier::external_body]
fn clock_seconds_from_epoch() -> Result<u64, u64> {
    match std::time::SystemTime::now().duration_since(std::time::UNIX_EPOCH) {
        Ok(since) => Ok(since.as_secs()),
        Err(before) => Err(before.duration().as_secs()),
    }
}

/// The current wall-clock time as whole seconds since the Unix epoch,
/// clamped to the timestamp type's range: a reading too far from the
/// epoch to represent becomes the nearest representable instant.
fn now_unix_seconds() -> i64 {
    match clock_seconds_from_epoch() {
        Ok(seconds) => {
            if seconds <= 9223372036854775807u64 {
                seconds as i64
            } else {
                i64::MAX
            }
        },
        Err(seconds) => {
            if seconds <= 9223372036854775807u64 {
                -(seconds as i64)
            } else {
                i64::MIN
            }
        },
    }
}

impl Metric {
    /// A metric holding the single point `(timestamp, value)`.
    pub fn new(
        metric: &str,
        value: u32,
        metric_type: &str,
        tags: Vec<String>,
        timestamp: i64,
    ) -> (m: Metric)
        ensures
            m@.metric == metric@,
            m@.metric_type == metric_type@,
            m@.tags == tags.deep_view(),
            m@.points =~= seq![(timestamp, value)],
    {
        let mut points: Vec<(i64, u32)> = Vec::new();
        points.push((timestamp, value));
        Metric {
            metric: metric.to_owned(),
            points,
            metric_type: metric_type.to_owned(),
            tags,
        }
    }

    /// A gauge stamped with the current wall-clock time. The timestamp
    /// is whatever the clock read; everything else is pinned down.
    pub fn gauge(metric: &str, value: u32, tags: Vec<String>) -> (m: Metric)
        ensures
            is_gauge_of(m@, metric@, value, tags.deep_view()),
    {
        let timestamp = now_unix_seconds();
        Metric::new(metric, value, "gauge", tags, timestamp)
    }
}

/// An ordered batch of metrics, serialized wholesale per delivery
/// attempt. An empty series is a valid, sendable payload.
pub struct Series {
    pub series: Vec<Metric>,
}

impl View for Series {
    type V = Seq<MetricView>;

    open spec fn view(&self) -> Seq<MetricView> {
        self.series.deep_view()
    }
}

impl Series {
    pub fn new() -> (s: Series)
        ensures
            s@ =~= Seq::<MetricView>::empty(),
    {
        Series { series: Vec::new() }
    }

    pub fn push(&mut self, metric: Metric)
        ensures
            final(self)@ =~= old(self)@ + seq![metric@],
    {
        self.series.push(metric);
    }
}

} // verus!
