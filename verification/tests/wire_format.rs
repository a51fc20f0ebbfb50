use datadog_sidekiq::metrics::{Metric, Series};
use datadog_sidekiq::wire::{delivery_outcome, parse_series, serialize_series};

fn two_metric_series() -> Series {
    let mut series = Series::new();
    series.push(Metric::new(
        "sidekiq.enqueued",
        5,
        "gauge",
        vec!["env:prod".to_string(), "shard:1".to_string()],
        1700000000,
    ));
    series.push(Metric::new(
        "sidekiq.processed",
        40,
        "gauge",
        vec!["env:prod".to_string(), "shard:1".to_string()],
        1700000000,
    ));
    series
}

#[test]
fn empty_series_serializes_to_the_bare_payload() {
    let series = Series::new();
    assert_eq!(serialize_series(&series), "{\"series\":[]}".to_string());
}

#[test]
fn one_metric_serializes_exactly() {
    let mut series = Series::new();
    series.push(Metric::new(
        "sidekiq.enqueued",
        5,
        "gauge",
        vec!["env:prod".to_string()],
        1700000000,
    ));
    let expected = "{\"series\":[{\"metric\":\"sidekiq.enqueued\",\"points\":[[1700000000,5]],\"type\":\"gauge\",\"tags\":[\"env:prod\"]}]}";
    assert_eq!(serialize_series(&series), expected.to_string());
}

#[test]
fn negative_timestamp_serializes_with_sign() {
    let mut series = Series::new();
    series.push(Metric::new("m", 0, "gauge", vec![], -62));
    assert_eq!(
        serialize_series(&series),
        "{\"series\":[{\"metric\":\"m\",\"points\":[[-62,0]],\"type\":\"gauge\",\"tags\":[]}]}"
            .to_string()
    );
}

#[test]
fn round_trip_preserves_two_metric_series() {
    let series = two_metric_series();
    let payload = serialize_series(&series);
    let parsed = parse_series(payload.as_str()).unwrap();

    assert_eq!(parsed.series.len(), 2);
    for (sent, back) in series.series.iter().zip(parsed.series.iter()) {
        assert_eq!(back.metric, sent.metric);
        assert_eq!(back.points, sent.points);
        assert_eq!(back.metric_type, sent.metric_type);
        assert_eq!(back.tags, sent.tags);
    }
}

#[test]
fn round_trip_preserves_empty_series() {
    let payload = serialize_series(&Series::new());
    let parsed = parse_series(payload.as_str()).unwrap();
    assert_eq!(parsed.series.len(), 0);
}

#[test]
fn round_trip_preserves_escaped_tags() {
    let mut series = Series::new();
    series.push(Metric::new(
        "sidekiq.enqueued",
        1,
        "gauge",
        vec!["quote:\"x\"".to_string(), "back\\slash".to_string(), "line\nbreak\ttab\r".to_string()],
        0,
    ));
    let payload = serialize_series(&series);
    let parsed = parse_series(payload.as_str()).unwrap();
    assert_eq!(parsed.series[0].tags, series.series[0].tags);
}

#[test]
fn round_trip_preserves_extreme_numbers() {
    let mut series = Series::new();
    series.push(Metric::new("edge", u32::MAX, "gauge", vec![], i64::MIN));
    series.push(Metric::new("edge2", 0, "gauge", vec![], i64::MAX));
    let payload = serialize_series(&series);
    let parsed = parse_series(payload.as_str()).unwrap();
    assert_eq!(parsed.series[0].points, vec![(i64::MIN, u32::MAX)]);
    assert_eq!(parsed.series[1].points, vec![(i64::MAX, 0)]);
}

#[test]
fn parse_rejects_malformed_payloads() {
    assert!(parse_series("").is_none());
    assert!(parse_series("garbage").is_none());
    assert!(parse_series("{\"series\":[").is_none());
    assert!(parse_series("{\"series\":[]}trailing").is_none());
    assert!(parse_series("{\"series\":[{\"metric\":\"m\"}]}").is_none());
}

#[test]
fn serialized_payload_is_json_a_real_parser_accepts() {
    let series = two_metric_series();
    let payload = serialize_series(&series);
    let value: serde_json::Value = serde_json::from_str(payload.as_str()).unwrap();

    let entries = value.get("series").unwrap().as_array().unwrap();
    assert_eq!(entries.len(), 2);
    assert_eq!(
        entries[0].get("metric").unwrap().as_str().unwrap(),
        "sidekiq.enqueued"
    );
    assert_eq!(entries[1].get("metric").unwrap().as_str().unwrap(), "sidekiq.processed");
    assert_eq!(entries[0].get("type").unwrap().as_str().unwrap(), "gauge");
    let point = entries[1].get("points").unwrap().as_array().unwrap()[0].as_array().unwrap();
    assert_eq!(point[0].as_i64().unwrap(), 1700000000);
    assert_eq!(point[1].as_u64().unwrap(), 40);
    let tags = entries[0].get("tags").unwrap().as_array().unwrap();
    assert_eq!(tags[0].as_str().unwrap(), "env:prod");
    assert_eq!(tags[1].as_str().unwrap(), "shard:1");
}

#[test]
fn escaped_tags_survive_a_real_parser_too() {
    let mut series = Series::new();
    series.push(Metric::new(
        "m",
        1,
        "gauge",
        vec!["quote:\"x\"".to_string(), "back\\slash".to_string(), "line\nbreak".to_string()],
        0,
    ));
    let payload = serialize_series(&series);
    let value: serde_json::Value = serde_json::from_str(payload.as_str()).unwrap();
    let tags = value.get("series").unwrap().as_array().unwrap()[0]
        .get("tags")
        .unwrap()
        .as_array()
        .unwrap();
    assert_eq!(tags[0].as_str().unwrap(), "quote:\"x\"");
    assert_eq!(tags[1].as_str().unwrap(), "back\\slash");
    assert_eq!(tags[2].as_str().unwrap(), "line\nbreak");
}

#[test]
fn only_status_202_counts_as_accepted() {
    assert!(delivery_outcome(202, String::new()).is_ok());
    for status in [200u32, 201, 204, 400, 403, 500] {
        let err = delivery_outcome(status, "body text".to_string()).unwrap_err();
        assert_eq!(
            err.describe(),
            "the monitoring API replied with an error: body text".to_string()
        );
    }
}
