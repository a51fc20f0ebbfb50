use datadog_sidekiq::metrics::Metric;
use datadog_sidekiq::namespace::Namespace;
use datadog_sidekiq::stats::{enqueued_total, processed_delta, processed_key, queue_backlog_key, queues_key};
use datadog_sidekiq::supervisor::{ConnectionError, DeliveryError, Supervisor};
use datadog_sidekiq::wire::delivery_outcome;

#[test]
fn wrap_without_namespace_returns_key_unchanged() {
    let ns = Namespace::new(None);
    assert_eq!(ns.wrap("queues"), "queues".to_string());
    assert_eq!(ns.wrap(""), "".to_string());
}

#[test]
fn wrap_with_namespace_prefixes_with_colon() {
    let ns = Namespace::new(Some("app".to_string()));
    assert_eq!(ns.wrap("queues"), "app:queues".to_string());
    assert_eq!(ns.wrap(""), "app:".to_string());
}

#[test]
fn store_keys_are_namespaced() {
    let ns = Namespace::new(Some("sk".to_string()));
    assert_eq!(queues_key(&ns), "sk:queues".to_string());
    assert_eq!(queue_backlog_key(&ns, "default"), "sk:queue:default".to_string());
    assert_eq!(processed_key(&ns), "sk:stat:processed".to_string());

    let bare = Namespace::new(None);
    assert_eq!(queues_key(&bare), "queues".to_string());
    assert_eq!(queue_backlog_key(&bare, "mailers"), "queue:mailers".to_string());
    assert_eq!(processed_key(&bare), "stat:processed".to_string());
}

#[test]
fn empty_queue_set_total_is_zero_not_absent() {
    let lengths: Vec<u32> = vec![];
    assert_eq!(enqueued_total(&lengths), Some(0));
}

#[test]
fn enqueued_total_sums_backlogs() {
    assert_eq!(enqueued_total(&vec![3, 4, 5]), Some(12));
    assert_eq!(enqueued_total(&vec![7]), Some(7));
}

#[test]
fn enqueued_total_saturates_at_counter_max() {
    assert_eq!(enqueued_total(&vec![u32::MAX, 5]), Some(u32::MAX));
    assert_eq!(enqueued_total(&vec![u32::MAX - 1, 1]), Some(u32::MAX));
}

#[test]
fn delta_of_consecutive_totals() {
    assert_eq!(processed_delta(Some(140), Some(100)), Some(40));
    assert_eq!(processed_delta(Some(100), Some(100)), Some(0));
}

#[test]
fn delta_absent_when_either_sample_missing() {
    assert_eq!(processed_delta(None, Some(100)), None);
    assert_eq!(processed_delta(Some(100), None), None);
    assert_eq!(processed_delta(None, None), None);
}

#[test]
fn delta_absent_when_counter_went_backward() {
    assert_eq!(processed_delta(Some(50), Some(100)), None);
}

#[test]
fn consecutive_ticks_emit_the_delta() {
    let tags: Vec<String> = vec!["env:test".to_string()];
    let mut sup = Supervisor::new();

    assert!(sup.on_enqueued(Ok(Some(5))));
    let first = sup.on_processed(Ok(Some(100)), &tags).unwrap();
    // First tick: no previous sample, so only the enqueued gauge.
    assert_eq!(first.series.len(), 1);
    assert_eq!(first.series[0].metric, "sidekiq.enqueued".to_string());
    assert_eq!(first.series[0].points[0].1, 5);
    assert_eq!(first.series[0].metric_type, "gauge".to_string());
    assert_eq!(first.series[0].tags, tags);

    assert!(sup.on_enqueued(Ok(Some(7))));
    let second = sup.on_processed(Ok(Some(140)), &tags).unwrap();
    assert_eq!(second.series.len(), 2);
    assert_eq!(second.series[0].metric, "sidekiq.enqueued".to_string());
    assert_eq!(second.series[0].points[0].1, 7);
    assert_eq!(second.series[1].metric, "sidekiq.processed".to_string());
    assert_eq!(second.series[1].points[0].1, 40);
    assert_eq!(second.series[1].tags, tags);
}

#[test]
fn first_tick_stores_baseline_without_emitting_processed() {
    let tags: Vec<String> = vec![];
    let mut sup = Supervisor::new();
    assert!(sup.on_enqueued(Ok(None)));
    let series = sup.on_processed(Ok(Some(100)), &tags).unwrap();
    assert_eq!(series.series.len(), 0);
    assert_eq!(sup.previous_processed, Some(100));
}

#[test]
fn absent_counter_reading_restarts_delta_tracking() {
    let tags: Vec<String> = vec![];
    let mut sup = Supervisor::new();
    assert!(sup.on_enqueued(Ok(None)));
    sup.on_processed(Ok(Some(100)), &tags).unwrap();
    assert!(sup.on_enqueued(Ok(None)));
    let series = sup.on_processed(Ok(None), &tags).unwrap();
    assert_eq!(series.series.len(), 0);
    assert_eq!(sup.previous_processed, None);
}

#[test]
fn enqueued_read_failure_abandons_tick_and_reconnects() {
    let mut sup = Supervisor::new();
    let proceed = sup.on_enqueued(Err(ConnectionError { reason: "store unreachable".to_string() }));
    assert!(!proceed);
    assert!(sup.needs_reconnect());
    assert_eq!(sup.previous_processed, None);
    sup.connection_restored();
    assert!(!sup.needs_reconnect());
}

#[test]
fn processed_read_failure_abandons_tick_and_keeps_baseline() {
    let tags: Vec<String> = vec![];
    let mut sup = Supervisor::new();
    assert!(sup.on_enqueued(Ok(Some(1))));
    sup.on_processed(Ok(Some(100)), &tags).unwrap();

    assert!(sup.on_enqueued(Ok(Some(2))));
    let out = sup.on_processed(Err(ConnectionError { reason: "reset".to_string() }), &tags);
    assert!(out.is_none());
    assert!(sup.needs_reconnect());
    // The baseline survives the failed read untouched.
    assert_eq!(sup.previous_processed, Some(100));
}

#[test]
fn delivery_failure_is_logged_and_leaves_state_alone() {
    let tags: Vec<String> = vec![];
    let mut sup = Supervisor::new();
    assert!(sup.on_enqueued(Ok(Some(3))));
    sup.on_processed(Ok(Some(100)), &tags).unwrap();
    let previous_before = sup.previous_processed;
    let reconnect_before = sup.needs_reconnect();

    let outcome = delivery_outcome(500, "invalid payload".to_string());
    let log = sup.on_delivery(outcome);
    assert_eq!(
        log,
        Some("the monitoring API replied with an error: invalid payload".to_string())
    );
    assert_eq!(sup.previous_processed, previous_before);
    assert_eq!(sup.needs_reconnect(), reconnect_before);

    let ok_log = sup.on_delivery(delivery_outcome(202, String::new()));
    assert_eq!(ok_log, None);
}

#[test]
fn delivery_error_messages_name_the_failure() {
    let rejected = DeliveryError::Rejected { body: "oops".to_string() };
    assert_eq!(
        rejected.describe(),
        "the monitoring API replied with an error: oops".to_string()
    );
    let transport = DeliveryError::Transport { reason: "timeout".to_string() };
    assert_eq!(
        transport.describe(),
        "could not reach the monitoring API: timeout".to_string()
    );
}

#[test]
fn gauge_carries_name_value_kind_and_tags() {
    let tags: Vec<String> = vec!["a".to_string(), "b".to_string()];
    let m = Metric::gauge("sidekiq.enqueued", 9, tags.clone());
    assert_eq!(m.metric, "sidekiq.enqueued".to_string());
    assert_eq!(m.metric_type, "gauge".to_string());
    assert_eq!(m.points.len(), 1);
    assert_eq!(m.points[0].1, 9);
    assert_eq!(m.tags, tags);
}
