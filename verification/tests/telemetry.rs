use git_ai_core::telemetry::{
    log_metrics, next_batch_to_store, store_metrics_envelopes_locally, submit_telemetry_envelope,
    TelemetryEnvelope,
    TelemetryRoute, MAX_METRICS_PER_ENVELOPE,
};

#[test]
fn test_log_metrics_empty() {
    let batches: Vec<Vec<u32>> = log_metrics(vec![]);
    assert!(batches.is_empty());
}

#[test]
fn test_max_metrics_per_envelope() {
    assert_eq!(MAX_METRICS_PER_ENVELOPE, 1000);
}

#[test]
fn metrics_are_batched_by_a_thousand() {
    let events: Vec<u32> = (0..2500).collect();
    let batches = log_metrics(events.clone());
    assert_eq!(batches.len(), 3);
    assert_eq!(batches[0].len(), 1000);
    assert_eq!(batches[1].len(), 1000);
    assert_eq!(batches[2].len(), 500);
    let flat: Vec<u32> = batches.into_iter().flatten().collect();
    assert_eq!(flat, events);
    assert_eq!(log_metrics((0..1000u32).collect()).len(), 1);
}

#[test]
fn local_store_takes_only_metric_events() {
    let envs: Vec<TelemetryEnvelope<u32>> = vec![
        TelemetryEnvelope::Metrics { events: vec![1, 2] },
        TelemetryEnvelope::Message {
            timestamp: "t".to_string(),
            message: "m".to_string(),
            level: "info".to_string(),
            context: None,
        },
        TelemetryEnvelope::Metrics { events: vec![3] },
    ];
    assert_eq!(store_metrics_envelopes_locally(envs), vec![vec![1, 2, 3]]);
    let none: Vec<TelemetryEnvelope<u32>> = vec![TelemetryEnvelope::Error {
        timestamp: "t".to_string(),
        message: "e".to_string(),
        context: None,
    }];
    assert!(store_metrics_envelopes_locally(none).is_empty());
}

#[test]
fn routes_are_tried_in_order() {
    assert_eq!(
        submit_telemetry_envelope(TelemetryRoute::DaemonSocket, false),
        Some(TelemetryRoute::DaemonWorker)
    );
    assert_eq!(
        submit_telemetry_envelope(TelemetryRoute::DaemonWorker, false),
        Some(TelemetryRoute::LocalStore)
    );
    assert_eq!(submit_telemetry_envelope(TelemetryRoute::LocalStore, false), None);
    assert_eq!(submit_telemetry_envelope(TelemetryRoute::DaemonSocket, true), None);
}

#[test]
fn local_store_stops_at_the_first_failed_batch() {
    assert_eq!(next_batch_to_store(0, 3, true), Some(1));
    assert_eq!(next_batch_to_store(1, 3, false), None);
    assert_eq!(next_batch_to_store(2, 3, true), None);
}
