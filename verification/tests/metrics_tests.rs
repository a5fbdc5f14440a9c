use lms_server::metrics::{get_metrics, init_metrics, normalize_path, Metrics};

#[test]
fn test_metrics_new() {
    let metrics = Metrics::new();
    assert_eq!(metrics.loaded_models(), 0);
    assert_eq!(metrics.active_connections(), 0);
    assert_eq!(metrics.tokens_generated(), 0);
}

#[test]
fn test_record_request() {
    let mut metrics = Metrics::new();
    metrics.record_request("/v1/chat/completions", 200, 100_000_000);
    metrics.record_request("/v1/chat/completions", 200, 50_000_000);
    metrics.record_request("/v1/chat/completions", 500, 10_000_000);

    assert_eq!(metrics.request_count("/v1/chat/completions", 200), 2);
    assert_eq!(metrics.request_count("/v1/chat/completions", 500), 1);
}

#[test]
fn test_record_inference() {
    let mut metrics = Metrics::new();
    metrics.record_inference(1_000_000_000, 100);
    metrics.record_inference(2_000_000_000, 150);

    assert_eq!(metrics.tokens_generated(), 250);
}

#[test]
fn test_set_loaded_models() {
    let mut metrics = Metrics::new();
    metrics.set_loaded_models(3);
    assert_eq!(metrics.loaded_models(), 3);
}

#[test]
fn test_connections() {
    let mut metrics = Metrics::new();
    metrics.inc_connections();
    metrics.inc_connections();
    assert_eq!(metrics.active_connections(), 2);
    metrics.dec_connections();
    assert_eq!(metrics.active_connections(), 1);
}

#[test]
fn test_export_format() {
    let mut metrics = Metrics::new();
    metrics.set_loaded_models(2);
    metrics.record_request("/v1/models", 200, 10_000_000);

    let output = metrics.export();
    assert!(output.contains("# HELP lms_uptime_seconds"));
    assert!(output.contains("# TYPE lms_uptime_seconds gauge"));
    assert!(output.contains("lms_models_loaded 2"));
    assert!(output.contains("lms_requests_total"));
}

#[test]
fn test_normalize_path() {
    assert_eq!(
        normalize_path("/v1/workspaces/123e4567-e89b-12d3-a456-426614174000"),
        "/v1/workspaces/:id"
    );
    assert_eq!(normalize_path("/v1/models"), "/v1/models");
    assert_eq!(
        normalize_path("/v1/workspaces/abc123def456/documents"),
        "/v1/workspaces/:id/documents"
    );
}

#[test]
fn normalize_path_is_idempotent_on_examples() {
    for p in ["/v1/workspaces/123e4567-e89b-12d3-a456-426614174000/documents/abc123def456", "/a/b", "", "/"] {
        let once = normalize_path(p);
        assert_eq!(normalize_path(&once), once);
    }
}

#[test]
fn connections_increment_then_decrement_restores() {
    let mut metrics = Metrics::new();
    metrics.inc_connections();
    metrics.dec_connections();
    assert_eq!(metrics.active_connections(), 0);
    metrics.dec_connections();
    assert_eq!(metrics.active_connections(), u64::MAX);
    metrics.inc_connections();
    assert_eq!(metrics.active_connections(), 0);
}

#[test]
fn export_at_reports_uptime_and_counts() {
    let mut metrics = Metrics::new();
    metrics.record_request("/v1/models", 404, 1_500_000_000);
    metrics.record_inference(250_000_000, 7);
    let out = metrics.export_at(42);
    assert!(out.contains("lms_uptime_seconds 42"));
    assert!(out.contains("lms_requests_total{endpoint=\"/v1/models\",status=\"404\"} 1"));
    assert!(out.contains("lms_tokens_generated_total 7"));
}

#[test]
fn metrics_slot_is_set_once() {
    let mut slot: Option<Metrics> = None;
    assert!(get_metrics(&slot).is_none());
    init_metrics(&mut slot);
    assert!(get_metrics(&slot).is_some());
}

#[test]
fn histogram_buckets_are_cumulative_counts() {
    let mut m = Metrics::new();
    m.record_request("/v1/models", 200, 200_000_000);
    let out = m.export_at(0);
    assert!(out.contains("lms_request_duration_seconds_bucket{le=\"0.1\"} 0\n"));
    assert!(out.contains("lms_request_duration_seconds_bucket{le=\"0.25\"} 1\n"));
    assert!(out.contains("lms_request_duration_seconds_bucket{le=\"0.5\"} 1\n"));
    assert!(out.contains("lms_request_duration_seconds_bucket{le=\"10\"} 1\n"));
    assert!(out.contains("lms_request_duration_seconds_bucket{le=\"+Inf\"} 1\n"));
    assert!(out.contains("lms_request_duration_seconds_count 1\n"));
    let mut n = Metrics::new();
    n.record_inference(1_000_000_000, 100);
    n.record_inference(2_000_000_000, 150);
    let out = n.export_at(0);
    assert!(out.contains("lms_tokens_generated_total 250\n"));
    assert!(out.contains("lms_inference_duration_seconds_bucket{le=\"1\"} 1\n"));
    assert!(out.contains("lms_inference_duration_seconds_bucket{le=\"2.5\"} 2\n"));
    assert!(out.contains("lms_inference_duration_seconds_bucket{le=\"120\"} 2\n"));
    assert!(out.contains("lms_inference_duration_seconds_sum 3\n"));
    assert!(out.contains("lms_inference_duration_seconds_count 2\n"));
}

#[test]
fn one_count_line_per_endpoint_and_status() {
    let mut m = Metrics::new();
    m.record_request("/v1/models", 200, 1);
    m.record_request("/v1/models", 200, 1);
    m.record_request("/v1/models", 404, 1);
    m.record_request("/v1/models", 200, 1);
    let out = m.export_at(0);
    let lines: Vec<&str> = out.lines().filter(|l| l.starts_with("lms_requests_total{")).collect();
    assert_eq!(lines.len(), 2);
    assert!(lines.iter().any(|l| l.contains("status=\"200\"") && l.ends_with(" 3")));
    assert!(lines.iter().any(|l| l.contains("status=\"404\"") && l.ends_with(" 1")));
}
