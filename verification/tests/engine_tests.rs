use wakeup::engine::ProbeOutcome;
use wakeup::engine::aggregate_status;
use wakeup::engine::check_health;
use wakeup::engine::run_check_model;
use wakeup::model::CheckStatus;
use wakeup::model::HealthCheckMethod;
use wakeup::model::ServerStatus;

fn http_method(status: Option<u16>, regex: Option<&str>) -> HealthCheckMethod {
    HealthCheckMethod::Http {
        url: "http://example.com/health".to_string(),
        status,
        regex: regex.map(|r| r.to_string()),
    }
}

fn shell_method(status: Option<i32>, regex: Option<&str>) -> HealthCheckMethod {
    HealthCheckMethod::Shell {
        command: "echo 'hello'".to_string(),
        status,
        regex: regex.map(|r| r.to_string()),
    }
}

fn http_response(code: u16, body: &str) -> ProbeOutcome {
    ProbeOutcome::Http(Some((code, body.to_string())))
}

#[test]
fn test_http_decision_success() {
    let ok = http_response(200, "healthy");
    assert!(check_health(&http_method(Some(200), Some("health")), &ok));
    assert!(check_health(&http_method(Some(200), None), &ok));
    assert!(check_health(&http_method(None, Some("health")), &ok));
}

#[test]
fn test_http_decision_fail() {
    let unavailable = http_response(503, "Service Unavailable");
    assert!(!check_health(&http_method(Some(200), Some("health")), &unavailable));
    assert!(!check_health(&http_method(Some(200), None), &unavailable));
    assert!(!check_health(&http_method(None, Some("health")), &unavailable));
    assert!(!check_health(&http_method(Some(200), None), &ProbeOutcome::Http(None)));
}

#[test]
fn test_http_decision_needs_both_criteria() {
    // matching status but non-matching body still fails: a clean AND
    let wrong_body = http_response(200, "booting");
    assert!(!check_health(&http_method(Some(200), Some("health")), &wrong_body));
    // a matching pattern does not excuse a wrong status
    let wrong_status = http_response(500, "healthy");
    assert!(!check_health(&http_method(Some(200), Some("health")), &wrong_status));
}

#[test]
fn test_port_decision() {
    let method = HealthCheckMethod::Port {
        ip: "127.0.0.1".to_string(),
        port: 65_000,
    };
    assert!(check_health(&method, &ProbeOutcome::Port(true)));
    assert!(!check_health(&method, &ProbeOutcome::Port(false)));
}

#[test]
fn test_shell_decision_success() {
    let out = ProbeOutcome::Shell(Some((Some(0), "hello\n".to_string())));
    assert!(check_health(&shell_method(Some(0), Some("hello")), &out));
    assert!(check_health(&shell_method(Some(0), None), &out));
    assert!(check_health(&shell_method(None, Some("hello")), &out));
}

#[test]
fn test_shell_decision_fail() {
    let out = ProbeOutcome::Shell(Some((Some(0), "hello\n".to_string())));
    assert!(!check_health(&shell_method(None, Some("world")), &out));
    assert!(!check_health(&shell_method(Some(1), None), &out));
    assert!(!check_health(&shell_method(Some(1), Some("world")), &out));
    assert!(!check_health(&shell_method(Some(0), None), &ProbeOutcome::Shell(None)));
}

#[test]
fn test_mismatched_outcome_kind_fails() {
    // an outcome of the wrong kind never counts as a pass
    assert!(!check_health(&http_method(Some(200), None), &ProbeOutcome::Port(true)));
}

#[test]
fn test_aggregate_empty_is_healthy() {
    let results: Vec<CheckStatus> = Vec::new();
    assert_eq!(aggregate_status(&results), ServerStatus::Healthy);
}

#[test]
fn test_aggregate_any_timeout_wins() {
    let results = vec![CheckStatus::Healthy, CheckStatus::TimedOut];
    assert_eq!(aggregate_status(&results), ServerStatus::TimedOut);
    let results = vec![CheckStatus::TimedOut, CheckStatus::Healthy];
    assert_eq!(aggregate_status(&results), ServerStatus::TimedOut);
}

#[test]
fn test_aggregate_all_healthy() {
    let results = vec![CheckStatus::Healthy, CheckStatus::Healthy];
    assert_eq!(aggregate_status(&results), ServerStatus::Healthy);
}

#[test]
fn test_retry_policy_times_out_after_budget() {
    // timeout 2 s, retry 800 ms: attempts at 0, 800 and 1600 ms, then the
    // next attempt time (2400 ms) is past the deadline
    let probes = vec![false, false, false];
    let (status, attempts) = run_check_model(2_000, 800, &probes);
    assert_eq!(status, CheckStatus::TimedOut);
    assert_eq!(attempts, 3);
}

#[test]
fn test_retry_policy_stops_at_first_success() {
    let probes = vec![false, true, false];
    let (status, attempts) = run_check_model(2_000, 800, &probes);
    assert_eq!(status, CheckStatus::Healthy);
    assert_eq!(attempts, 2);
}

#[test]
fn test_retry_policy_zero_timeout_never_probes() {
    let probes: Vec<bool> = Vec::new();
    let (status, attempts) = run_check_model(0, 500, &probes);
    assert_eq!(status, CheckStatus::TimedOut);
    assert_eq!(attempts, 0);
}
