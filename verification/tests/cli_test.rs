use opendaemon::cli::{
    compact_error, control_plan, control_wait_step, daemon_status_rows, display_daemon_status, display_status,
    is_state_active_at, restart_decision, shutdown_progress, start_decision, status_report, stop_decision,
    ControlPlan, ControlRequest, ControlWait, RestartDecision, RuntimeState, ShutdownProgress, StartDecision,
    StopDecision,
};
use opendaemon::config::{DmnConfig, ServiceConfig, ServiceMap};
use opendaemon::json::JsonValue;
use opendaemon::orchestrator::OrchestratorEvent;

fn state(config: &str, heartbeat: u64) -> RuntimeState {
    RuntimeState {
        config_path: config.to_string(),
        started_at_unix: heartbeat,
        heartbeat_unix: heartbeat,
        services: vec![("api".to_string(), "running".to_string())],
    }
}

fn request(action: &str, service: Option<&str>) -> ControlRequest {
    ControlRequest { action: action.to_string(), service: service.map(|s| s.to_string()), requested_at_unix: 0 }
}

#[test]
fn test_heartbeat_window_edges() {
    assert!(is_state_active_at(100, 105));
    assert!(!is_state_active_at(100, 106));
    assert!(is_state_active_at(200, 100));
}

#[test]
fn test_compact_error() {
    assert_eq!(compact_error("  first line  \nsecond"), "first line");
    let long = "y".repeat(130);
    assert_eq!(compact_error(&long), format!("{}...", "y".repeat(117)));
}

#[test]
fn test_display_daemon_status() {
    assert_eq!(display_daemon_status("failed (exit code: 1)"), "Failed (exit code: 1)");
    assert_eq!(display_daemon_status("weird"), "weird");
    assert_eq!(display_status("failed:"), "Failed");
    assert_eq!(display_status("other"), "other");
}

#[test]
fn test_start_decisions() {
    assert!(matches!(start_decision(None, "/c", None, 10), StartDecision::Launch { cleanup_stale: false }));
    let stale = state("/c", 0);
    assert!(matches!(start_decision(Some(&stale), "/c", None, 100), StartDecision::Launch { cleanup_stale: true }));
    let live = state("/c", 100);
    assert!(matches!(start_decision(Some(&live), "/c", Some("api"), 101), StartDecision::RequestServiceStart(ref s) if s == "api"));
    assert!(matches!(start_decision(Some(&live), "/c", None, 101), StartDecision::AlreadyRunning(ref p) if p == "/c"));
    assert!(matches!(start_decision(Some(&live), "/other", None, 101), StartDecision::OtherSupervisor(ref p) if p == "/c"));
}

#[test]
fn test_stop_and_restart_decisions() {
    assert!(matches!(stop_decision(None, "/c", None, 1), StopDecision::NothingRunning));
    let live = state("/c", 100);
    assert!(matches!(stop_decision(Some(&live), "/c", None, 100), StopDecision::RequestShutdown));
    assert!(matches!(stop_decision(Some(&live), "/c", Some("api"), 100), StopDecision::RequestServiceStop(ref s) if s == "api"));
    assert!(matches!(stop_decision(Some(&live), "/c", None, 200), StopDecision::CleanStale));
    assert!(matches!(stop_decision(Some(&live), "/d", None, 100), StopDecision::OtherSupervisor(_)));
    assert!(matches!(restart_decision(None, "/c", 1), RestartDecision::NotRunning));
    assert!(matches!(restart_decision(Some(&live), "/c", 100), RestartDecision::Request));
    assert!(matches!(restart_decision(Some(&live), "/c", 200), RestartDecision::Stale));
}

#[test]
fn test_shutdown_and_control_waits() {
    assert!(matches!(shutdown_progress(None, 5), ShutdownProgress::Stopped));
    let live = state("/c", 100);
    assert!(matches!(shutdown_progress(Some(&live), 100), ShutdownProgress::Waiting));
    assert!(matches!(shutdown_progress(Some(&live), 300), ShutdownProgress::Unresponsive));
    assert!(matches!(control_wait_step(false, None, "/c", 0), ControlWait::Done));
    match control_wait_step(true, None, "/c", 0) {
        ControlWait::Failed(m) => assert_eq!(m, "supervisor is no longer running"),
        _ => panic!("expected a failure"),
    }
    assert!(matches!(control_wait_step(true, Some(&live), "/c", 100), ControlWait::Waiting));
}

#[test]
fn test_control_plans() {
    assert!(matches!(control_plan(&request("stop", None)), ControlPlan::Shutdown));
    assert!(matches!(control_plan(&request("restart_service", Some("db"))), ControlPlan::RestartService(ref s) if s == "db"));
    match control_plan(&request("start_service", None)) {
        ControlPlan::Reject(m) => assert_eq!(m, "Missing service name for start_service request"),
        _ => panic!("expected a rejection"),
    }
    match control_plan(&request("dance", None)) {
        ControlPlan::Reject(m) => assert_eq!(m, "Unknown control action 'dance'"),
        _ => panic!("expected a rejection"),
    }
}

#[test]
fn test_runtime_state_events() {
    let mut services = ServiceMap::new();
    services.insert(
        "api".to_string(),
        ServiceConfig { command: "run".to_string(), depends_on: vec![], ready_when: None, env_file: None },
    );
    let config = DmnConfig { version: "1".to_string(), services };
    let mut st = RuntimeState::new("/c".to_string(), 10, &config);
    assert_eq!(st.services, vec![("api".to_string(), "not_started".to_string())]);
    assert!(st.apply_event(&OrchestratorEvent::ServiceStarting { service: "api".to_string() }, 11));
    assert_eq!(st.services[0].1, "starting");
    assert_eq!(st.heartbeat_unix, 11);
    assert!(st.apply_event(
        &OrchestratorEvent::ServiceFailed { service: "api".to_string(), error: "boom\nmore".to_string() },
        12
    ));
    assert_eq!(st.services[0].1, "failed: boom");
    assert!(!st.apply_event(&OrchestratorEvent::Error { message: "x".to_string(), category: "GRAPH".to_string() }, 13));
    assert_eq!(st.heartbeat_unix, 12);
    st.mark_all_stopped(14);
    assert_eq!(st.services[0].1, "stopped");
}

#[test]
fn test_status_report_rows() {
    let live = state("/c", 100);
    let names = vec!["web".to_string(), "api".to_string()];
    let report = status_report(names, None, Some(&live), "/c", 100);
    assert!(report.supervisor_running);
    assert!(!report.stale_note);
    assert_eq!(report.rows, vec![("api".to_string(), "Running".to_string()), ("web".to_string(), "Not Started".to_string())]);
    let stale = status_report(vec!["api".to_string()], Some("api"), Some(&live), "/c", 500);
    assert!(!stale.supervisor_running);
    assert!(stale.stale_note);
    assert_eq!(stale.rows, vec![("api".to_string(), "Not Started".to_string())]);
}

#[test]
fn test_daemon_status_rows() {
    let result = JsonValue::Object(vec![(
        "services".to_string(),
        JsonValue::Object(vec![
            ("web".to_string(), JsonValue::string("running")),
            ("api".to_string(), JsonValue::Null),
        ]),
    )]);
    let rows = daemon_status_rows(&result, None).unwrap();
    assert_eq!(rows, vec![("api".to_string(), "unknown".to_string()), ("web".to_string(), "Running".to_string())]);
    assert_eq!(daemon_status_rows(&result, Some("db")).unwrap_err(), "Service 'db' not found in configuration.");
    assert_eq!(daemon_status_rows(&JsonValue::Null, None).unwrap_err(), "Invalid status response from extension daemon.");
}
