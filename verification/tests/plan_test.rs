use opendaemon::auth::{AuthError, AuthManager};
use opendaemon::config::{DmnConfig, ServiceConfig, ServiceMap};
use opendaemon::daemon_client::{check_daemon_identity, daemon_reply, daemon_request, DaemonClientError};
use opendaemon::graph::{GraphError, ServiceGraph};
use opendaemon::json::JsonValue;
use opendaemon::orchestrator::{ready_timeout_error, OrchestratorError};
use opendaemon::plan::{plan_restart, plan_start, plan_start_all, plan_stop, plan_stop_all, StepKind};
use opendaemon::process::{ServiceStatus, StatusTable};
use opendaemon::rpc::{JsonRpcResponse, RpcError};

fn svc(deps: &[&str]) -> ServiceConfig {
    ServiceConfig {
        command: "run".to_string(),
        depends_on: deps.iter().map(|d| d.to_string()).collect(),
        ready_when: None,
        env_file: None,
    }
}

fn graph(services: Vec<(&str, &[&str])>) -> ServiceGraph {
    let mut map = ServiceMap::new();
    for (name, deps) in services {
        map.insert(name.to_string(), svc(deps));
    }
    ServiceGraph::from_config(&DmnConfig { version: "1.0".to_string(), services: map }).unwrap()
}

fn stack() -> ServiceGraph {
    graph(vec![("database", &[]), ("backend", &["database"]), ("frontend", &["backend"])])
}

#[test]
fn test_start_plan_launches_dependencies_first() {
    let g = stack();
    let statuses = StatusTable::new();
    let steps = plan_start(&g, &statuses, "frontend").unwrap();
    let described: Vec<(StepKind, String, usize)> =
        steps.iter().map(|s| (s.kind, s.service.clone(), s.depth)).collect();
    assert_eq!(
        described,
        vec![
            (StepKind::Launch, "database".to_string(), 2),
            (StepKind::AwaitReady, "database".to_string(), 1),
            (StepKind::Launch, "backend".to_string(), 1),
            (StepKind::AwaitReady, "backend".to_string(), 0),
            (StepKind::Launch, "frontend".to_string(), 0),
        ]
    );
}

#[test]
fn test_start_plan_skips_running_dependencies() {
    let g = stack();
    let mut statuses = StatusTable::new();
    statuses.set_status("database".to_string(), ServiceStatus::Running);
    let steps = plan_start(&g, &statuses, "backend").unwrap();
    assert_eq!(steps.len(), 2);
    assert_eq!(steps[0].kind, StepKind::AwaitReady);
    assert_eq!(steps[0].service, "database");
    assert_eq!(steps[1].kind, StepKind::Launch);
    assert_eq!(steps[1].service, "backend");
}

#[test]
fn test_start_plan_of_running_service_is_empty() {
    let g = stack();
    let mut statuses = StatusTable::new();
    statuses.set_status("frontend".to_string(), ServiceStatus::Starting);
    assert!(plan_start(&g, &statuses, "frontend").unwrap().is_empty());
}

#[test]
fn test_start_plan_unknown_service() {
    let g = stack();
    match plan_start(&g, &StatusTable::new(), "ghost") {
        Err(e) => assert_eq!(e.to_string(), "Service not found: ghost"),
        Ok(_) => panic!("expected an error"),
    }
}

#[test]
fn test_shared_dependency_is_launched_once() {
    let g = graph(vec![("db", &[]), ("api", &["db"]), ("worker", &["db"]), ("web", &["api", "worker"])]);
    let steps = plan_start(&g, &StatusTable::new(), "web").unwrap();
    let launches: Vec<&str> =
        steps.iter().filter(|s| s.kind == StepKind::Launch).map(|s| s.service.as_str()).collect();
    assert_eq!(launches.iter().filter(|s| **s == "db").count(), 1);
    assert_eq!(launches.len(), 4);
    assert_eq!(*launches.last().unwrap(), "web");
}

#[test]
fn test_start_all_launches_every_stopped_service() {
    let g = stack();
    let mut statuses = StatusTable::new();
    statuses.set_status("database".to_string(), ServiceStatus::Running);
    statuses.set_status("backend".to_string(), ServiceStatus::Failed { exit_code: 1 });
    let steps = plan_start_all(&g, &statuses);
    let launches: Vec<&str> =
        steps.iter().filter(|s| s.kind == StepKind::Launch).map(|s| s.service.as_str()).collect();
    assert_eq!(launches, vec!["backend", "frontend"]);
    assert!(steps.iter().all(|s| s.depth >= 1));
}

#[test]
fn test_stop_plan_stops_dependents_first() {
    let g = stack();
    let mut statuses = StatusTable::new();
    statuses.set_status("database".to_string(), ServiceStatus::Running);
    statuses.set_status("backend".to_string(), ServiceStatus::Running);
    statuses.set_status("frontend".to_string(), ServiceStatus::Starting);
    let steps = plan_stop(&g, &statuses, "database").unwrap();
    let names: Vec<(&str, usize)> = steps.iter().map(|s| (s.service.as_str(), s.depth)).collect();
    assert_eq!(names, vec![("frontend", 2), ("backend", 1), ("database", 0)]);
}

#[test]
fn test_stop_plan_skips_stopped_services() {
    let g = stack();
    let mut statuses = StatusTable::new();
    statuses.set_status("database".to_string(), ServiceStatus::Running);
    statuses.set_status("backend".to_string(), ServiceStatus::Stopped);
    let steps = plan_stop(&g, &statuses, "database").unwrap();
    assert_eq!(steps.len(), 1);
    assert_eq!(steps[0].service, "database");
    assert!(plan_stop(&g, &statuses, "backend").unwrap().is_empty());
    assert!(plan_stop(&g, &statuses, "nope").is_err());
}

#[test]
fn test_stop_all_stops_every_active_service_once() {
    let g = stack();
    let mut statuses = StatusTable::new();
    statuses.set_status("database".to_string(), ServiceStatus::Running);
    statuses.set_status("frontend".to_string(), ServiceStatus::Running);
    let steps = plan_stop_all(&g, &statuses);
    let names: Vec<&str> = steps.iter().map(|s| s.service.as_str()).collect();
    assert_eq!(names, vec!["frontend", "database"]);
}

#[test]
fn test_orchestrator_error_texts() {
    let e = OrchestratorError::Graph(GraphError::ServiceNotFound("db".to_string()));
    assert_eq!(e.to_string(), "Graph error: Service not found: db");
    assert_eq!(e.category(), "GRAPH");
    let t = ready_timeout_error("api");
    assert_eq!(t.to_string(), "Ready watcher error: Timeout waiting for service 'api' to be ready");
    assert_eq!(t.category(), "READY");
}

#[test]
fn test_auth_manager_starts_unauthenticated() {
    let manager = AuthManager::new();
    assert!(!manager.is_authenticated());
    assert_eq!(AuthError::NotAuthenticated.to_string(), "Authentication required");
    assert_eq!(AuthError::InvalidToken.to_string(), "Invalid token");
}

#[test]
fn test_daemon_client_decisions() {
    let req = daemon_request("getStatus", None);
    assert_eq!(req.id, 1);
    assert_eq!(req.jsonrpc, "2.0");
    assert_eq!(req.method, "getStatus");
    assert!(check_daemon_identity("/a/dmn.json", "/a/dmn.json").is_ok());
    assert!(matches!(check_daemon_identity("/a/dmn.json", "/b/dmn.json"), Err(DaemonClientError::NotAvailable)));
    let err = JsonRpcResponse::error(1, RpcError::internal_error("boom"));
    match daemon_reply(err) {
        Err(e) => assert_eq!(e.to_string(), "daemon returned RPC error: boom"),
        Ok(_) => panic!("expected an error"),
    }
    let empty = JsonRpcResponse { jsonrpc: "2.0".to_string(), id: 1, result: None, error: None };
    assert!(matches!(daemon_reply(empty), Ok(JsonValue::Null)));
}

#[test]
fn test_plans_touch_only_related_services() {
    let g = graph(vec![("db", &[]), ("api", &["db"]), ("worker", &["db"]), ("tool", &[])]);
    let steps = plan_start(&g, &StatusTable::new(), "api").unwrap();
    assert!(steps.iter().all(|s| s.service == "db" || s.service == "api"));
    let mut statuses = StatusTable::new();
    for name in ["db", "api", "worker", "tool"] {
        statuses.set_status(name.to_string(), ServiceStatus::Running);
    }
    let stops = plan_stop(&g, &statuses, "api").unwrap();
    let names: Vec<&str> = stops.iter().map(|s| s.service.as_str()).collect();
    assert_eq!(names, vec!["api"]);
    let db_stops = plan_stop(&g, &statuses, "db").unwrap();
    assert_eq!(db_stops.len(), 3);
    assert_eq!(db_stops.last().unwrap().service, "db");
    assert!(db_stops.iter().all(|s| s.service != "tool"));
}

#[test]
fn test_restart_plan_restarts_dependents() {
    let g = stack();
    let mut statuses = StatusTable::new();
    statuses.set_status("database".to_string(), ServiceStatus::Running);
    statuses.set_status("backend".to_string(), ServiceStatus::Running);
    statuses.set_status("frontend".to_string(), ServiceStatus::Running);
    let (stops, starts) = plan_restart(&g, &statuses, "database").unwrap();
    let stopped: Vec<&str> = stops.iter().map(|s| s.service.as_str()).collect();
    assert_eq!(stopped, vec!["frontend", "backend", "database"]);
    assert_eq!(starts, vec!["database", "backend", "frontend"]);
}

#[test]
fn test_restart_plan_of_a_stopped_service_starts_it() {
    let g = stack();
    let statuses = StatusTable::new();
    let (stops, starts) = plan_restart(&g, &statuses, "backend").unwrap();
    assert!(stops.is_empty());
    assert_eq!(starts, vec!["backend"]);
    match plan_restart(&g, &statuses, "nope") {
        Err(OrchestratorError::ServiceNotFound(name)) => assert_eq!(name, "nope"),
        _ => panic!("expected ServiceNotFound"),
    }
}

#[test]
fn test_repeated_start_and_stop_plan_nothing() {
    let g = stack();
    let mut statuses = StatusTable::new();
    statuses.set_status("database".to_string(), ServiceStatus::Running);
    statuses.set_status("backend".to_string(), ServiceStatus::Starting);
    assert!(plan_start(&g, &statuses, "backend").unwrap().is_empty());
    assert!(plan_stop(&g, &statuses, "frontend").unwrap().is_empty());
}
