use opendaemon::config::{DmnConfig, ServiceConfig, ServiceMap};
use opendaemon::graph::{GraphError, ServiceGraph};

fn svc(command: &str, deps: &[&str]) -> ServiceConfig {
    ServiceConfig {
        command: command.to_string(),
        depends_on: deps.iter().map(|d| d.to_string()).collect(),
        ready_when: None,
        env_file: None,
    }
}

fn config(services: Vec<(&str, ServiceConfig)>) -> DmnConfig {
    let mut map = ServiceMap::new();
    for (name, cfg) in services {
        map.insert(name.to_string(), cfg);
    }
    DmnConfig { version: "1.0".to_string(), services: map }
}

fn pos(order: &[String], name: &str) -> usize {
    order.iter().position(|s| s == name).unwrap()
}

#[test]
fn test_graph_construction_single_service() {
    let cfg = config(vec![("app", svc("npm start", &[]))]);
    let graph = ServiceGraph::from_config(&cfg).unwrap();
    assert_eq!(graph.node_count(), 1);
    assert!(graph.contains_service("app"));
    assert_eq!(graph.edge_count(), 0);
}

#[test]
fn test_graph_construction_linear_dependencies() {
    let cfg = config(vec![
        ("database", svc("postgres", &[])),
        ("backend", svc("cargo run", &["database"])),
        ("frontend", svc("npm start", &["backend"])),
    ]);
    let graph = ServiceGraph::from_config(&cfg).unwrap();
    assert_eq!(graph.node_count(), 3);
    assert_eq!(graph.edge_count(), 2);
}

#[test]
fn test_graph_construction_multiple_dependencies() {
    let cfg = config(vec![
        ("database", svc("postgres", &[])),
        ("redis", svc("redis-server", &[])),
        ("backend", svc("cargo run", &["database", "redis"])),
    ]);
    let graph = ServiceGraph::from_config(&cfg).unwrap();
    assert_eq!(graph.node_count(), 3);
    assert_eq!(graph.edge_count(), 2);
}

#[test]
fn test_graph_construction_missing_dependency() {
    let cfg = config(vec![("frontend", svc("npm start", &["backend"]))]);
    let result = ServiceGraph::from_config(&cfg);
    assert!(result.is_err());
    match result {
        Err(GraphError::ServiceNotFound(service)) => assert_eq!(service, "backend"),
        _ => panic!("Expected ServiceNotFound error"),
    }
}

#[test]
fn test_graph_construction_complex_dependencies() {
    let cfg = config(vec![
        ("db", svc("postgres", &[])),
        ("cache", svc("redis", &[])),
        ("api", svc("api-server", &["db", "cache"])),
        ("worker", svc("worker", &["db", "cache"])),
        ("web", svc("web-server", &["api"])),
    ]);
    let graph = ServiceGraph::from_config(&cfg).unwrap();
    assert_eq!(graph.node_count(), 5);
    assert_eq!(graph.edge_count(), 5);
}

#[test]
fn test_cycle_detection_direct_cycle() {
    let cfg = config(vec![("service_a", svc("echo a", &["service_b"])), ("service_b", svc("echo b", &["service_a"]))]);
    let result = ServiceGraph::from_config(&cfg);
    assert!(result.is_err());
    match result {
        Err(GraphError::CyclicDependency(msg)) => assert!(msg.contains("service_a") || msg.contains("service_b")),
        _ => panic!("Expected CyclicDependency error"),
    }
}

#[test]
fn test_cycle_detection_indirect_cycle() {
    let cfg = config(vec![("a", svc("echo a", &["b"])), ("b", svc("echo b", &["c"])), ("c", svc("echo c", &["a"]))]);
    let result = ServiceGraph::from_config(&cfg);
    assert!(result.is_err());
    match result {
        Err(GraphError::CyclicDependency(msg)) => assert!(!msg.is_empty()),
        _ => panic!("Expected CyclicDependency error"),
    }
}

#[test]
fn test_cycle_detection_self_dependency() {
    let cfg = config(vec![("service", svc("echo self", &["service"]))]);
    let result = ServiceGraph::from_config(&cfg);
    assert!(result.is_err());
}

#[test]
fn test_no_cycle_in_acyclic_graph() {
    let cfg = config(vec![
        ("db", svc("postgres", &[])),
        ("backend", svc("cargo run", &["db"])),
        ("frontend", svc("npm start", &["backend"])),
    ]);
    let result = ServiceGraph::from_config(&cfg);
    assert!(result.is_ok());
}

#[test]
fn test_cycle_detection_complex_cycle() {
    let cfg = config(vec![
        ("a", svc("echo a", &["b"])),
        ("b", svc("echo b", &["c", "d"])),
        ("c", svc("echo c", &[])),
        ("d", svc("echo d", &["a"])),
    ]);
    let result = ServiceGraph::from_config(&cfg);
    assert!(result.is_err());
    match result {
        Err(GraphError::CyclicDependency(_)) => {}
        _ => panic!("Expected CyclicDependency error"),
    }
}

#[test]
fn test_topological_sort_linear() {
    let cfg = config(vec![
        ("database", svc("postgres", &[])),
        ("backend", svc("cargo run", &["database"])),
        ("frontend", svc("npm start", &["backend"])),
    ]);
    let graph = ServiceGraph::from_config(&cfg).unwrap();
    let start_order = graph.get_start_order().unwrap();
    assert_eq!(start_order.len(), 3);
    let db_pos = pos(&start_order, "database");
    let backend_pos = pos(&start_order, "backend");
    let frontend_pos = pos(&start_order, "frontend");
    assert!(db_pos < backend_pos);
    assert!(backend_pos < frontend_pos);
}

#[test]
fn test_topological_sort_parallel_dependencies() {
    let cfg = config(vec![
        ("db", svc("postgres", &[])),
        ("redis", svc("redis-server", &[])),
        ("backend", svc("cargo run", &["db", "redis"])),
    ]);
    let graph = ServiceGraph::from_config(&cfg).unwrap();
    let start_order = graph.get_start_order().unwrap();
    assert_eq!(start_order.len(), 3);
    assert!(pos(&start_order, "db") < pos(&start_order, "backend"));
    assert!(pos(&start_order, "redis") < pos(&start_order, "backend"));
}

#[test]
fn test_topological_sort_complex() {
    let cfg = config(vec![
        ("db", svc("postgres", &[])),
        ("cache", svc("redis", &[])),
        ("api", svc("api-server", &["db", "cache"])),
        ("worker", svc("worker", &["db", "cache"])),
        ("web", svc("web-server", &["api"])),
    ]);
    let graph = ServiceGraph::from_config(&cfg).unwrap();
    let start_order = graph.get_start_order().unwrap();
    assert_eq!(start_order.len(), 5);
    let db_pos = pos(&start_order, "db");
    let cache_pos = pos(&start_order, "cache");
    let api_pos = pos(&start_order, "api");
    let worker_pos = pos(&start_order, "worker");
    let web_pos = pos(&start_order, "web");
    assert!(db_pos < api_pos);
    assert!(db_pos < worker_pos);
    assert!(cache_pos < api_pos);
    assert!(cache_pos < worker_pos);
    assert!(api_pos < web_pos);
}

#[test]
fn test_topological_sort_single_service() {
    let cfg = config(vec![("app", svc("npm start", &[]))]);
    let graph = ServiceGraph::from_config(&cfg).unwrap();
    let start_order = graph.get_start_order().unwrap();
    assert_eq!(start_order.len(), 1);
    assert_eq!(start_order[0], "app");
}

#[test]
fn test_get_dependencies() {
    let cfg = config(vec![
        ("db", svc("postgres", &[])),
        ("redis", svc("redis-server", &[])),
        ("backend", svc("cargo run", &["db", "redis"])),
    ]);
    let graph = ServiceGraph::from_config(&cfg).unwrap();
    let backend_deps = graph.get_dependencies("backend").unwrap();
    assert_eq!(backend_deps.len(), 2);
    assert!(backend_deps.contains(&"db".to_string()));
    assert!(backend_deps.contains(&"redis".to_string()));
    let db_deps = graph.get_dependencies("db").unwrap();
    assert_eq!(db_deps.len(), 0);
}

#[test]
fn test_get_dependencies_nonexistent_service() {
    let cfg = config(vec![("app", svc("npm start", &[]))]);
    let graph = ServiceGraph::from_config(&cfg).unwrap();
    let result = graph.get_dependencies("nonexistent");
    assert!(result.is_err());
    match result {
        Err(GraphError::ServiceNotFound(service)) => assert_eq!(service, "nonexistent"),
        _ => panic!("Expected ServiceNotFound error"),
    }
}

#[test]
fn test_get_dependents_linear() {
    let cfg = config(vec![
        ("database", svc("postgres", &[])),
        ("backend", svc("cargo run", &["database"])),
        ("frontend", svc("npm start", &["backend"])),
    ]);
    let graph = ServiceGraph::from_config(&cfg).unwrap();
    let db_dependents = graph.get_dependents("database").unwrap();
    assert_eq!(db_dependents.len(), 1);
    assert!(db_dependents.contains(&"backend".to_string()));
    let backend_dependents = graph.get_dependents("backend").unwrap();
    assert_eq!(backend_dependents.len(), 1);
    assert!(backend_dependents.contains(&"frontend".to_string()));
    let frontend_dependents = graph.get_dependents("frontend").unwrap();
    assert_eq!(frontend_dependents.len(), 0);
}

#[test]
fn test_get_dependents_multiple() {
    let cfg = config(vec![
        ("db", svc("postgres", &[])),
        ("api", svc("api-server", &["db"])),
        ("worker", svc("worker", &["db"])),
        ("scheduler", svc("scheduler", &["db"])),
    ]);
    let graph = ServiceGraph::from_config(&cfg).unwrap();
    let db_dependents = graph.get_dependents("db").unwrap();
    assert_eq!(db_dependents.len(), 3);
    assert!(db_dependents.contains(&"api".to_string()));
    assert!(db_dependents.contains(&"worker".to_string()));
    assert!(db_dependents.contains(&"scheduler".to_string()));
}

#[test]
fn test_get_dependents_complex() {
    let cfg = config(vec![
        ("db", svc("postgres", &[])),
        ("cache", svc("redis", &[])),
        ("api", svc("api-server", &["db", "cache"])),
        ("worker", svc("worker", &["db", "cache"])),
        ("web", svc("web-server", &["api"])),
    ]);
    let graph = ServiceGraph::from_config(&cfg).unwrap();
    let db_dependents = graph.get_dependents("db").unwrap();
    assert_eq!(db_dependents.len(), 2);
    assert!(db_dependents.contains(&"api".to_string()));
    assert!(db_dependents.contains(&"worker".to_string()));
    let cache_dependents = graph.get_dependents("cache").unwrap();
    assert_eq!(cache_dependents.len(), 2);
    assert!(cache_dependents.contains(&"api".to_string()));
    assert!(cache_dependents.contains(&"worker".to_string()));
    let api_dependents = graph.get_dependents("api").unwrap();
    assert_eq!(api_dependents.len(), 1);
    assert!(api_dependents.contains(&"web".to_string()));
    assert_eq!(graph.get_dependents("worker").unwrap().len(), 0);
    assert_eq!(graph.get_dependents("web").unwrap().len(), 0);
}

#[test]
fn test_get_dependents_no_dependents() {
    let cfg = config(vec![("app", svc("npm start", &[]))]);
    let graph = ServiceGraph::from_config(&cfg).unwrap();
    let dependents = graph.get_dependents("app").unwrap();
    assert_eq!(dependents.len(), 0);
}

#[test]
fn test_get_dependents_nonexistent_service() {
    let cfg = config(vec![("app", svc("npm start", &[]))]);
    let graph = ServiceGraph::from_config(&cfg).unwrap();
    let result = graph.get_dependents("nonexistent");
    assert!(result.is_err());
    match result {
        Err(GraphError::ServiceNotFound(service)) => assert_eq!(service, "nonexistent"),
        _ => panic!("Expected ServiceNotFound error"),
    }
}

#[test]
fn test_get_dependents_transitive() {
    let cfg = config(vec![("a", svc("echo a", &[])), ("b", svc("echo b", &["a"])), ("c", svc("echo c", &["b"]))]);
    let graph = ServiceGraph::from_config(&cfg).unwrap();
    let a_dependents = graph.get_dependents("a").unwrap();
    assert_eq!(a_dependents.len(), 1);
    assert!(a_dependents.contains(&"b".to_string()));
    assert!(!a_dependents.contains(&"c".to_string()));
}

#[test]
fn test_graph_cycle_agrees_with_validate() {
    let cfg = config(vec![("x", svc("a", &["y"])), ("y", svc("b", &["x"]))]);
    assert!(ServiceGraph::from_config(&cfg).is_err());
    assert!(cfg.check_circular_dependencies().is_err());
    let ok = config(vec![("x", svc("a", &[])), ("y", svc("b", &["x"]))]);
    assert!(ServiceGraph::from_config(&ok).is_ok());
    assert!(ok.check_circular_dependencies().is_ok());
}

#[test]
fn test_cycle_message_names_the_path() {
    let cfg = config(vec![("a", svc("x", &["b"])), ("b", svc("y", &["a"]))]);
    match ServiceGraph::from_config(&cfg) {
        Err(GraphError::CyclicDependency(msg)) => {
            assert!(msg.contains(" -> "));
            let e = GraphError::CyclicDependency(msg.clone());
            assert_eq!(e.to_string(), format!("Cyclic dependency detected: {}", msg));
        }
        _ => panic!("expected a cycle"),
    }
}

#[test]
fn test_dependencies_are_depends_on_last_first() {
    let c = config(vec![
        ("a", svc("run a", &[])),
        ("b", svc("run b", &[])),
        ("c", svc("run c", &["a", "b", "a"])),
    ]);
    let graph = ServiceGraph::from_config(&c).unwrap();
    assert_eq!(graph.get_dependencies("c").unwrap(), vec!["a".to_string(), "b".to_string(), "a".to_string()]);
    let d = config(vec![("x", svc("run x", &[])), ("y", svc("run y", &[])), ("z", svc("run z", &["x", "y"]))]);
    let graph = ServiceGraph::from_config(&d).unwrap();
    assert_eq!(graph.get_dependencies("z").unwrap(), vec!["y".to_string(), "x".to_string()]);
}
