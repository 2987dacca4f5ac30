use opendaemon::json::JsonValue;
use opendaemon::logs::{LogLine, LogStream, LogTimestamp};
use opendaemon::orchestrator::OrchestratorEvent;
use opendaemon::process::ServiceStatus;
use opendaemon::rpc::{
    action_response, event_to_notification, logs_response, status_response, JsonRpcNotification, JsonRpcRequest,
    LogLinesParam, RpcError, RpcRequest,
};

fn obj(members: Vec<(&str, JsonValue)>) -> JsonValue {
    JsonValue::Object(members.into_iter().map(|(k, v)| (k.to_string(), v)).collect())
}

fn request(id: u64, method: &str, params: Option<JsonValue>) -> JsonRpcRequest {
    JsonRpcRequest { jsonrpc: "2.0".to_string(), id, method: method.to_string(), params }
}

#[test]
fn test_rpc_error_codes() {
    let err = RpcError::parse_error("Invalid JSON");
    assert_eq!(err.code, -32700);
    let err = RpcError::invalid_request("Bad request");
    assert_eq!(err.code, -32600);
    let err = RpcError::method_not_found("unknownMethod");
    assert_eq!(err.code, -32601);
    let err = RpcError::invalid_params("Missing param");
    assert_eq!(err.code, -32602);
    let err = RpcError::internal_error("Internal error");
    assert_eq!(err.code, -32603);
}

#[test]
fn test_method_not_found_message() {
    let err = RpcError::method_not_found("frobnicate");
    assert_eq!(err.message, "Method not found: frobnicate");
    assert!(err.data.is_none());
}

#[test]
fn test_parse_start_all_request() {
    let req = RpcRequest::from_json_rpc(&request(1, "startAll", None)).unwrap();
    assert_eq!(req, RpcRequest::StartAll);
}

#[test]
fn test_parse_stop_all_request() {
    let req = RpcRequest::from_json_rpc(&request(2, "stopAll", None)).unwrap();
    assert_eq!(req, RpcRequest::StopAll);
}

#[test]
fn test_parse_start_service_request() {
    let params = obj(vec![("service", JsonValue::string("backend"))]);
    let req = RpcRequest::from_json_rpc(&request(3, "startService", Some(params))).unwrap();
    assert_eq!(req, RpcRequest::StartService { service: "backend".to_string() });
}

#[test]
fn test_parse_stop_service_request() {
    let params = obj(vec![("service", JsonValue::string("frontend"))]);
    let req = RpcRequest::from_json_rpc(&request(4, "stopService", Some(params))).unwrap();
    assert_eq!(req, RpcRequest::StopService { service: "frontend".to_string() });
}

#[test]
fn test_parse_restart_service_request() {
    let params = obj(vec![("service", JsonValue::string("database"))]);
    let req = RpcRequest::from_json_rpc(&request(5, "restartService", Some(params))).unwrap();
    assert_eq!(req, RpcRequest::RestartService { service: "database".to_string() });
}

#[test]
fn test_parse_get_status_request() {
    let req = RpcRequest::from_json_rpc(&request(6, "getStatus", None)).unwrap();
    assert_eq!(req, RpcRequest::GetStatus);
}

#[test]
fn test_parse_get_logs_request_with_count() {
    let params = obj(vec![("service", JsonValue::string("backend")), ("lines", JsonValue::unsigned(100))]);
    let req = RpcRequest::from_json_rpc(&request(7, "getLogs", Some(params))).unwrap();
    match req {
        RpcRequest::GetLogs { service, lines } => {
            assert_eq!(service, "backend");
            assert_eq!(lines.count(), Some(100));
        }
        _ => panic!("Expected GetLogs request"),
    }
}

#[test]
fn test_parse_get_logs_request_with_all() {
    let params = obj(vec![("service", JsonValue::string("frontend")), ("lines", JsonValue::string("all"))]);
    let req = RpcRequest::from_json_rpc(&request(8, "getLogs", Some(params))).unwrap();
    match req {
        RpcRequest::GetLogs { service, lines } => {
            assert_eq!(service, "frontend");
            assert!(lines.is_all());
        }
        _ => panic!("Expected GetLogs request"),
    }
}

#[test]
fn test_parse_get_logs_request_default_all() {
    let params = obj(vec![("service", JsonValue::string("database"))]);
    let req = RpcRequest::from_json_rpc(&request(9, "getLogs", Some(params))).unwrap();
    match req {
        RpcRequest::GetLogs { service, lines } => {
            assert_eq!(service, "database");
            assert!(lines.is_all());
        }
        _ => panic!("Expected GetLogs request"),
    }
}

#[test]
fn test_parse_unknown_method() {
    let result = RpcRequest::from_json_rpc(&request(10, "unknownMethod", None));
    assert!(result.is_err());
    let err = result.unwrap_err();
    assert_eq!(err.code, -32601);
}

#[test]
fn test_parse_missing_params() {
    let result = RpcRequest::from_json_rpc(&request(11, "startService", None));
    assert!(result.is_err());
    let err = result.unwrap_err();
    assert_eq!(err.code, -32602);
}

#[test]
fn test_parse_invalid_service_param() {
    let params = obj(vec![("wrong_key", JsonValue::string("value"))]);
    let result = RpcRequest::from_json_rpc(&request(12, "startService", Some(params)));
    assert!(result.is_err());
    let err = result.unwrap_err();
    assert_eq!(err.code, -32602);
}

#[test]
fn test_json_rpc_notification() {
    let notification = JsonRpcNotification::new("serviceStarted", obj(vec![("service", JsonValue::string("backend"))]));
    assert_eq!(notification.jsonrpc, "2.0");
    assert_eq!(notification.method, "serviceStarted");
}

#[test]
fn test_log_lines_param_selection() {
    assert_eq!(LogLinesParam::from_json(&JsonValue::unsigned(5)), Some(LogLinesParam::Count(5)));
    assert!(LogLinesParam::from_json(&JsonValue::string("all")).unwrap().is_all());
    assert_eq!(LogLinesParam::from_json(&JsonValue::Bool(true)), None);
}

#[test]
fn test_event_to_notification_service_starting() {
    let event = OrchestratorEvent::ServiceStarting { service: "backend".to_string() };
    let notification = event_to_notification(event).unwrap();
    assert_eq!(notification.method, "serviceStarting");
    assert_eq!(notification.params.get_str("service"), Some("backend"));
}

#[test]
fn test_event_to_notification_service_ready() {
    let event = OrchestratorEvent::ServiceReady { service: "database".to_string() };
    let notification = event_to_notification(event).unwrap();
    assert_eq!(notification.method, "serviceReady");
    assert_eq!(notification.params.get_str("service"), Some("database"));
}

#[test]
fn test_event_to_notification_service_failed() {
    let event =
        OrchestratorEvent::ServiceFailed { service: "frontend".to_string(), error: "Connection refused".to_string() };
    let notification = event_to_notification(event).unwrap();
    assert_eq!(notification.method, "serviceFailed");
    assert_eq!(notification.params.get_str("service"), Some("frontend"));
    assert_eq!(notification.params.get_str("error"), Some("Connection refused"));
}

#[test]
fn test_event_to_notification_service_stopped() {
    let event = OrchestratorEvent::ServiceStopped { service: "backend".to_string() };
    let notification = event_to_notification(event).unwrap();
    assert_eq!(notification.method, "serviceStopped");
    assert_eq!(notification.params.get_str("service"), Some("backend"));
}

#[test]
fn test_event_to_notification_log_line() {
    let log_line = LogLine::new("Server started on port 3000".to_string(), LogStream::Stdout);
    let event = OrchestratorEvent::LogLine { service: "backend".to_string(), line: log_line };
    let notification = event_to_notification(event).unwrap();
    assert_eq!(notification.method, "logLine");
    assert_eq!(notification.params.get_str("service"), Some("backend"));
    assert_eq!(notification.params.get_str("content"), Some("Server started on port 3000"));
    assert_eq!(notification.params.get_str("stream"), Some("stdout"));
    assert!(notification.params.get("timestamp").is_some());
}

#[test]
fn test_error_events_are_not_forwarded() {
    let event = OrchestratorEvent::Error { message: "boom".to_string(), category: "GRAPH".to_string() };
    assert!(event_to_notification(event).is_none());
}

#[test]
fn test_action_response_success_and_failure() {
    let req = RpcRequest::StartService { service: "api".to_string() };
    let ok = action_response(3, &req, Ok(()));
    assert_eq!(ok.id, 3);
    assert!(ok.error.is_none());
    assert!(ok.result.is_some());
    let failed = action_response(4, &req, Err("spawn failed".to_string()));
    assert_eq!(failed.id, 4);
    assert!(failed.result.is_none());
    let e = failed.error.unwrap();
    assert_eq!(e.code, -32603);
    assert_eq!(e.message, "spawn failed");
}

#[test]
fn test_status_response_lists_services() {
    let statuses = vec![("db".to_string(), ServiceStatus::Running), ("api".to_string(), ServiceStatus::Stopped)];
    let resp = status_response(9, &statuses);
    let result = resp.result.unwrap();
    assert!(result.is_object());
}

#[test]
fn test_logs_response_unknown_service() {
    let resp = logs_response(2, "ghost", false, &Vec::new());
    assert!(resp.result.is_none());
    let e = resp.error.unwrap();
    assert_eq!(e.code, -32001);
    assert_eq!(e.message, "Service not found: ghost");
    let lines = vec![LogLine::new("hello".to_string(), LogStream::Stderr)];
    let ok = logs_response(3, "api", true, &lines);
    let result = ok.result.unwrap();
    assert_eq!(result.get_str("service"), Some("api"));
}

#[test]
fn test_log_line_notification_timestamp_is_whole_seconds() {
    let line = LogLine {
        timestamp: LogTimestamp::SinceEpoch { secs: 1700000000, nanos: 250_000_000 },
        content: "ready".to_string(),
        stream: LogStream::Stderr,
    };
    let event = OrchestratorEvent::LogLine { service: "db".to_string(), line };
    let notification = event_to_notification(event).unwrap();
    match notification.params.get("timestamp") {
        Some(JsonValue::Number(n)) => {
            assert_eq!(n.unsigned, Some(1700000000));
            assert_eq!(n.text, "1700000000");
        }
        _ => panic!("expected a numeric timestamp"),
    }
    assert_eq!(notification.params.get_str("stream"), Some("stderr"));
}

#[test]
fn test_status_response_labels() {
    let statuses = vec![
        ("db".to_string(), ServiceStatus::Running),
        ("api".to_string(), ServiceStatus::Failed { exit_code: 2 }),
    ];
    let resp = status_response(9, &statuses);
    let services = resp.result.unwrap().get("services").map(|s| s.get_str("api").map(|x| x.to_string()));
    assert_eq!(services, Some(Some("failed (exit code: 2)".to_string())));
    let resp = status_response(9, &statuses);
    let result = resp.result.unwrap();
    assert_eq!(result.get("services").and_then(|s| s.get_str("db")), Some("running"));
}

#[test]
fn test_logs_response_lists_lines() {
    let lines = vec![
        LogLine::new("first".to_string(), LogStream::Stdout),
        LogLine::new("second".to_string(), LogStream::Stderr),
    ];
    let resp = logs_response(5, "api", true, &lines);
    let result = resp.result.unwrap();
    match result.get("logs") {
        Some(JsonValue::Array(items)) => {
            assert_eq!(items.len(), 2);
            assert_eq!(items[0].get_str("content"), Some("first"));
            assert_eq!(items[1].get_str("stream"), Some("stderr"));
        }
        _ => panic!("expected log entries"),
    }
}

#[test]
fn test_action_response_names_the_service() {
    let req = RpcRequest::RestartService { service: "api".to_string() };
    let resp = action_response(1, &req, Ok(()));
    let result = resp.result.unwrap();
    assert_eq!(result.get_str("status"), Some("restarted"));
    assert_eq!(result.get_str("service"), Some("api"));
    let all = action_response(2, &RpcRequest::StopAll, Ok(()));
    let result = all.result.unwrap();
    assert_eq!(result.get_str("status"), Some("stopped"));
    assert!(result.get("service").is_none());
}
