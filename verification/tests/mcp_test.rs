use opendaemon::json::JsonValue;
use opendaemon::mcp::{DmnMcpServer, McpDispatch, McpRequest, McpResponse, McpToolCall, McpToolResult, ToolKind};

fn request(id: u64, method: &str, params: Option<JsonValue>) -> McpRequest {
    McpRequest { jsonrpc: "2.0".to_string(), id: Some(JsonValue::unsigned(id)), method: method.to_string(), params }
}

fn call(name: &str) -> McpToolCall {
    McpToolCall { name: name.to_string(), arguments: JsonValue::Object(Vec::new()) }
}

#[test]
fn test_mcp_server_new() {
    let server = DmnMcpServer::new();
    assert!(!server.is_authenticated());
}

#[test]
fn test_mcp_server_new_authenticated() {
    let server = DmnMcpServer::new_authenticated();
    assert!(server.is_authenticated());
}

#[test]
fn test_set_authenticated() {
    let mut server = DmnMcpServer::new();
    assert!(!server.is_authenticated());
    server.set_authenticated(true);
    assert!(server.is_authenticated());
    server.set_authenticated(false);
    assert!(!server.is_authenticated());
}

#[test]
fn test_get_tools() {
    let server = DmnMcpServer::new();
    let tools = server.get_tools();
    assert_eq!(tools.len(), 7);
    assert!(tools.iter().any(|t| t.name == "read_logs"));
    assert!(tools.iter().any(|t| t.name == "watch_logs"));
    assert!(tools.iter().any(|t| t.name == "get_service_status"));
    assert!(tools.iter().any(|t| t.name == "list_services"));
    assert!(tools.iter().any(|t| t.name == "start_service"));
    assert!(tools.iter().any(|t| t.name == "stop_service"));
    assert!(tools.iter().any(|t| t.name == "restart_service"));
}

#[test]
fn test_config_path_is_kept() {
    let server = DmnMcpServer::new_authenticated().with_config_path("/work/dmn.json");
    assert!(server.is_authenticated());
    assert_eq!(server.config_path(), Some("/work/dmn.json"));
    assert_eq!(DmnMcpServer::new().config_path(), None);
}

#[test]
fn test_tool_call_requires_authentication() {
    let server = DmnMcpServer::new();
    match server.tool_call_plan(&call("list_services")) {
        Err(McpToolResult::Error { error }) => assert_eq!(error, "Authentication required"),
        _ => panic!("expected the authentication error"),
    }
}

#[test]
fn test_tool_call_unknown_tool() {
    let server = DmnMcpServer::new_authenticated();
    match server.tool_call_plan(&call("nonexistent_tool")) {
        Err(McpToolResult::Error { error }) => assert_eq!(error, "Unknown tool: nonexistent_tool"),
        _ => panic!("expected the unknown tool error"),
    }
    assert_eq!(server.tool_call_plan(&call("read_logs")).ok(), Some(ToolKind::ReadLogs));
    assert_eq!(server.tool_call_plan(&call("restart_service")).ok(), Some(ToolKind::RestartService));
}

#[test]
fn test_handle_request_tools_list() {
    let server = DmnMcpServer::new_authenticated();
    match server.handle_request(request(1, "tools/list", None), "1.2.3") {
        McpDispatch::Reply(response) => {
            assert_eq!(response.jsonrpc, "2.0");
            assert!(response.error.is_none());
            let result = response.result.unwrap();
            match result.get("tools") {
                Some(JsonValue::Array(items)) => {
                    assert_eq!(items.len(), 7);
                    assert_eq!(items[0].get_str("name"), Some("read_logs"));
                }
                _ => panic!("expected a tools array"),
            }
        }
        McpDispatch::CallTool { .. } => panic!("expected a reply"),
    }
}

#[test]
fn test_handle_request_initialize() {
    let server = DmnMcpServer::new();
    match server.handle_request(request(1, "initialize", None), "0.9.0") {
        McpDispatch::Reply(response) => {
            let result = response.result.unwrap();
            assert_eq!(result.get_str("protocolVersion"), Some("2025-06-18"));
            let info = result.get("serverInfo").unwrap();
            assert_eq!(info.get_str("name"), Some("opendaemon"));
            assert_eq!(info.get_str("version"), Some("0.9.0"));
        }
        McpDispatch::CallTool { .. } => panic!("expected a reply"),
    }
}

#[test]
fn test_handle_request_ping_and_notifications() {
    let server = DmnMcpServer::new();
    for method in ["ping", "notifications/initialized", "notifications/cancelled"] {
        match server.handle_request(request(2, method, None), "1") {
            McpDispatch::Reply(response) => {
                assert!(response.error.is_none());
                match response.result {
                    Some(JsonValue::Object(members)) => assert!(members.is_empty()),
                    _ => panic!("expected an empty object"),
                }
            }
            McpDispatch::CallTool { .. } => panic!("expected a reply"),
        }
    }
}

#[test]
fn test_handle_request_unknown_method() {
    let server = DmnMcpServer::new_authenticated();
    match server.handle_request(request(5, "unknown/method", None), "1") {
        McpDispatch::Reply(response) => {
            assert_eq!(response.jsonrpc, "2.0");
            assert!(response.result.is_none());
            let error = response.error.unwrap();
            assert_eq!(error.code, -32601);
            assert!(error.message.contains("Method not found"));
        }
        McpDispatch::CallTool { .. } => panic!("expected a reply"),
    }
}

#[test]
fn test_handle_request_tools_call_missing_params() {
    let server = DmnMcpServer::new_authenticated();
    match server.handle_request(request(6, "tools/call", None), "1") {
        McpDispatch::Reply(response) => {
            assert!(response.result.is_none());
            let error = response.error.unwrap();
            assert_eq!(error.code, -32602);
            assert!(error.message.contains("Missing params"));
        }
        McpDispatch::CallTool { .. } => panic!("expected a reply"),
    }
}

#[test]
fn test_handle_request_tools_call_with_params() {
    let server = DmnMcpServer::new_authenticated();
    let params = JsonValue::string("invalid");
    match server.handle_request(request(7, "tools/call", Some(params)), "1") {
        McpDispatch::CallTool { params, .. } => assert_eq!(params.as_str(), Some("invalid")),
        McpDispatch::Reply(_) => panic!("expected a tool call"),
    }
    let r = McpResponse::invalid_params(None, "invalid type: string");
    let e = r.error.unwrap();
    assert_eq!(e.code, -32602);
    assert_eq!(e.message, "Invalid params: invalid type: string");
}

#[test]
fn test_parse_error_response() {
    let r = McpResponse::parse_error("expected value at line 1");
    assert!(r.id.is_none());
    let e = r.error.unwrap();
    assert_eq!(e.code, -32700);
    assert_eq!(e.message, "Parse error: expected value at line 1");
}

fn strings_of(v: Option<&JsonValue>) -> Vec<String> {
    match v {
        Some(JsonValue::Array(items)) => items.iter().map(|i| i.as_str().unwrap().to_string()).collect(),
        _ => panic!("expected an array of strings"),
    }
}

#[test]
fn test_tool_listing_content() {
    let tools = DmnMcpServer::new().get_tools();
    assert_eq!(tools[0].name, "read_logs");
    assert_eq!(tools[0].description, "Read buffered logs from a specific service");
    assert_eq!(strings_of(tools[0].input_schema.get("required")), vec!["service", "lines"]);
    match tools[0].annotations.as_ref().and_then(|a| a.get("readOnlyHint")) {
        Some(JsonValue::Bool(true)) => {}
        _ => panic!("read_logs should be read-only"),
    }
    assert!(tools[4].annotations.is_none());
    assert_eq!(tools[5].description, "Stop a running service");
    let watch = &tools[1].input_schema;
    assert_eq!(strings_of(watch.get("required")), vec!["service"]);
    let duration = watch.get("properties").and_then(|p| p.get("durationSeconds")).unwrap();
    match duration.get("minimum") {
        Some(JsonValue::Number(n)) => assert_eq!(n.unsigned, Some(1)),
        _ => panic!("durationSeconds needs a minimum"),
    }
    let empty = &tools[2].input_schema;
    assert_eq!(empty.get_str("type"), Some("object"));
    assert!(empty.get("required").is_none());
}
