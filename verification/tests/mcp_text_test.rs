use opendaemon::json::JsonValue;
use opendaemon::logs::{LogLine, LogLineCount, LogStream, LogTimestamp};
use opendaemon::mcp::{
    action_result, daemon_logs_params, daemon_read_logs_error, daemon_read_logs_output, daemon_service_status,
    daemon_status_error, format_daemon_timestamp, local_read_logs, format_log_line, format_watch_output, list_services_text,
    next_wait_duration, read_logs_output, read_logs_request, service_status_report, service_status_text,
    summarize_json_value, summarize_tool_arguments, summarize_tool_result, watch_logs_request, LogWatch, McpContent,
    McpResponse, McpToolResult, StreamFilter, ToolKind,
};
use opendaemon::process::{ServiceStatus, StatusTable};
use opendaemon::ready::ReadyWatcher;

fn obj(members: Vec<(&str, JsonValue)>) -> JsonValue {
    JsonValue::Object(members.into_iter().map(|(k, v)| (k.to_string(), v)).collect())
}

fn text_of(r: &McpToolResult) -> String {
    match r {
        McpToolResult::Success { content } => match &content[0] {
            McpContent::Text { text } => text.clone(),
        },
        McpToolResult::Error { error } => format!("ERROR: {}", error),
    }
}

fn line(secs: u64, millis: u32, content: &str, stream: LogStream) -> LogLine {
    LogLine {
        timestamp: LogTimestamp::SinceEpoch { secs, nanos: millis * 1_000_000 },
        content: content.to_string(),
        stream,
    }
}

#[test]
fn test_list_services_sorted() {
    let names = vec!["web".to_string(), "api".to_string(), "db".to_string()];
    assert_eq!(text_of(&list_services_text(&names)), "api\ndb\nweb");
}

#[test]
fn test_service_status_texts() {
    assert_eq!(service_status_text(None, false), "not_started");
    assert_eq!(service_status_text(Some(ServiceStatus::Starting), true), "running");
    assert_eq!(service_status_text(Some(ServiceStatus::Starting), false), "starting");
    assert_eq!(service_status_text(Some(ServiceStatus::Failed { exit_code: -2 }), false), "failed (exit code: -2)");
}

#[test]
fn test_service_status_report_by_name() {
    let mut table = StatusTable::new();
    table.set_status("db".to_string(), ServiceStatus::Running);
    let watcher = ReadyWatcher::new(std::time::Duration::from_secs(1));
    let names = vec!["web".to_string(), "db".to_string()];
    let r = service_status_report(&names, &table, &watcher);
    assert_eq!(text_of(&r), "db: running\nweb: not_started");
}

#[test]
fn test_format_helpers() {
    assert_eq!(format_daemon_timestamp(42), "42.000");
    assert_eq!(format_log_line(&line(7, 30, "hi", LogStream::Stderr)), "[7.030] [stderr] hi");
    let out = format_watch_output("api", "completed", false, 3, &Vec::new());
    assert_eq!(
        out,
        "service: api\nstop_reason: completed\nmatched_until_pattern: false\nlines_captured: 0\ndropped_events: 3\n\nlogs:\n(no matching log lines captured)"
    );
}

#[test]
fn test_summaries() {
    assert_eq!(summarize_json_value(&JsonValue::string("a\"b")), "\"a\\\"b\"");
    assert_eq!(summarize_json_value(&JsonValue::Array(vec![JsonValue::Null])), "[1 item(s)]");
    let long = "x".repeat(90);
    assert_eq!(summarize_json_value(&JsonValue::string(&long)), format!("\"{}\"...(90 chars)", "x".repeat(80)));
    let args = obj(vec![("service", JsonValue::string("api")), ("lines", JsonValue::unsigned(5))]);
    assert_eq!(summarize_tool_arguments(&args), "lines=5, service=\"api\"");
    assert_eq!(summarize_tool_arguments(&obj(vec![])), "no arguments");
    assert_eq!(summarize_tool_arguments(&JsonValue::Bool(true)), "non-object args: true");
    assert_eq!(summarize_tool_result(&McpToolResult::error_text("boom")), "error (boom)");
}

#[test]
fn test_read_logs_request_errors() {
    let missing = read_logs_request(&obj(vec![]));
    assert_eq!(text_of(&missing.unwrap_err()), "ERROR: Missing or invalid 'service' parameter");
    let zero = read_logs_request(&obj(vec![("service", JsonValue::string("a")), ("lines", JsonValue::unsigned(0))]));
    assert_eq!(text_of(&zero.unwrap_err()), "ERROR: Invalid 'lines' parameter: must be >= 1 or 'all'");
    let absent = read_logs_request(&obj(vec![("service", JsonValue::string("a"))]));
    assert_eq!(text_of(&absent.unwrap_err()), "ERROR: Missing or invalid 'lines' parameter: must be >= 1 or 'all'");
    let bad_stream = read_logs_request(&obj(vec![
        ("service", JsonValue::string("a")),
        ("lines", JsonValue::string("all")),
        ("stream", JsonValue::string("both?")),
    ]));
    assert_eq!(
        text_of(&bad_stream.unwrap_err()),
        "ERROR: Invalid 'stream' value 'both?': expected 'stdout', 'stderr', or 'both'"
    );
}

#[test]
fn test_read_logs_filters_case_insensitively() {
    let req = read_logs_request(&obj(vec![
        ("service", JsonValue::string("api")),
        ("lines", JsonValue::string("all")),
        ("contains", JsonValue::string("ERROR")),
    ]))
    .unwrap();
    assert_eq!(req.stream, StreamFilter::Both);
    let lines = vec![
        line(1, 0, "an error happened", LogStream::Stdout),
        line(2, 0, "all good", LogStream::Stdout),
        line(3, 5, "Error again", LogStream::Stderr),
    ];
    assert_eq!(text_of(&read_logs_output(&lines, &req)), "[1.000] [stdout] an error happened\n[3.005] [stderr] Error again");
    let params = daemon_logs_params(&req);
    assert_eq!(params.get_str("lines"), Some("all"));
}

#[test]
fn test_daemon_log_items() {
    let req = read_logs_request(&obj(vec![
        ("service", JsonValue::string("api")),
        ("lines", JsonValue::unsigned(10)),
        ("stream", JsonValue::string("stderr")),
    ]))
    .unwrap();
    assert!(matches!(req.lines, LogLineCount::Last(10)));
    let item = |ts: u64, content: &str, stream: &str| {
        obj(vec![
            ("timestamp", JsonValue::unsigned(ts)),
            ("content", JsonValue::string(content)),
            ("stream", JsonValue::string(stream)),
        ])
    };
    let result = obj(vec![("logs", JsonValue::Array(vec![item(5, "out", "stdout"), item(6, "err", "stderr")]))]);
    assert_eq!(text_of(&daemon_read_logs_output(&result, &req)), "[6.000] [stderr] err");
    assert_eq!(
        text_of(&daemon_read_logs_output(&obj(vec![]), &req)),
        "ERROR: Failed to read logs from daemon: invalid response payload"
    );
    assert_eq!(text_of(&daemon_read_logs_error("api", "nope")), "ERROR: Failed to read logs for 'api': nope");
}

#[test]
fn test_daemon_status_texts() {
    let result = obj(vec![(
        "services",
        obj(vec![
            ("web", JsonValue::string("running")),
            ("db", JsonValue::string("stopped")),
            ("odd", JsonValue::unsigned(1)),
        ]),
    )]);
    assert_eq!(text_of(&daemon_service_status(&result)), "db: stopped\nweb: running");
    assert_eq!(
        text_of(&daemon_service_status(&obj(vec![]))),
        "ERROR: Failed to get service status from daemon: invalid response payload"
    );
    assert_eq!(text_of(&daemon_status_error("x")), "ERROR: Failed to get service status via daemon: x");
}

#[test]
fn test_watch_logs_request_checks_in_order() {
    let no_limit = watch_logs_request(&obj(vec![("service", JsonValue::string("a"))]));
    assert_eq!(text_of(&no_limit.unwrap_err()), "ERROR: watch_logs requires either 'durationSeconds' or 'untilPattern'");
    let bad_until = watch_logs_request(&obj(vec![
        ("service", JsonValue::string("a")),
        ("untilPattern", JsonValue::string("(")),
    ]));
    assert!(text_of(&bad_until.unwrap_err()).starts_with("ERROR: Invalid 'untilPattern' regex '(': "));
    let slow_poll = watch_logs_request(&obj(vec![
        ("service", JsonValue::string("a")),
        ("durationSeconds", JsonValue::unsigned(1)),
        ("pollIntervalMs", JsonValue::unsigned(10)),
    ]));
    assert_eq!(text_of(&slow_poll.unwrap_err()), "ERROR: Invalid 'pollIntervalMs': must be >= 50 milliseconds");
    let zero_lines = watch_logs_request(&obj(vec![
        ("service", JsonValue::string("a")),
        ("durationSeconds", JsonValue::unsigned(1)),
        ("maxLines", JsonValue::unsigned(0)),
    ]));
    assert_eq!(text_of(&zero_lines.unwrap_err()), "ERROR: Invalid 'maxLines': must be >= 1");
    let bad_list = watch_logs_request(&obj(vec![
        ("service", JsonValue::string("a")),
        ("durationSeconds", JsonValue::unsigned(1)),
        ("includePatterns", JsonValue::string("x")),
    ]));
    assert_eq!(
        text_of(&bad_list.unwrap_err()),
        "ERROR: Invalid 'includePatterns' parameter: expected an array of regex patterns"
    );
    let ok = watch_logs_request(&obj(vec![
        ("service", JsonValue::string("a")),
        ("durationSeconds", JsonValue::unsigned(2)),
        ("timeoutSeconds", JsonValue::unsigned(0)),
    ]))
    .unwrap();
    assert_eq!(ok.poll_interval_ms, 250);
    assert_eq!(ok.max_lines, 200);
    assert_eq!(ok.timeout_seconds, None);
    assert_eq!(ok.duration_seconds, Some(2));
}

#[test]
fn test_log_watch_stops_on_until_pattern() {
    let req = watch_logs_request(&obj(vec![
        ("service", JsonValue::string("a")),
        ("untilPattern", JsonValue::string("ready")),
        ("excludePatterns", JsonValue::Array(vec![JsonValue::string("noise")])),
    ]))
    .unwrap();
    let mut watch = LogWatch::new();
    assert!(!watch.offer_existing(&req, &line(1, 0, "noise ready", LogStream::Stdout)));
    assert!(!watch.offer_existing(&req, &line(2, 0, "booting", LogStream::Stdout)));
    assert!(watch.offer_existing(&req, &line(3, 0, "Server READY", LogStream::Stdout)));
    assert_eq!(watch.stop_reason.as_deref(), Some("until_pattern_matched"));
    let report = text_of(&watch.finish("a"));
    assert!(report.contains("lines_captured: 2"));
    assert!(report.contains("matched_until_pattern: true"));
}

#[test]
fn test_next_wait_duration_values() {
    let ms = 1_000_000u128;
    assert_eq!(next_wait_duration(0, None, None, 250 * ms), 250 * ms);
    assert_eq!(next_wait_duration(900 * ms, Some(1000 * ms), None, 250 * ms), 100 * ms);
    assert_eq!(next_wait_duration(1000 * ms, Some(1000 * ms), None, 250 * ms), ms);
    assert_eq!(next_wait_duration(10 * ms, None, Some(50 * ms), 250 * ms), 40 * ms);
}

#[test]
fn test_action_results() {
    assert_eq!(
        text_of(&action_result(ToolKind::StartService, "api", Ok(()), false)),
        "Start requested for 'api' (dependencies included)."
    );
    assert_eq!(
        text_of(&action_result(ToolKind::StopService, "api", Err("boom".to_string()), true)),
        "ERROR: Failed to stop 'api' via daemon: boom"
    );
    assert_eq!(
        text_of(&action_result(ToolKind::RestartService, "api", Err("boom".to_string()), false)),
        "ERROR: Failed to restart 'api': boom"
    );
}

#[test]
fn test_tool_result_as_sent() {
    let resp = McpResponse::tool_result(None, &McpToolResult::error_text("bad"));
    let result = resp.result.unwrap();
    match result.get("isError") {
        Some(JsonValue::Bool(true)) => {}
        _ => panic!("expected isError true"),
    }
}

#[test]
fn test_tool_result_content_items_as_sent() {
    let result = McpToolResult::Success {
        content: vec![McpContent::Text { text: "one".to_string() }, McpContent::Text { text: "two".to_string() }],
    };
    let resp = McpResponse::tool_result(None, &result);
    let sent = resp.result.unwrap();
    match sent.get("content") {
        Some(JsonValue::Array(items)) => {
            assert_eq!(items.len(), 2);
            assert_eq!(items[0].get_str("type"), Some("text"));
            assert_eq!(items[0].get_str("text"), Some("one"));
            assert_eq!(items[1].get_str("text"), Some("two"));
        }
        _ => panic!("expected content items"),
    }
    match sent.get("isError") {
        Some(JsonValue::Bool(false)) => {}
        _ => panic!("expected isError false"),
    }
}

#[test]
fn test_local_read_logs_selects_and_filters() {
    let mut services = opendaemon::config::ServiceMap::new();
    services.insert(
        "api".to_string(),
        opendaemon::config::ServiceConfig {
            command: "run".to_string(),
            depends_on: vec![],
            ready_when: None,
            env_file: None,
        },
    );
    let mut buffer = opendaemon::logs::LogBuffer::new(10);
    buffer.append("api", line(1, 0, "one", LogStream::Stdout));
    buffer.append("api", line(2, 0, "two", LogStream::Stderr));
    buffer.append("api", line(3, 0, "three", LogStream::Stdout));
    let req = read_logs_request(&obj(vec![
        ("service", JsonValue::string("api")),
        ("lines", JsonValue::unsigned(2)),
        ("stream", JsonValue::string("stdout")),
    ]))
    .unwrap();
    assert_eq!(text_of(&local_read_logs(&services, &buffer, &req)), "[3.000] [stdout] three");
    let ghost = read_logs_request(&obj(vec![("service", JsonValue::string("ghost")), ("lines", JsonValue::string("all"))]))
        .unwrap();
    assert_eq!(text_of(&local_read_logs(&services, &buffer, &ghost)), "ERROR: Service not found: ghost");
}

#[test]
fn test_record_poll_changes_only_the_polled_service() {
    let mut table = StatusTable::new();
    table.set_status("api".to_string(), ServiceStatus::Running);
    table.set_status("db".to_string(), ServiceStatus::Running);
    table.set_status("web".to_string(), ServiceStatus::Starting);
    let event = table.record_poll("db", opendaemon::process::PollOutcome::Exited(Some(3))).unwrap();
    assert_eq!(event.status, ServiceStatus::Failed { exit_code: 3 });
    assert_eq!(table.get_status("db"), Some(ServiceStatus::Failed { exit_code: 3 }));
    assert_eq!(table.get_status("api"), Some(ServiceStatus::Running));
    assert_eq!(table.get_status("web"), Some(ServiceStatus::Starting));
    assert_eq!(table.get_all_statuses().len(), 3);
}

fn watched_services() -> (opendaemon::config::ServiceMap, opendaemon::logs::LogBuffer) {
    let mut services = opendaemon::config::ServiceMap::new();
    services.insert(
        "api".to_string(),
        opendaemon::config::ServiceConfig { command: "run".to_string(), depends_on: vec![], ready_when: None, env_file: None },
    );
    let mut buffer = opendaemon::logs::LogBuffer::new(10);
    buffer.append("api", line(1, 0, "booting", LogStream::Stdout));
    buffer.append("api", line(2, 0, "READY now", LogStream::Stdout));
    buffer.append("api", line(3, 0, "after ready", LogStream::Stdout));
    (services, buffer)
}

#[test]
fn test_begin_log_watch_stops_on_existing_match() {
    let (services, buffer) = watched_services();
    let args = obj(vec![
        ("service", JsonValue::string("api")),
        ("untilPattern", JsonValue::string("READY")),
        ("includeExisting", JsonValue::Bool(true)),
    ]);
    let (req, watch) = opendaemon::mcp::begin_log_watch(&args, &services, &buffer).unwrap();
    assert_eq!(req.service, "api");
    assert_eq!(watch.captured.len(), 2);
    assert!(watch.matched_until_pattern);
    assert_eq!(watch.stop_reason.as_deref(), Some("until_pattern_matched"));
}

#[test]
fn test_begin_log_watch_refusals() {
    let (services, buffer) = watched_services();
    let unknown = obj(vec![("service", JsonValue::string("ghost")), ("durationSeconds", JsonValue::unsigned(1))]);
    match opendaemon::mcp::begin_log_watch(&unknown, &services, &buffer) {
        Err(r) => assert_eq!(text_of(&r), "ERROR: Service not found: ghost"),
        Ok(_) => panic!("expected an error"),
    }
    let bad = obj(vec![("service", JsonValue::string("api"))]);
    assert!(opendaemon::mcp::begin_log_watch(&bad, &services, &buffer).is_err());
    let fresh = obj(vec![("service", JsonValue::string("api")), ("durationSeconds", JsonValue::unsigned(1))]);
    let (_, watch) = opendaemon::mcp::begin_log_watch(&fresh, &services, &buffer).unwrap();
    assert!(watch.captured.is_empty());
    assert!(watch.stop_reason.is_none());
}
