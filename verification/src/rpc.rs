//! The JSON-RPC 2.0 protocol spoken with the editor extension: messages,
//! error objects, the typed requests read from them, and the responses and
//! notifications built for them.

use vstd::prelude::*;
use vstd::string::*;
use crate::json::{
    array, items_view, json_get, json_get_str, json_view, members_view, new_items, new_members, object, push_item,
    push_member, JsonValue, JsonView,
};
use crate::logs::{LogLine, LogLineCount, LogStream, LogTimestamp};
use crate::orchestrator::OrchestratorEvent;
use crate::process::ServiceStatus;
use crate::text::{decimal, i32_to_decimal, signed_decimal, str_eq, u64_to_decimal};

verus! {

/// A JSON-RPC request.
#[derive(Debug)]
pub struct JsonRpcRequest {
    pub jsonrpc: String,
    pub id: u64,
    pub method: String,
    pub params: Option<JsonValue>,
}

/// A JSON-RPC error object.
#[derive(Debug)]
pub struct RpcError {
    pub code: i32,
    pub message: String,
    pub data: Option<JsonValue>,
}

/// A JSON-RPC response: a result or an error.
#[derive(Debug)]
pub struct JsonRpcResponse {
    pub jsonrpc: String,
    pub id: u64,
    pub result: Option<JsonValue>,
    pub error: Option<RpcError>,
}

/// A JSON-RPC notification: no id, no response expected.
#[derive(Debug)]
pub struct JsonRpcNotification {
    pub jsonrpc: String,
    pub method: String,
    pub params: JsonValue,
}

/// `e` has this code and message and no data.
pub open spec fn is_rpc_error(e: RpcError, code: int, message: Seq<char>) -> bool {
    e.code == code && e.message@ == message && e.data is None
}

impl RpcError {
    /// An error with a code and a message, without data.
    pub fn new(code: i32, message: &str) -> (r: Self)
        ensures
            is_rpc_error(r, code as int, message@),
    {
        RpcError { code, message: String::from_str(message), data: None }
    }

    /// The same error, carrying `data`.
    pub fn with_data(self, data: JsonValue) -> (r: Self)
        ensures
            r.code == self.code,
            r.message == self.message,
            r.data == Some(data),
    {
        RpcError { code: self.code, message: self.message, data: Some(data) }
    }

    /// Parse error (-32700).
    pub fn parse_error(message: &str) -> (r: Self)
        ensures
            is_rpc_error(r, -32700, message@),
    {
        Self::new(-32700, message)
    }

    /// Invalid request (-32600).
    pub fn invalid_request(message: &str) -> (r: Self)
        ensures
            is_rpc_error(r, -32600, message@),
    {
        Self::new(-32600, message)
    }

    /// Method not found (-32601), naming the method.
    pub fn method_not_found(method: &str) -> (r: Self)
        ensures
            is_rpc_error(r, -32601, "Method not found: "@ + method@),
    {
        let mut m = String::new();
        m.append("Method not found: ");
        m.append(method);
        RpcError { code: -32601, message: m, data: None }
    }

    /// Invalid params (-32602).
    pub fn invalid_params(message: &str) -> (r: Self)
        ensures
            is_rpc_error(r, -32602, message@),
    {
        Self::new(-32602, message)
    }

    /// Internal error (-32603).
    pub fn internal_error(message: &str) -> (r: Self)
        ensures
            is_rpc_error(r, -32603, message@),
    {
        Self::new(-32603, message)
    }

    /// Server error, with a code from -32099 to -32000.
    pub fn server_error(code: i32, message: &str) -> (r: Self)
        requires
            -32099 <= code <= -32000,
        ensures
            is_rpc_error(r, code as int, message@),
    {
        Self::new(code, message)
    }
}

impl JsonRpcResponse {
    /// A successful response.
    pub fn success(id: u64, result: JsonValue) -> (r: Self)
        ensures
            r.jsonrpc@ == "2.0"@,
            r.id == id,
            r.result == Some(result),
            r.error is None,
    {
        JsonRpcResponse { jsonrpc: String::from_str("2.0"), id, result: Some(result), error: None }
    }

    /// An error response.
    pub fn error(id: u64, error: RpcError) -> (r: Self)
        ensures
            r.jsonrpc@ == "2.0"@,
            r.id == id,
            r.result is None,
            r.error == Some(error),
    {
        JsonRpcResponse { jsonrpc: String::from_str("2.0"), id, result: None, error: Some(error) }
    }
}

impl JsonRpcNotification {
    /// A notification of `method` with `params`.
    pub fn new(method: &str, params: JsonValue) -> (r: Self)
        ensures
            r.jsonrpc@ == "2.0"@,
            r.method@ == method@,
            r.params == params,
    {
        JsonRpcNotification { jsonrpc: String::from_str("2.0"), method: String::from_str(method), params }
    }
}

/// How many log lines a request asks for: a count, or (with the text
/// `all`) all of them.
#[derive(Debug, PartialEq)]
pub enum LogLinesParam {
    Count(usize),
    All(String),
}

impl LogLinesParam {
    /// Whether all lines are asked for.
    pub fn is_all(&self) -> (r: bool)
        ensures
            r == (*self matches LogLinesParam::All(s) && s@ == "all"@),
    {
        match self {
            LogLinesParam::All(s) => str_eq(s.as_str(), "all"),
            LogLinesParam::Count(_) => false,
        }
    }

    /// The count asked for, if one is.
    pub fn count(&self) -> (r: Option<usize>)
        ensures
            r == match *self {
                LogLinesParam::Count(n) => Some(n),
                LogLinesParam::All(_) => None,
            },
    {
        match self {
            LogLinesParam::Count(n) => Some(*n),
            LogLinesParam::All(_) => None,
        }
    }

    /// Reads the parameter from JSON: a non-negative integer that fits in
    /// a `usize` is a count, a string is taken as is, anything else is
    /// refused.
    pub fn from_json(v: &JsonValue) -> (r: Option<LogLinesParam>)
        ensures
            match *v {
                JsonValue::Number(n) => match n.unsigned {
                    Some(u) => if u <= usize::MAX {
                        r matches Some(LogLinesParam::Count(c)) && c == u
                    } else {
                        r is None
                    },
                    None => r is None,
                },
                JsonValue::String(s) => r matches Some(LogLinesParam::All(x)) && x@ == s@,
                _ => r is None,
            },
    {
        match v {
            JsonValue::Number(n) => match n.unsigned {
                Some(u) => {
                    if u <= usize::MAX as u64 {
                        Some(LogLinesParam::Count(u as usize))
                    } else {
                        None
                    }
                },
                None => None,
            },
            JsonValue::String(s) => Some(LogLinesParam::All(s.clone())),
            _ => None,
        }
    }

    /// The log lines to read: the last `n` for a count, else all.
    pub fn selection(&self) -> (r: LogLineCount)
        ensures
            r == match *self {
                LogLinesParam::Count(n) => LogLineCount::Last(n),
                LogLinesParam::All(_) => LogLineCount::All,
            },
    {
        match self {
            LogLinesParam::Count(n) => LogLineCount::Last(*n),
            LogLinesParam::All(_) => LogLineCount::All,
        }
    }
}

/// A request of the protocol.
#[derive(Debug, PartialEq)]
pub enum RpcRequest {
    StartAll,
    StopAll,
    StartService { service: String },
    StopService { service: String },
    RestartService { service: String },
    GetStatus,
    GetLogs { service: String, lines: LogLinesParam },
}

/// The outcome for a method that needs a `service` parameter: the request
/// `make` describes, or the invalid-params error for missing parameters or
/// a missing or non-string `service`.
pub open spec fn service_request_outcome(
    params: Option<JsonValue>,
    missing: Seq<char>,
    make: spec_fn(RpcRequest, Seq<char>) -> bool,
    r: Result<RpcRequest, RpcError>,
) -> bool {
    match params {
        None => r matches Err(e) && is_rpc_error(e, -32602, missing),
        Some(p) => match json_get_str(p, "service"@) {
            None => r matches Err(e) && is_rpc_error(e, -32602, "Missing or invalid 'service' parameter"@),
            Some(s) => r matches Ok(req) && make(req, s),
        },
    }
}

/// The outcome for `getLogs`: as for other service requests, and a `lines`
/// member, when present, must read as a `LogLinesParam`; without it all
/// lines are asked for.
pub open spec fn logs_request_outcome(params: Option<JsonValue>, r: Result<RpcRequest, RpcError>) -> bool {
    match params {
        None => r matches Err(e) && is_rpc_error(e, -32602, "Missing params for getLogs"@),
        Some(p) => match json_get_str(p, "service"@) {
            None => r matches Err(e) && is_rpc_error(e, -32602, "Missing or invalid 'service' parameter"@),
            Some(s) => match json_get(p, "lines"@) {
                None => r matches Ok(RpcRequest::GetLogs { service, lines: LogLinesParam::All(a) }) && service@ == s
                    && a@ == "all"@,
                Some(v) => match v {
                    JsonValue::Number(n) => match n.unsigned {
                        Some(u) => if u <= usize::MAX {
                            r matches Ok(RpcRequest::GetLogs { service, lines: LogLinesParam::Count(c) })
                                && service@ == s && c == u
                        } else {
                            r matches Err(e) && is_rpc_error(e, -32602, "Invalid 'lines' parameter"@)
                        },
                        None => r matches Err(e) && is_rpc_error(e, -32602, "Invalid 'lines' parameter"@),
                    },
                    JsonValue::String(t) => r matches Ok(RpcRequest::GetLogs { service, lines: LogLinesParam::All(a) })
                        && service@ == s && a@ == t@,
                    _ => r matches Err(e) && is_rpc_error(e, -32602, "Invalid 'lines' parameter"@),
                },
            },
        },
    }
}

/// The typed request a method and its parameters stand for, or the error.
pub open spec fn request_outcome(method: Seq<char>, params: Option<JsonValue>, r: Result<RpcRequest, RpcError>) -> bool {
    if method == "startAll"@ {
        r matches Ok(RpcRequest::StartAll)
    } else if method == "stopAll"@ {
        r matches Ok(RpcRequest::StopAll)
    } else if method == "startService"@ {
        service_request_outcome(params, "Missing params for startService"@, |q: RpcRequest, s: Seq<char>| q matches RpcRequest::StartService { service } && service@ == s, r)
    } else if method == "stopService"@ {
        service_request_outcome(params, "Missing params for stopService"@, |q: RpcRequest, s: Seq<char>| q matches RpcRequest::StopService { service } && service@ == s, r)
    } else if method == "restartService"@ {
        service_request_outcome(params, "Missing params for restartService"@, |q: RpcRequest, s: Seq<char>| q matches RpcRequest::RestartService { service } && service@ == s, r)
    } else if method == "getStatus"@ {
        r matches Ok(RpcRequest::GetStatus)
    } else if method == "getLogs"@ {
        logs_request_outcome(params, r)
    } else {
        r matches Err(e) && is_rpc_error(e, -32601, "Method not found: "@ + method)
    }
}

/// The `service` parameter, or the invalid-params error.
fn service_param(params: &Option<JsonValue>, missing: &str) -> (r: Result<String, RpcError>)
    ensures
        match *params {
            None => r matches Err(e) && is_rpc_error(e, -32602, missing@),
            Some(p) => match json_get_str(p, "service"@) {
                None => r matches Err(e) && is_rpc_error(e, -32602, "Missing or invalid 'service' parameter"@),
                Some(s) => r matches Ok(x) && x@ == s,
            },
        },
{
    match params {
        None => Err(RpcError::invalid_params(missing)),
        Some(p) => match p.get_str("service") {
            None => Err(RpcError::invalid_params("Missing or invalid 'service' parameter")),
            Some(s) => Ok(String::from_str(s)),
        },
    }
}

impl RpcRequest {
    /// Reads the typed request from a JSON-RPC request.
    pub fn from_json_rpc(req: &JsonRpcRequest) -> (r: Result<RpcRequest, RpcError>)
        ensures
            request_outcome(req.method@, req.params, r),
    {
        let m = req.method.as_str();
        if str_eq(m, "startAll") {
            Ok(RpcRequest::StartAll)
        } else if str_eq(m, "stopAll") {
            Ok(RpcRequest::StopAll)
        } else if str_eq(m, "startService") {
            match service_param(&req.params, "Missing params for startService") {
                Ok(service) => Ok(RpcRequest::StartService { service }),
                Err(e) => Err(e),
            }
        } else if str_eq(m, "stopService") {
            match service_param(&req.params, "Missing params for stopService") {
                Ok(service) => Ok(RpcRequest::StopService { service }),
                Err(e) => Err(e),
            }
        } else if str_eq(m, "restartService") {
            match service_param(&req.params, "Missing params for restartService") {
                Ok(service) => Ok(RpcRequest::RestartService { service }),
                Err(e) => Err(e),
            }
        } else if str_eq(m, "getStatus") {
            Ok(RpcRequest::GetStatus)
        } else if str_eq(m, "getLogs") {
            let service = match service_param(&req.params, "Missing params for getLogs") {
                Ok(s) => s,
                Err(e) => {
                    return Err(e);
                },
            };
            let lines = match &req.params {
                Some(p) => match p.get("lines") {
                    Some(v) => match LogLinesParam::from_json(v) {
                        Some(l) => l,
                        None => {
                            return Err(RpcError::invalid_params("Invalid 'lines' parameter"));
                        },
                    },
                    None => LogLinesParam::All(String::from_str("all")),
                },
                None => LogLinesParam::All(String::from_str("all")),
            };
            Ok(RpcRequest::GetLogs { service, lines })
        } else {
            Err(RpcError::method_not_found(m))
        }
    }
}

/// The protocol's name for a log stream.
pub open spec fn stream_label(s: LogStream) -> Seq<char> {
    match s {
        LogStream::Stdout => "stdout"@,
        LogStream::Stderr => "stderr"@,
    }
}

/// The protocol's name for a log stream.
pub fn stream_name(s: LogStream) -> (r: &'static str)
    ensures
        r@ == stream_label(s),
{
    match s {
        LogStream::Stdout => "stdout",
        LogStream::Stderr => "stderr",
    }
}

/// Whole seconds since the epoch of a timestamp, 0 before it.
pub open spec fn epoch_secs_of(t: LogTimestamp) -> nat {
    match t {
        LogTimestamp::SinceEpoch { secs, .. } => secs as nat,
        LogTimestamp::BeforeEpoch => 0,
    }
}

/// The members that describe a log line: `timestamp` (whole seconds since
/// the epoch), `content` and `stream`.
pub open spec fn log_line_members_view(line: LogLine) -> Seq<(Seq<char>, JsonView)> {
    seq![
        ("timestamp"@, JsonView::Number(decimal(epoch_secs_of(line.timestamp)))),
        ("content"@, JsonView::Str(line.content@)),
        ("stream"@, JsonView::Str(stream_label(line.stream))),
    ]
}

/// A log line as JSON: the members in `prefix`, then `timestamp`,
/// `content` and `stream`.
pub fn log_line_json(prefix: Vec<(String, JsonValue)>, line: &LogLine) -> (r: JsonValue)
    ensures
        json_view(r) == JsonView::Object(members_view(prefix@) + log_line_members_view(*line)),
{
    let mut ms = prefix;
    let ghost p = members_view(ms@);
    push_member(&mut ms, "timestamp", JsonValue::unsigned(line.timestamp.epoch_secs()));
    push_member(&mut ms, "content", JsonValue::string(line.content.as_str()));
    push_member(&mut ms, "stream", JsonValue::string(stream_name(line.stream)));
    let r = object(ms);
    assert(json_view(r)->Object_0 =~= p + log_line_members_view(*line));
    r
}

/// `{"service": service}`.
pub open spec fn service_object_view(service: Seq<char>) -> JsonView {
    JsonView::Object(seq![("service"@, JsonView::Str(service))])
}

/// The method and the parameters of the notification that forwards an
/// event; nothing for an error event.
pub open spec fn notification_view(event: OrchestratorEvent) -> Option<(Seq<char>, JsonView)> {
    match event {
        OrchestratorEvent::ServiceStarting { service } => Some(("serviceStarting"@, service_object_view(service@))),
        OrchestratorEvent::ServiceReady { service } => Some(("serviceReady"@, service_object_view(service@))),
        OrchestratorEvent::ServiceStopped { service } => Some(("serviceStopped"@, service_object_view(service@))),
        OrchestratorEvent::ServiceFailed { service, error } => Some(
            (
                "serviceFailed"@,
                JsonView::Object(seq![("service"@, JsonView::Str(service@)), ("error"@, JsonView::Str(error@))]),
            ),
        ),
        OrchestratorEvent::LogLine { service, line } => Some(
            ("logLine"@, JsonView::Object(seq![("service"@, JsonView::Str(service@))] + log_line_members_view(line))),
        ),
        OrchestratorEvent::Error { .. } => None,
    }
}

/// The notification that forwards an orchestrator event: `serviceStarting`,
/// `serviceReady`, `serviceFailed`, `serviceStopped` or `logLine`. Error
/// events are not forwarded.
pub fn event_to_notification(event: OrchestratorEvent) -> (r: Option<JsonRpcNotification>)
    ensures
        match notification_view(event) {
            Some((method, params)) => r matches Some(n) && n.jsonrpc@ == "2.0"@ && n.method@ == method
                && json_view(n.params) == params,
            None => r is None,
        },
{
    let ghost expected = notification_view(event);
    match event {
        OrchestratorEvent::ServiceStarting { service } => {
            Some(JsonRpcNotification::new("serviceStarting", service_object(service)))
        },
        OrchestratorEvent::ServiceReady { service } => Some(
            JsonRpcNotification::new("serviceReady", service_object(service)),
        ),
        OrchestratorEvent::ServiceStopped { service } => Some(
            JsonRpcNotification::new("serviceStopped", service_object(service)),
        ),
        OrchestratorEvent::ServiceFailed { service, error } => {
            let mut ms = new_members();
            push_member(&mut ms, "service", JsonValue::String(service));
            push_member(&mut ms, "error", JsonValue::String(error));
            let params = object(ms);
            assert(json_view(params)->Object_0 =~= (expected->0).1->Object_0);
            Some(JsonRpcNotification::new("serviceFailed", params))
        },
        OrchestratorEvent::LogLine { service, line } => {
            let mut prefix = new_members();
            push_member(&mut prefix, "service", JsonValue::String(service));
            assert(members_view(prefix@) =~= seq![("service"@, JsonView::Str(service@))]);
            let params = log_line_json(prefix, &line);
            Some(JsonRpcNotification::new("logLine", params))
        },
        OrchestratorEvent::Error { .. } => None,
    }
}

/// `{"service": <service>}`.
fn service_object(service: String) -> (r: JsonValue)
    ensures
        json_view(r) == service_object_view(service@),
{
    let ghost name = service@;
    let mut ms = new_members();
    push_member(&mut ms, "service", JsonValue::String(service));
    let r = object(ms);
    assert(json_view(r)->Object_0 =~= service_object_view(name)->Object_0);
    r
}


/// How a service state is shown: `not_started`, `starting`, `running`,
/// `stopped`, or `failed (exit code: N)`.
pub open spec fn status_label_text(s: ServiceStatus) -> Seq<char> {
    match s {
        ServiceStatus::NotStarted => "not_started"@,
        ServiceStatus::Starting => "starting"@,
        ServiceStatus::Running => "running"@,
        ServiceStatus::Stopped => "stopped"@,
        ServiceStatus::Failed { exit_code } => "failed (exit code: "@ + signed_decimal(exit_code as int) + ")"@,
    }
}

/// How a service state is shown.
pub fn status_label(s: ServiceStatus) -> (r: String)
    ensures
        r@ == status_label_text(s),
{
    match s {
        ServiceStatus::NotStarted => String::from_str("not_started"),
        ServiceStatus::Starting => String::from_str("starting"),
        ServiceStatus::Running => String::from_str("running"),
        ServiceStatus::Stopped => String::from_str("stopped"),
        ServiceStatus::Failed { exit_code } => {
            let mut r = String::new();
            r.append("failed (exit code: ");
            let d = i32_to_decimal(exit_code);
            r.append(d.as_str());
            r.append(")");
            r
        },
    }
}

/// The `status` word a successful action reports, and the service it
/// names, if any.
pub open spec fn action_summary(req: RpcRequest) -> (Seq<char>, Option<Seq<char>>) {
    match req {
        RpcRequest::StartAll => ("started"@, None),
        RpcRequest::StopAll => ("stopped"@, None),
        RpcRequest::StartService { service } => ("started"@, Some(service@)),
        RpcRequest::StopService { service } => ("stopped"@, Some(service@)),
        RpcRequest::RestartService { service } => ("restarted"@, Some(service@)),
        _ => (Seq::empty(), None),
    }
}

/// The request starts, stops or restarts services.
pub open spec fn is_action(req: RpcRequest) -> bool {
    !(req is GetStatus || req is GetLogs)
}

/// The result of a successful action: `{"status": ..}`, with `"service"`
/// when it names one service.
pub open spec fn action_result_view(req: RpcRequest) -> JsonView {
    match action_summary(req).1 {
        Some(s) => JsonView::Object(
            seq![("status"@, JsonView::Str(action_summary(req).0)), ("service"@, JsonView::Str(s))],
        ),
        None => JsonView::Object(seq![("status"@, JsonView::Str(action_summary(req).0))]),
    }
}

/// The response to an action: `{"status": ..}` (with `"service"` for a
/// single service) when it succeeded, else an internal error carrying the
/// failure's text.
pub fn action_response(id: u64, request: &RpcRequest, outcome: Result<(), String>) -> (r: JsonRpcResponse)
    requires
        is_action(*request),
    ensures
        r.id == id,
        r.jsonrpc@ == "2.0"@,
        match outcome {
            Ok(()) => r.error is None && (r.result matches Some(v) && json_view(v) == action_result_view(*request)),
            Err(m) => r.result is None && r.error is Some && is_rpc_error(r.error->0, -32603, m@),
        },
{
    match outcome {
        Err(m) => JsonRpcResponse::error(id, RpcError::internal_error(m.as_str())),
        Ok(()) => {
            let ghost expected = action_result_view(*request);
            let (word, service): (&str, Option<&String>) = match request {
                RpcRequest::StartAll => ("started", None),
                RpcRequest::StopAll => ("stopped", None),
                RpcRequest::StartService { service } => ("started", Some(service)),
                RpcRequest::StopService { service } => ("stopped", Some(service)),
                RpcRequest::RestartService { service } => ("restarted", Some(service)),
                RpcRequest::GetStatus => ("", None),
                RpcRequest::GetLogs { .. } => ("", None),
            };
            let mut ms = new_members();
            push_member(&mut ms, "status", JsonValue::string(word));
            match service {
                Some(s) => {
                    push_member(&mut ms, "service", JsonValue::string(s.as_str()));
                },
                None => {},
            }
            let v = object(ms);
            assert(json_view(v)->Object_0 =~= expected->Object_0);
            JsonRpcResponse::success(id, v)
        },
    }
}

/// The state labels of services, by name, as members of an object.
pub open spec fn status_members_view(statuses: Seq<(String, ServiceStatus)>) -> Seq<(Seq<char>, JsonView)> {
    statuses.map_values(|p: (String, ServiceStatus)| (p.0@, JsonView::Str(status_label_text(p.1))))
}

/// The response to `getStatus`: `{"services": {<name>: <state label>, ..}}`.
pub fn status_response(id: u64, statuses: &Vec<(String, ServiceStatus)>) -> (r: JsonRpcResponse)
    ensures
        r.id == id,
        r.jsonrpc@ == "2.0"@,
        r.error is None,
        r.result matches Some(v) && json_view(v) == JsonView::Object(
            seq![("services"@, JsonView::Object(status_members_view(statuses@)))],
        ),
{
    let mut ms = new_members();
    let mut i: usize = 0;
    while i < statuses.len()
        invariant
            i <= statuses@.len(),
            members_view(ms@) =~= status_members_view(statuses@.subrange(0, i as int)),
        decreases statuses@.len() - i,
    {
        let label = status_label(statuses[i].1);
        push_member(&mut ms, statuses[i].0.as_str(), JsonValue::String(label));
        assert(statuses@.subrange(0, i + 1) =~= statuses@.subrange(0, i as int).push(statuses@[i as int]));
        i = i + 1;
    }
    assert(statuses@.subrange(0, i as int) =~= statuses@);
    let services = object(ms);
    let mut outer = new_members();
    push_member(&mut outer, "services", services);
    let v = object(outer);
    assert(json_view(v)->Object_0 =~= seq![("services"@, JsonView::Object(status_members_view(statuses@)))]);
    JsonRpcResponse::success(id, v)
}

/// A log line as listed by `getLogs`.
pub open spec fn log_entry_view(line: LogLine) -> JsonView {
    JsonView::Object(log_line_members_view(line))
}

/// The response to `getLogs`: an error (-32001, `Service not found: ..`)
/// for an unknown service, else `{"service": .., "logs": [..]}` with one
/// object per line.
pub fn logs_response(id: u64, service: &str, known: bool, lines: &Vec<LogLine>) -> (r: JsonRpcResponse)
    ensures
        r.id == id,
        r.jsonrpc@ == "2.0"@,
        !known ==> r.result is None && r.error is Some && is_rpc_error(
            r.error->0,
            -32001,
            "Service not found: "@ + service@,
        ),
        known ==> r.error is None && (r.result matches Some(v) && json_view(v) == JsonView::Object(
            seq![
                ("service"@, JsonView::Str(service@)),
                ("logs"@, JsonView::Array(lines@.map_values(|l: LogLine| log_entry_view(l)))),
            ],
        )),
{
    if !known {
        let mut m = String::new();
        m.append("Service not found: ");
        m.append(service);
        return JsonRpcResponse::error(id, RpcError::server_error(-32001, m.as_str()));
    }
    let mut logs = new_items();
    let mut i: usize = 0;
    while i < lines.len()
        invariant
            i <= lines@.len(),
            items_view(logs@) =~= lines@.subrange(0, i as int).map_values(|l: LogLine| log_entry_view(l)),
        decreases lines@.len() - i,
    {
        let entry = log_line_json(new_members(), &lines[i]);
        assert(Seq::<(Seq<char>, JsonView)>::empty() + log_line_members_view(lines@[i as int])
            =~= log_line_members_view(lines@[i as int]));
        push_item(&mut logs, entry);
        assert(lines@.subrange(0, i + 1) =~= lines@.subrange(0, i as int).push(lines@[i as int]));
        i = i + 1;
    }
    assert(lines@.subrange(0, i as int) =~= lines@);
    let logs = array(logs);
    let mut ms = new_members();
    push_member(&mut ms, "service", JsonValue::string(service));
    push_member(&mut ms, "logs", logs);
    let v = object(ms);
    assert(json_view(v)->Object_0 =~= seq![
        ("service"@, JsonView::Str(service@)),
        ("logs"@, JsonView::Array(lines@.map_values(|l: LogLine| log_entry_view(l)))),
    ]);
    JsonRpcResponse::success(id, v)
}

} // verus!
