//! The Model Context Protocol server's decisions: tool results, the
//! reading of tool arguments, log filtering and formatting, status texts,
//! and summaries for its log.

use vstd::prelude::*;
use vstd::string::*;
use crate::json::{
    array, is_json_str, items_view, json_get, json_items, json_members, json_str, json_view, member_is_str, members_view,
    new_items, new_members, object, push_item, push_member, JsonValue, JsonView,
};
use crate::cli::{lex_le, sort_strings};
use crate::config::{has_name, ServiceMap};
use crate::logs::{held_for, selected, timestamp_text, LogBuffer, LogLine, LogLineCount, LogStream};
use crate::table::{find_key, first_index, key_seq, lemma_first_index};
use crate::pattern::{regex_compile_error, regex_is_match, regex_search};
use crate::process::ServiceStatus;
use crate::rpc::{stream_label, stream_name};
use crate::text::{
    contains_seq, decimal, i32_to_decimal, join, join_strings, signed_decimal, str_contains, str_eq,
    u64_to_decimal,
};

verus! {

/// A piece of tool output.
#[derive(Debug)]
pub enum McpContent {
    Text { text: String },
}

/// The result of a tool call.
#[derive(Debug)]
pub enum McpToolResult {
    Success { content: Vec<McpContent> },
    Error { error: String },
}

/// The result is a success carrying exactly the text `t`.
pub open spec fn is_success_text(r: McpToolResult, t: Seq<char>) -> bool {
    r matches McpToolResult::Success { content } && content@.len() == 1 && content_text(content@[0]) == t
}

/// The text of a piece of output.
pub open spec fn content_text(c: McpContent) -> Seq<char> {
    match c {
        McpContent::Text { text } => text@,
    }
}

/// The result is an error with the text `t`.
pub open spec fn is_error_text(r: McpToolResult, t: Seq<char>) -> bool {
    r matches McpToolResult::Error { error } && error@ == t
}

impl McpToolResult {
    /// A success with one text.
    pub fn success_text(text: String) -> (r: Self)
        ensures
            is_success_text(r, text@),
    {
        let mut content: Vec<McpContent> = Vec::new();
        content.push(McpContent::Text { text });
        McpToolResult::Success { content }
    }

    /// An error with a text.
    pub fn error_text(error: &str) -> (r: Self)
        ensures
            is_error_text(r, error@),
    {
        McpToolResult::Error { error: String::from_str(error) }
    }
}

/// An error result whose text is `a` followed by `b` and `c`.
fn error3(a: &str, b: &str, c: &str) -> (r: McpToolResult)
    ensures
        is_error_text(r, a@ + b@ + c@),
{
    let mut m = String::new();
    m.append(a);
    m.append(b);
    m.append(c);
    McpToolResult::Error { error: m }
}

/// Which output streams a log request covers.
#[derive(Debug, Clone, Copy, PartialEq, Eq, Structural)]
pub enum StreamFilter {
    Stdout,
    Stderr,
    Both,
}

impl StreamFilter {
    /// Reads the `stream` argument: absent or not a string, or `both`,
    /// covers both streams; `stdout` and `stderr` one each; any other text
    /// is refused.
    pub fn from_value(value: Option<&JsonValue>) -> (r: Result<StreamFilter, McpToolResult>)
        ensures
            match value {
                None => r == Ok::<StreamFilter, McpToolResult>(StreamFilter::Both),
                Some(v) => match json_str(*v) {
                    None => r == Ok::<StreamFilter, McpToolResult>(StreamFilter::Both),
                    Some(s) => if s == "both"@ {
                        r == Ok::<StreamFilter, McpToolResult>(StreamFilter::Both)
                    } else if s == "stdout"@ {
                        r == Ok::<StreamFilter, McpToolResult>(StreamFilter::Stdout)
                    } else if s == "stderr"@ {
                        r == Ok::<StreamFilter, McpToolResult>(StreamFilter::Stderr)
                    } else {
                        r matches Err(e) && is_error_text(
                            e,
                            "Invalid 'stream' value '"@ + s + "': expected 'stdout', 'stderr', or 'both'"@,
                        )
                    },
                },
            },
    {
        match value {
            None => Ok(StreamFilter::Both),
            Some(v) => match v.as_str() {
                None => Ok(StreamFilter::Both),
                Some(s) => {
                    if str_eq(s, "both") {
                        Ok(StreamFilter::Both)
                    } else if str_eq(s, "stdout") {
                        Ok(StreamFilter::Stdout)
                    } else if str_eq(s, "stderr") {
                        Ok(StreamFilter::Stderr)
                    } else {
                        Err(error3("Invalid 'stream' value '", s, "': expected 'stdout', 'stderr', or 'both'"))
                    }
                },
            },
        }
    }

    /// Whether a line of `stream` passes the filter.
    pub fn matches(self, stream: &LogStream) -> (r: bool)
        ensures
            r == (self is Both || (self is Stdout && *stream is Stdout) || (self is Stderr && *stream is Stderr)),
    {
        match self {
            StreamFilter::Both => true,
            StreamFilter::Stdout => match stream {
                LogStream::Stdout => true,
                LogStream::Stderr => false,
            },
            StreamFilter::Stderr => match stream {
                LogStream::Stdout => false,
                LogStream::Stderr => true,
            },
        }
    }
}

/// Reads the `service` argument.
pub fn parse_service_name(arguments: &JsonValue) -> (r: Result<&str, McpToolResult>)
    ensures
        match json_get(*arguments, "service"@) {
            Some(v) => match json_str(v) {
                Some(s) => r matches Ok(x) && x@ == s,
                None => r matches Err(e) && is_error_text(e, "Missing or invalid 'service' parameter"@),
            },
            None => r matches Err(e) && is_error_text(e, "Missing or invalid 'service' parameter"@),
        },
{
    match arguments.get("service") {
        Some(v) => match v.as_str() {
            Some(s) => Ok(s),
            None => Err(McpToolResult::error_text("Missing or invalid 'service' parameter")),
        },
        None => Err(McpToolResult::error_text("Missing or invalid 'service' parameter")),
    }
}

/// Reads an optional non-negative integer argument.
pub fn parse_optional_u64(arguments: &JsonValue, key: &str) -> (r: Result<Option<u64>, McpToolResult>)
    ensures
        match json_get(*arguments, key@) {
            None => r == Ok::<Option<u64>, McpToolResult>(None),
            Some(v) => match v {
                JsonValue::Number(n) => match n.unsigned {
                    Some(u) => r == Ok::<Option<u64>, McpToolResult>(Some(u)),
                    None => r matches Err(e) && is_error_text(
                        e,
                        "Invalid '"@ + key@ + "' parameter: expected a non-negative integer"@,
                    ),
                },
                _ => r matches Err(e) && is_error_text(
                    e,
                    "Invalid '"@ + key@ + "' parameter: expected a non-negative integer"@,
                ),
            },
        },
{
    match arguments.get(key) {
        None => Ok(None),
        Some(JsonValue::Number(n)) => match n.unsigned {
            Some(u) => Ok(Some(u)),
            None => Err(error3("Invalid '", key, "' parameter: expected a non-negative integer")),
        },
        Some(_) => Err(error3("Invalid '", key, "' parameter: expected a non-negative integer")),
    }
}

/// Reads an optional boolean argument (anything but a boolean counts as
/// absent).
pub fn parse_bool(arguments: &JsonValue, key: &str, default: bool) -> (r: bool)
    ensures
        r == match json_get(*arguments, key@) {
            Some(JsonValue::Bool(b)) => b,
            _ => default,
        },
{
    match arguments.get(key) {
        Some(JsonValue::Bool(b)) => *b,
        _ => default,
    }
}

/// The outcome of reading a list of patterns: the first item that is no
/// string, or the first pattern that does not compile, is refused.
pub open spec fn pattern_list_outcome(items: Seq<JsonValue>, key: Seq<char>, case_insensitive: bool) -> Option<Seq<char>>
    decreases items.len(),
{
    if items.len() == 0 {
        None
    } else {
        match pattern_list_outcome(items.drop_last(), key, case_insensitive) {
            Some(m) => Some(m),
            None => match json_str(items.last()) {
                None => Some("Invalid '"@ + key + "' parameter: all patterns must be strings"@),
                Some(p) => match regex_compile_error(p, case_insensitive) {
                    Some(e) => Some("Invalid regex in '"@ + key + "': '"@ + p + "' ("@ + e + ")"@),
                    None => None,
                },
            },
        }
    }
}

proof fn lemma_pattern_list_prefix(items: Seq<JsonValue>, key: Seq<char>, ci: bool, m: int)
    requires
        0 <= m <= items.len(),
        pattern_list_outcome(items.take(m), key, ci) is Some,
    ensures
        pattern_list_outcome(items, key, ci) == pattern_list_outcome(items.take(m), key, ci),
    decreases items.len() - m,
{
    if m < items.len() {
        assert(items.take(m + 1).drop_last() =~= items.take(m));
        lemma_pattern_list_prefix(items, key, ci, m + 1);
    } else {
        assert(items.take(m) =~= items);
    }
}

/// Reads a list of regex patterns (an absent argument is an empty list):
/// the patterns, each checked to compile.
pub fn parse_regex_list(arguments: &JsonValue, key: &str, case_sensitive: bool) -> (r: Result<Vec<String>, McpToolResult>)
    ensures
        match json_get(*arguments, key@) {
            None => r matches Ok(v) && v@.len() == 0,
            Some(JsonValue::Array(items)) => match pattern_list_outcome(items@, key@, !case_sensitive) {
                Some(m) => r matches Err(e) && is_error_text(e, m),
                None => r matches Ok(v) && v@.len() == items@.len() && forall|i: int|
                    0 <= i < v@.len() ==> json_str(items@[i]) == Some(#[trigger] v@[i]@),
            },
            Some(_) => r matches Err(e) && is_error_text(
                e,
                "Invalid '"@ + key@ + "' parameter: expected an array of regex patterns"@,
            ),
        },
{
    let items = match arguments.get(key) {
        None => {
            return Ok(Vec::new());
        },
        Some(JsonValue::Array(items)) => items,
        Some(_) => {
            return Err(error3("Invalid '", key, "' parameter: expected an array of regex patterns"));
        },
    };
    let ghost ci = !case_sensitive;
    let mut patterns: Vec<String> = Vec::new();
    let mut i: usize = 0;
    while i < items.len()
        invariant
            json_get(*arguments, key@) is Some,
            json_get(*arguments, key@)->0 is Array,
            json_items(json_get(*arguments, key@)->0) == items@,
            ci == !case_sensitive,
            i <= items@.len(),
            pattern_list_outcome(items@.take(i as int), key@, ci) is None,
            patterns@.len() == i,
            forall|k: int| 0 <= k < i ==> json_str(items@[k]) == Some(#[trigger] patterns@[k]@),
        decreases items@.len() - i,
    {
        assert(items@.take(i + 1).drop_last() =~= items@.take(i as int));
        match items[i].as_str() {
            None => {
                proof {
                    lemma_pattern_list_prefix(items@, key@, ci, i + 1);
                }
                return Err(error3("Invalid '", key, "' parameter: all patterns must be strings"));
            },
            Some(p) => match regex_search(p, !case_sensitive, "") {
                Err(e) => {
                    let mut m = String::new();
                    m.append("Invalid regex in '");
                    m.append(key);
                    m.append("': '");
                    m.append(p);
                    m.append("' (");
                    m.append(e.as_str());
                    m.append(")");
                    proof {
                        lemma_pattern_list_prefix(items@, key@, ci, i + 1);
                    }
                    return Err(McpToolResult::Error { error: m });
                },
                Ok(_) => {
                    patterns.push(String::from_str(p));
                },
            },
        }
        i = i + 1;
    }
    assert(items@.take(items@.len() as int) =~= items@);
    Ok(patterns)
}

/// Some pattern of `patterns` matches `text`.
pub open spec fn any_matches(patterns: Seq<String>, case_insensitive: bool, text: Seq<char>) -> bool {
    exists|i: int| 0 <= i < patterns.len() && regex_is_match(patterns[i]@, case_insensitive, text)
}

/// Whether some pattern matches `text`; every pattern compiles.
fn any_pattern_matches(patterns: &Vec<String>, case_insensitive: bool, text: &str) -> (r: bool)
    requires
        forall|i: int| 0 <= i < patterns@.len() ==> regex_compile_error(#[trigger] patterns@[i]@, case_insensitive) is None,
    ensures
        r == any_matches(patterns@, case_insensitive, text@),
{
    let mut i: usize = 0;
    while i < patterns.len()
        invariant
            i <= patterns@.len(),
            forall|k: int| 0 <= k < patterns@.len() ==> regex_compile_error(#[trigger] patterns@[k]@, case_insensitive) is None,
            forall|k: int| 0 <= k < i ==> !regex_is_match(#[trigger] patterns@[k]@, case_insensitive, text@),
        decreases patterns@.len() - i,
    {
        match regex_search(patterns[i].as_str(), case_insensitive, text) {
            Ok(found) => {
                if found {
                    return true;
                }
            },
            Err(_) => {
                assert(regex_compile_error(patterns@[i as int]@, case_insensitive) is None);
            },
        }
        i = i + 1;
    }
    false
}

/// Whether a line passes the stream filter, at least one include pattern
/// (when there are any) and no exclude pattern.
pub fn line_matches_filters(
    line: &LogLine,
    stream_filter: StreamFilter,
    include_patterns: &Vec<String>,
    exclude_patterns: &Vec<String>,
    case_insensitive: bool,
) -> (r: bool)
    requires
        forall|i: int| 0 <= i < include_patterns@.len() ==> regex_compile_error(#[trigger] include_patterns@[i]@, case_insensitive) is None,
        forall|i: int| 0 <= i < exclude_patterns@.len() ==> regex_compile_error(#[trigger] exclude_patterns@[i]@, case_insensitive) is None,
    ensures
        r == ((stream_filter is Both || (stream_filter is Stdout && line.stream is Stdout) || (stream_filter is Stderr
            && line.stream is Stderr)) && (include_patterns@.len() == 0 || any_matches(include_patterns@, case_insensitive, line.content@))
            && !any_matches(exclude_patterns@, case_insensitive, line.content@)),
{
    if !stream_filter.matches(&line.stream) {
        return false;
    }
    if include_patterns.len() > 0 && !any_pattern_matches(include_patterns, case_insensitive, line.content.as_str()) {
        return false;
    }
    !any_pattern_matches(exclude_patterns, case_insensitive, line.content.as_str())
}

/// `[<timestamp>] [<stream>] <content>`.
pub open spec fn log_line_text(line: LogLine) -> Seq<char> {
    "["@ + timestamp_text(line.timestamp) + "] ["@ + stream_label(line.stream) + "] "@ + line.content@
}

/// A log line as shown to agents.
pub fn format_log_line(line: &LogLine) -> (r: String)
    ensures
        r@ == log_line_text(*line),
{
    let mut r = String::new();
    r.append("[");
    let t = line.timestamp_str();
    r.append(t.as_str());
    r.append("] [");
    r.append(stream_name(line.stream));
    r.append("] ");
    r.append(line.content.as_str());
    r
}

/// A daemon timestamp in seconds, shown with milliseconds: `<s>.000`.
pub fn format_daemon_timestamp(seconds: u64) -> (r: String)
    ensures
        r@ == decimal(seconds as nat) + ".000"@,
{
    let mut r = u64_to_decimal(seconds);
    r.append(".000");
    r
}

/// The text reporting a watch of a service's logs.
pub open spec fn watch_output_text(
    service: Seq<char>,
    stop_reason: Seq<char>,
    matched: bool,
    lagged: u64,
    lines: Seq<Seq<char>>,
) -> Seq<char> {
    "service: "@ + service + "\n"@ + "stop_reason: "@ + stop_reason + "\n"@ + "matched_until_pattern: "@ + (if matched {
        "true"@
    } else {
        "false"@
    }) + "\n"@ + "lines_captured: "@ + decimal(lines.len()) + "\n"@ + "dropped_events: "@ + decimal(lagged as nat)
        + "\n"@ + "\n"@ + "logs:\n"@ + if lines.len() == 0 {
        "(no matching log lines captured)"@
    } else {
        join(lines, "\n"@)
    }
}

/// The report of a watch: the service, why it stopped, whether the stop
/// pattern matched, counts, and the captured lines.
pub fn format_watch_output(
    service: &str,
    stop_reason: &str,
    matched_until_pattern: bool,
    lagged_events: u64,
    lines: &Vec<String>,
) -> (r: String)
    ensures
        r@ == watch_output_text(
            service@,
            stop_reason@,
            matched_until_pattern,
            lagged_events,
            lines@.map_values(|s: String| s@),
        ),
{
    let mut out = String::new();
    out.append("service: ");
    out.append(service);
    out.append("\n");
    out.append("stop_reason: ");
    out.append(stop_reason);
    out.append("\n");
    out.append("matched_until_pattern: ");
    if matched_until_pattern {
        out.append("true");
    } else {
        out.append("false");
    }
    out.append("\n");
    out.append("lines_captured: ");
    let n = u64_to_decimal(lines.len() as u64);
    out.append(n.as_str());
    out.append("\n");
    out.append("dropped_events: ");
    let d = u64_to_decimal(lagged_events);
    out.append(d.as_str());
    out.append("\n");
    out.append("\n");
    out.append("logs:\n");
    if lines.len() == 0 {
        out.append("(no matching log lines captured)");
    } else {
        let joined = join_strings(lines, "\n");
        out.append(joined.as_str());
    }
    assert(out@ =~= watch_output_text(
        service@,
        stop_reason@,
        matched_until_pattern,
        lagged_events,
        lines@.map_values(|s: String| s@),
    ));
    out
}

/// The state of a service as agents see it: a starting service that is
/// already ready counts as running.
pub open spec fn service_status_label(status: Option<ServiceStatus>, is_ready: bool) -> Seq<char> {
    match status {
        None => "not_started"@,
        Some(ServiceStatus::NotStarted) => "not_started"@,
        Some(ServiceStatus::Starting) => if is_ready { "running"@ } else { "starting"@ },
        Some(ServiceStatus::Running) => "running"@,
        Some(ServiceStatus::Stopped) => "stopped"@,
        Some(ServiceStatus::Failed { exit_code }) => "failed (exit code: "@ + signed_decimal(exit_code as int) + ")"@,
    }
}

/// The state of a service as agents see it.
pub fn service_status_text(status: Option<ServiceStatus>, is_ready: bool) -> (r: String)
    ensures
        r@ == service_status_label(status, is_ready),
{
    match status {
        None | Some(ServiceStatus::NotStarted) => String::from_str("not_started"),
        Some(ServiceStatus::Starting) => {
            if is_ready {
                String::from_str("running")
            } else {
                String::from_str("starting")
            }
        },
        Some(ServiceStatus::Running) => String::from_str("running"),
        Some(ServiceStatus::Stopped) => String::from_str("stopped"),
        Some(ServiceStatus::Failed { exit_code }) => {
            let mut r = String::new();
            r.append("failed (exit code: ");
            let d = i32_to_decimal(exit_code);
            r.append(d.as_str());
            r.append(")");
            r
        },
    }
}

/// A millisecond, in nanoseconds.
pub const ONE_MILLISECOND_NANOS: u128 = 1_000_000;

/// How long to wait for the next event, in nanoseconds: the poll interval,
/// cut to what remains of each limit; one millisecond once a limit has
/// passed or when nothing would be left.
pub open spec fn next_wait_nanos(elapsed: u128, duration_limit: Option<u128>, timeout_limit: Option<u128>, poll: u128) -> u128 {
    let over = (duration_limit matches Some(d) && elapsed >= d) || (timeout_limit matches Some(t) && elapsed >= t);
    let w1 = match duration_limit {
        Some(d) => if d - elapsed < poll { (d - elapsed) as u128 } else { poll },
        None => poll,
    };
    let w2 = match timeout_limit {
        Some(t) => if t - elapsed < w1 { (t - elapsed) as u128 } else { w1 },
        None => w1,
    };
    if over || w2 == 0 {
        ONE_MILLISECOND_NANOS
    } else {
        w2
    }
}

/// How long to wait for the next event, `elapsed` nanoseconds into a
/// watch.
pub fn next_wait_duration(elapsed: u128, duration_limit: Option<u128>, timeout_limit: Option<u128>, poll_interval: u128) -> (r: u128)
    ensures
        r == next_wait_nanos(elapsed, duration_limit, timeout_limit, poll_interval),
{
    let mut wait = poll_interval;
    match duration_limit {
        Some(d) => {
            if elapsed >= d {
                return ONE_MILLISECOND_NANOS;
            }
            if d - elapsed < wait {
                wait = d - elapsed;
            }
        },
        None => {},
    }
    match timeout_limit {
        Some(t) => {
            if elapsed >= t {
                return ONE_MILLISECOND_NANOS;
            }
            if t - elapsed < wait {
                wait = t - elapsed;
            }
        },
        None => {},
    }
    if wait == 0 {
        ONE_MILLISECOND_NANOS
    } else {
        wait
    }
}

/// A one-line summary of a tool result for the server's log.
pub open spec fn tool_result_summary(r: McpToolResult) -> Seq<char> {
    match r {
        McpToolResult::Success { content } => "success ("@ + decimal(content@.len()) + " content item(s))"@,
        McpToolResult::Error { error } => "error ("@ + error@ + ")"@,
    }
}

/// A one-line summary of a tool result for the server's log.
pub fn summarize_tool_result(result: &McpToolResult) -> (r: String)
    ensures
        r@ == tool_result_summary(*result),
{
    let mut r = String::new();
    match result {
        McpToolResult::Success { content } => {
            r.append("success (");
            let d = u64_to_decimal(content.len() as u64);
            r.append(d.as_str());
            r.append(" content item(s))");
        },
        McpToolResult::Error { error } => {
            r.append("error (");
            r.append(error.as_str());
            r.append(")");
        },
    }
    r
}


/// What `{:?}` shows for a string: quoted, with escapes.
pub uninterp spec fn debug_escaped(s: Seq<char>) -> Seq<char>;

/// A string as `{:?}` shows it.
///
/// Trusted: formats with `format!("{:?}", s)`, the `Debug` form of `str`
/// (quoted, special characters escaped); the contract names it.
#[verifier::external_body]
fn debug_string(s: &str) -> (r: String)
    ensures
        r@ == debug_escaped(s@),
{
    format!("{:?}", s)
}

/// The lower-case form of a text, as `str::to_lowercase` gives it.
pub uninterp spec fn lowercased(s: Seq<char>) -> Seq<char>;

/// The lower-case form of a text.
///
/// Trusted: calls `str::to_lowercase` (Unicode lower-case mapping); the
/// contract names the result.
#[verifier::external_body]
fn lowercase(s: &str) -> (r: String)
    ensures
        r@ == lowercased(s@),
{
    s.to_lowercase()
}

/// A short description of a JSON value for the server's log: scalars as
/// they are, strings quoted (cut to 80 characters, with the count), arrays
/// and objects by size.
pub open spec fn json_summary(v: JsonValue) -> Seq<char> {
    match v {
        JsonValue::Null => "null"@,
        JsonValue::Bool(b) => if b { "true"@ } else { "false"@ },
        JsonValue::Number(n) => n.text@,
        JsonValue::String(t) => if t@.len() <= 80 {
            debug_escaped(t@)
        } else {
            debug_escaped(t@.take(80)) + "...("@ + decimal(t@.len()) + " chars)"@
        },
        JsonValue::Array(items) => "["@ + decimal(items@.len()) + " item(s)]"@,
        JsonValue::Object(members) => "{"@ + decimal(members@.len()) + " key(s)}"@,
    }
}

/// A short description of a JSON value for the server's log.
pub fn summarize_json_value(value: &JsonValue) -> (r: String)
    ensures
        r@ == json_summary(*value),
{
    match value {
        JsonValue::Null => String::from_str("null"),
        JsonValue::Bool(b) => {
            if *b {
                String::from_str("true")
            } else {
                String::from_str("false")
            }
        },
        JsonValue::Number(n) => n.text.clone(),
        JsonValue::String(text) => {
            let count = text.unicode_len();
            if count <= 80 {
                debug_string(text.as_str())
            } else {
                let cs = crate::text::str_chars(text.as_str());
                let prefix = crate::text::string_from_range(cs.as_slice(), 0, 80);
                assert(cs@.subrange(0, 80) =~= text@.take(80));
                let mut r = debug_string(prefix.as_str());
                r.append("...(");
                let d = u64_to_decimal(count as u64);
                r.append(d.as_str());
                r.append(" chars)");
                r
            }
        },
        JsonValue::Array(items) => {
            let mut r = String::new();
            r.append("[");
            let d = u64_to_decimal(items.len() as u64);
            r.append(d.as_str());
            r.append(" item(s)]");
            r
        },
        JsonValue::Object(members) => {
            let mut r = String::new();
            r.append("{");
            let d = u64_to_decimal(members.len() as u64);
            r.append(d.as_str());
            r.append(" key(s)}");
            r
        },
    }
}

/// `key=<summary of the member named key>`.
pub open spec fn argument_entry(members: Seq<(String, JsonValue)>, key: Seq<char>) -> Seq<char> {
    key + "="@ + match first_index(key_seq(members), key) {
        Some(i) => json_summary(members[i].1),
        None => "null"@,
    }
}

/// `r` lists the members, by the keys `keys`, which are the members' keys
/// in order.
pub open spec fn summary_by_keys(members: Seq<(String, JsonValue)>, keys: Seq<Seq<char>>, r: Seq<char>) -> bool {
    &&& keys.to_multiset() == key_seq(members).to_multiset()
    &&& forall|i: int, j: int| 0 <= i < j < keys.len() ==> lex_le(#[trigger] keys[i], #[trigger] keys[j])
    &&& r == join(keys.map_values(|k: Seq<char>| argument_entry(members, k)), ", "@)
}

/// A one-line summary of tool arguments for the server's log.
pub open spec fn arguments_summary_ok(args: JsonValue, r: Seq<char>) -> bool {
    match args {
        JsonValue::Object(members) => if members@.len() == 0 {
            r == "no arguments"@
        } else {
            exists|keys: Seq<Seq<char>>| #[trigger] summary_by_keys(members@, keys, r)
        },
        _ => r == "non-object args: "@ + json_summary(args),
    }
}

/// A one-line summary of tool arguments for the server's log: each
/// argument as `key=<summary>`, by key.
pub fn summarize_tool_arguments(arguments: &JsonValue) -> (r: String)
    ensures
        arguments_summary_ok(*arguments, r@),
{
    let members = match arguments {
        JsonValue::Object(ms) => ms,
        _ => {
            let mut r = String::new();
            r.append("non-object args: ");
            let s = summarize_json_value(arguments);
            r.append(s.as_str());
            return r;
        },
    };
    if members.len() == 0 {
        return String::from_str("no arguments");
    }
    let mut keys: Vec<String> = Vec::new();
    let mut i: usize = 0;
    while i < members.len()
        invariant
            i <= members@.len(),
            keys@.len() == i,
            forall|j: int| 0 <= j < i ==> #[trigger] keys@[j]@ == members@[j].0@,
        decreases members@.len() - i,
    {
        keys.push(members[i].0.clone());
        i = i + 1;
    }
    assert(keys@.map_values(|s: String| s@) =~= key_seq(members@));
    sort_strings(&mut keys);
    let ghost kv = keys@.map_values(|s: String| s@);
    let mut entries: Vec<String> = Vec::new();
    let mut k: usize = 0;
    while k < keys.len()
        invariant
            kv == keys@.map_values(|s: String| s@),
            k <= keys@.len(),
            entries@.map_values(|s: String| s@) == kv.take(k as int).map_values(|key: Seq<char>| argument_entry(members@, key)),
        decreases keys@.len() - k,
    {
        let mut e = keys[k].clone();
        e.append("=");
        proof {
            lemma_first_index(key_seq(members@), keys@[k as int]@);
        }
        let summary = match find_key(members, keys[k].as_str()) {
            Some(x) => summarize_json_value(&members[x].1),
            None => String::from_str("null"),
        };
        e.append(summary.as_str());
        let ghost before = entries@.map_values(|s: String| s@);
        entries.push(e);
        assert(entries@.map_values(|s: String| s@) =~= before.push(argument_entry(members@, kv[k as int])));
        assert(kv.take(k + 1).map_values(|key: Seq<char>| argument_entry(members@, key)) =~= before.push(
            argument_entry(members@, kv[k as int]),
        ));
        k = k + 1;
    }
    assert(kv.take(keys@.len() as int) =~= kv);
    let r = join_strings(&entries, ", ");
    proof {
        assert(forall|a: int, b: int| 0 <= a < b < kv.len() ==> lex_le(#[trigger] kv[a], #[trigger] kv[b]));
        assert(summary_by_keys(members@, kv, r@));
    }
    r
}


/// What a `read_logs` call asks for.
#[derive(Debug)]
pub struct ReadLogsRequest {
    pub service: String,
    pub lines: LogLineCount,
    pub case_sensitive: bool,
    pub contains: Option<String>,
    pub stream: StreamFilter,
}

/// The message for a `lines` argument that is not a positive count or
/// `all`.
pub open spec fn lines_message(present: bool) -> Seq<char> {
    if present {
        "Invalid 'lines' parameter: must be >= 1 or 'all'"@
    } else {
        "Missing or invalid 'lines' parameter: must be >= 1 or 'all'"@
    }
}

/// What the `lines` argument asks for, or the message refusing it.
pub open spec fn lines_outcome(v: Option<JsonValue>) -> Result<LogLineCount, Seq<char>> {
    match v {
        Some(JsonValue::String(s)) => if s@ == "all"@ { Ok(LogLineCount::All) } else { Err(lines_message(false)) },
        Some(JsonValue::Number(n)) => match n.unsigned {
            Some(u) => if u == 0 { Err(lines_message(true)) } else { Ok(LogLineCount::Last(u as usize)) },
            None => Err(lines_message(true)),
        },
        _ => Err(lines_message(false)),
    }
}

/// Reads the arguments of `read_logs`: the service, how many lines (a
/// positive count or `all`), an optional text filter and its case
/// sensitivity, and the stream filter.
pub fn read_logs_request(arguments: &JsonValue) -> (r: Result<ReadLogsRequest, McpToolResult>)
    ensures
        match json_get(*arguments, "service"@) {
            Some(JsonValue::String(service)) => match lines_outcome(json_get(*arguments, "lines"@)) {
                Err(m) => r matches Err(e) && is_error_text(e, m),
                Ok(count) => match stream_arg_error(*arguments) {
                    Some(m) => r matches Err(e) && is_error_text(e, m),
                    None => r matches Ok(req) && req.service@ == service@ && req.lines == count
                        && req.case_sensitive == case_sensitive_arg(*arguments) && req.stream == stream_arg(*arguments)
                        && (match req.contains {
                        Some(c) => str_arg(*arguments, "contains"@) == Some(c@),
                        None => str_arg(*arguments, "contains"@) is None,
                    }),
                },
            },
            _ => r matches Err(e) && is_error_text(e, "Missing or invalid 'service' parameter"@),
        },
{
    let service = match parse_service_name(arguments) {
        Ok(s) => String::from_str(s),
        Err(e) => {
            return Err(e);
        },
    };
    let lines = match arguments.get("lines") {
        Some(JsonValue::String(s)) => {
            if str_eq(s.as_str(), "all") {
                LogLineCount::All
            } else {
                return Err(McpToolResult::error_text("Missing or invalid 'lines' parameter: must be >= 1 or 'all'"));
            }
        },
        Some(JsonValue::Number(n)) => match n.unsigned {
            Some(u) => {
                if u == 0 {
                    return Err(McpToolResult::error_text("Invalid 'lines' parameter: must be >= 1 or 'all'"));
                }
                LogLineCount::Last(#[verifier::truncate] (u as usize))
            },
            None => {
                return Err(McpToolResult::error_text("Invalid 'lines' parameter: must be >= 1 or 'all'"));
            },
        },
        _ => {
            return Err(McpToolResult::error_text("Missing or invalid 'lines' parameter: must be >= 1 or 'all'"));
        },
    };
    let case_sensitive = parse_bool(arguments, "caseSensitive", false);
    let contains = match arguments.get("contains") {
        Some(JsonValue::String(t)) => Some(t.clone()),
        _ => None,
    };
    let stream = match StreamFilter::from_value(arguments.get("stream")) {
        Ok(f) => f,
        Err(e) => {
            return Err(e);
        },
    };
    Ok(ReadLogsRequest { service, lines, case_sensitive, contains, stream })
}

/// The text filter admits `content`: it contains the filter text, or
/// (without case sensitivity) its lower-case form contains the filter's.
pub open spec fn text_filter_admits(contains: Option<String>, case_sensitive: bool, content: Seq<char>) -> bool {
    match contains {
        None => true,
        Some(c) => if case_sensitive {
            contains_seq(content, c@)
        } else {
            contains_seq(lowercased(content), lowercased(c@))
        },
    }
}

/// Whether the text filter admits `content`.
fn text_filter_matches(contains: &Option<String>, case_sensitive: bool, content: &str) -> (r: bool)
    ensures
        r == text_filter_admits(*contains, case_sensitive, content@),
{
    match contains {
        None => true,
        Some(c) => {
            if case_sensitive {
                str_contains(content, c.as_str())
            } else {
                let a = lowercase(content);
                let b = lowercase(c.as_str());
                str_contains(a.as_str(), b.as_str())
            }
        },
    }
}

/// The stream filter admits a stream.
pub open spec fn stream_admits(f: StreamFilter, s: LogStream) -> bool {
    f is Both || (f is Stdout && s is Stdout) || (f is Stderr && s is Stderr)
}

/// The stream and text filters of a request admit a line.
pub open spec fn line_admitted(req: ReadLogsRequest, l: LogLine) -> bool {
    stream_admits(req.stream, l.stream) && text_filter_admits(req.contains, req.case_sensitive, l.content@)
}

/// With `caseSensitive` set, a `read_logs` request with the text `c`
/// returns a line exactly when its stream passes and its content contains
/// `c` as written: a line that differs from it only in letter case is left
/// out. Without a text, only the stream decides.
pub proof fn law_case_sensitive_filter_matches_as_written(req: ReadLogsRequest, l: LogLine)
    ensures
        req.case_sensitive && req.contains is Some ==> (line_admitted(req, l) <==> stream_admits(req.stream, l.stream)
            && contains_seq(l.content@, req.contains->0@)),
        req.contains is None ==> (line_admitted(req, l) <==> stream_admits(req.stream, l.stream)),
{
}

/// The lines `read_logs` returns: those the stream and text filters admit,
/// formatted, one per line.
pub fn read_logs_output(lines: &Vec<LogLine>, req: &ReadLogsRequest) -> (r: McpToolResult)
    ensures
        is_success_text(
            r,
            join(
                lines@.filter(|l: LogLine| line_admitted(*req, l)).map_values(|l: LogLine| log_line_text(l)),
                "\n"@,
            ),
        ),
{
    let ghost pred = |l: LogLine| line_admitted(*req, l);
    let mut out: Vec<String> = Vec::new();
    let mut i: usize = 0;
    while i < lines.len()
        invariant
            pred == (|l: LogLine| line_admitted(*req, l)),
            i <= lines@.len(),
            out@.map_values(|s: String| s@) == lines@.take(i as int).filter(pred).map_values(|l: LogLine| log_line_text(l)),
        decreases lines@.len() - i,
    {
        proof {
            assert(lines@.take(i + 1).drop_last() =~= lines@.take(i as int));
            reveal(Seq::filter);
        }
        let line = &lines[i];
        let ghost before = out@.map_values(|s: String| s@);
        if req.stream.matches(&line.stream) && text_filter_matches(&req.contains, req.case_sensitive, line.content.as_str()) {
            let t = format_log_line(line);
            out.push(t);
            assert(out@.map_values(|s: String| s@) =~= before.push(log_line_text(lines@[i as int])));
        }
        assert(out@.map_values(|s: String| s@) =~= lines@.take(i + 1).filter(pred).map_values(|l: LogLine| log_line_text(l)));
        i = i + 1;
    }
    assert(lines@.take(lines@.len() as int) =~= lines@);
    let text = join_strings(&out, "\n");
    McpToolResult::success_text(text)
}

/// The stream a daemon log item names (`stdout` unless it says `stderr`).
pub open spec fn item_stream(name: Seq<char>) -> LogStream {
    if name == "stderr"@ { LogStream::Stderr } else { LogStream::Stdout }
}

/// The stream name of a daemon log item (`stdout` when missing).
pub open spec fn item_stream_name(item: JsonValue) -> Seq<char> {
    match json_get(item, "stream"@) {
        Some(v) => match json_str(v) {
            Some(s) => s,
            None => "stdout"@,
        },
        None => "stdout"@,
    }
}

/// The timestamp text of a daemon log item (`0.000` when missing).
pub open spec fn item_timestamp(item: JsonValue) -> Seq<char> {
    match json_get(item, "timestamp"@) {
        Some(JsonValue::Number(n)) => match n.unsigned {
            Some(u) => decimal(u as nat) + ".000"@,
            None => "0.000"@,
        },
        _ => "0.000"@,
    }
}

/// The line shown for a daemon log item, if it has text content and the
/// filters admit it.
pub open spec fn item_line(item: JsonValue, req: ReadLogsRequest) -> Option<Seq<char>> {
    match json_get(item, "content"@) {
        Some(c) => match json_str(c) {
            Some(content) => if stream_admits(req.stream, item_stream(item_stream_name(item))) && text_filter_admits(
                req.contains,
                req.case_sensitive,
                content,
            ) {
                Some("["@ + item_timestamp(item) + "] ["@ + item_stream_name(item) + "] "@ + content)
            } else {
                None
            },
            None => None,
        },
        None => None,
    }
}

/// The shown lines of the first `k` daemon log items.
pub open spec fn item_lines(items: Seq<JsonValue>, req: ReadLogsRequest) -> Seq<Seq<char>>
    decreases items.len(),
{
    if items.len() == 0 {
        Seq::empty()
    } else {
        let rest = item_lines(items.drop_last(), req);
        match item_line(items.last(), req) {
            Some(l) => rest.push(l),
            None => rest,
        }
    }
}

/// What `read_logs` answers from the orchestrator's own buffers, when no
/// extension daemon answered: an error for a service the configuration
/// does not have, else the buffered lines the request selects, those the
/// filters admit, formatted, one per line.
pub fn local_read_logs(services: &ServiceMap, buffer: &LogBuffer, req: &ReadLogsRequest) -> (r: McpToolResult)
    requires
        services.wf(),
        buffer.wf(),
    ensures
        !has_name(services.entries(), req.service@) ==> is_error_text(r, "Service not found: "@ + req.service@),
        has_name(services.entries(), req.service@) ==> is_success_text(
            r,
            join(
                selected(held_for(buffer@, req.service@), req.lines).filter(|l: LogLine| line_admitted(*req, l)).map_values(
                    |l: LogLine| log_line_text(l),
                ),
                "\n"@,
            ),
        ),
{
    if !services.contains_key(req.service.as_str()) {
        return service_not_found(req.service.as_str());
    }
    let lines = buffer.get_lines(req.service.as_str(), req.lines);
    read_logs_output(&lines, req)
}

/// The lines `read_logs` returns from the extension daemon's `getLogs`
/// answer: its `logs` items with text content that the filters admit.
pub fn daemon_read_logs_output(result: &JsonValue, req: &ReadLogsRequest) -> (r: McpToolResult)
    ensures
        match json_get(*result, "logs"@) {
            Some(JsonValue::Array(items)) => is_success_text(r, join(item_lines(items@, *req), "\n"@)),
            _ => is_error_text(r, "Failed to read logs from daemon: invalid response payload"@),
        },
{
    let items = match result.get("logs") {
        Some(JsonValue::Array(items)) => items,
        _ => {
            return McpToolResult::error_text("Failed to read logs from daemon: invalid response payload");
        },
    };
    let mut out: Vec<String> = Vec::new();
    let mut i: usize = 0;
    while i < items.len()
        invariant
            i <= items@.len(),
            out@.map_values(|s: String| s@) == item_lines(items@.take(i as int), *req),
        decreases items@.len() - i,
    {
        proof {
            assert(items@.take(i + 1).drop_last() =~= items@.take(i as int));
        }
        let item = &items[i];
        let ghost before = out@.map_values(|s: String| s@);
        match item.get("content") {
            Some(c) => match c.as_str() {
                Some(content) => {
                    let sname: &str = match item.get("stream") {
                        Some(v) => match v.as_str() {
                            Some(x) => x,
                            None => "stdout",
                        },
                        None => "stdout",
                    };
                    let stream = if str_eq(sname, "stderr") { LogStream::Stderr } else { LogStream::Stdout };
                    if req.stream.matches(&stream) && text_filter_matches(&req.contains, req.case_sensitive, content) {
                        let ts = match item.get("timestamp") {
                            Some(JsonValue::Number(n)) => match n.unsigned {
                                Some(u) => format_daemon_timestamp(u),
                                None => String::from_str("0.000"),
                            },
                            _ => String::from_str("0.000"),
                        };
                        let mut line = String::new();
                        line.append("[");
                        line.append(ts.as_str());
                        line.append("] [");
                        line.append(sname);
                        line.append("] ");
                        line.append(content);
                        out.push(line);
                        assert(out@.map_values(|s: String| s@) =~= before.push(item_line(items@[i as int], *req)->0));
                    }
                },
                None => {},
            },
            None => {},
        }
        assert(out@.map_values(|s: String| s@) =~= item_lines(items@.take(i + 1), *req));
        i = i + 1;
    }
    assert(items@.take(items@.len() as int) =~= items@);
    let text = join_strings(&out, "\n");
    McpToolResult::success_text(text)
}


/// What a `watch_logs` call asks for.
#[derive(Debug)]
pub struct WatchLogsRequest {
    pub service: String,
    pub duration_seconds: Option<u64>,
    /// `None` also when a timeout of 0 (no timeout) was given.
    pub timeout_seconds: Option<u64>,
    pub case_sensitive: bool,
    pub stream: StreamFilter,
    pub include_patterns: Vec<String>,
    pub exclude_patterns: Vec<String>,
    pub until_pattern: Option<String>,
    pub poll_interval_ms: u64,
    pub max_lines: usize,
    pub include_existing: bool,
}

/// Every pattern of the request compiles, and the request asks for a
/// duration or a stop pattern.
pub open spec fn watch_request_wf(req: WatchLogsRequest) -> bool {
    let ci = !req.case_sensitive;
    &&& forall|i: int| 0 <= i < req.include_patterns@.len() ==> regex_compile_error(#[trigger] req.include_patterns@[i]@, ci) is None
    &&& forall|i: int| 0 <= i < req.exclude_patterns@.len() ==> regex_compile_error(#[trigger] req.exclude_patterns@[i]@, ci) is None
    &&& (req.until_pattern matches Some(p) ==> regex_compile_error(p@, ci) is None)
    &&& (req.duration_seconds is Some || req.until_pattern is Some)
    &&& req.poll_interval_ms >= 50
}

/// `req` is the request the arguments `args` describe.
pub open spec fn watch_request_from(args: JsonValue, req: WatchLogsRequest) -> bool {
    &&& watch_request_wf(req)
    &&& req.stream == stream_arg(args)
    &&& req.include_patterns@.map_values(|p: String| p@) == pattern_arg(args, "includePatterns"@)
    &&& req.exclude_patterns@.map_values(|p: String| p@) == pattern_arg(args, "excludePatterns"@)
    &&& (match req.until_pattern {
        Some(p) => str_arg(args, "untilPattern"@) == Some(p@),
        None => str_arg(args, "untilPattern"@) is None,
    })
    &&& json_get(args, "service"@) matches Some(JsonValue::String(s)) && s@ == req.service@
    &&& req.case_sensitive == (match json_get(args, "caseSensitive"@) {
        Some(JsonValue::Bool(b)) => b,
        _ => false,
    })
    &&& req.include_existing == (match json_get(args, "includeExisting"@) {
        Some(JsonValue::Bool(b)) => b,
        _ => false,
    })
    &&& req.poll_interval_ms == (match json_get(args, "pollIntervalMs"@) {
        Some(JsonValue::Number(n)) => n.unsigned->0,
        _ => 250,
    })
    &&& req.max_lines == (match json_get(args, "maxLines"@) {
        Some(JsonValue::Number(n)) => n.unsigned->0 as usize,
        _ => 200,
    })
    &&& req.duration_seconds == (match json_get(args, "durationSeconds"@) {
        Some(JsonValue::Number(n)) => n.unsigned,
        _ => None,
    })
    &&& req.timeout_seconds == (match json_get(args, "timeoutSeconds"@) {
        Some(JsonValue::Number(n)) => if n.unsigned == Some(0u64) { None } else { n.unsigned },
        _ => None,
    })
}

/// The text of the `key` argument when it is a string.
pub open spec fn str_arg(args: JsonValue, key: Seq<char>) -> Option<Seq<char>> {
    match json_get(args, key) {
        Some(v) => json_str(v),
        None => None,
    }
}

/// The `key` argument as a non-negative integer, when it is one.
pub open spec fn u64_arg(args: JsonValue, key: Seq<char>) -> Option<u64> {
    match json_get(args, key) {
        Some(JsonValue::Number(n)) => n.unsigned,
        _ => None,
    }
}

/// The message for a `key` argument that is given but is not a
/// non-negative integer.
pub open spec fn u64_arg_error(args: JsonValue, key: Seq<char>) -> Option<Seq<char>> {
    match json_get(args, key) {
        None => None,
        Some(v) => if u64_arg(args, key) is Some {
            None
        } else {
            Some("Invalid '"@ + key + "' parameter: expected a non-negative integer"@)
        },
    }
}

/// The message for a `stream` argument that names no stream filter.
pub open spec fn stream_arg_error(args: JsonValue) -> Option<Seq<char>> {
    match str_arg(args, "stream"@) {
        Some(s) => if s == "both"@ || s == "stdout"@ || s == "stderr"@ {
            None
        } else {
            Some("Invalid 'stream' value '"@ + s + "': expected 'stdout', 'stderr', or 'both'"@)
        },
        None => None,
    }
}

/// The stream filter a `stream` argument selects.
pub open spec fn stream_arg(args: JsonValue) -> StreamFilter {
    match str_arg(args, "stream"@) {
        Some(s) => if s == "both"@ {
            StreamFilter::Both
        } else if s == "stdout"@ {
            StreamFilter::Stdout
        } else if s == "stderr"@ {
            StreamFilter::Stderr
        } else {
            StreamFilter::Both
        },
        None => StreamFilter::Both,
    }
}

/// The message for a pattern list argument that is not a list of patterns
/// that compile.
pub open spec fn pattern_arg_error(args: JsonValue, key: Seq<char>, case_insensitive: bool) -> Option<Seq<char>> {
    match json_get(args, key) {
        None => None,
        Some(JsonValue::Array(items)) => pattern_list_outcome(items@, key, case_insensitive),
        Some(_) => Some("Invalid '"@ + key + "' parameter: expected an array of regex patterns"@),
    }
}

/// The patterns of a pattern list argument.
pub open spec fn pattern_arg(args: JsonValue, key: Seq<char>) -> Seq<Seq<char>> {
    match json_get(args, key) {
        Some(JsonValue::Array(items)) => items@.map_values(|v: JsonValue| json_str(v)->0),
        _ => Seq::empty(),
    }
}

/// The `caseSensitive` argument (false unless it is `true`).
pub open spec fn case_sensitive_arg(args: JsonValue) -> bool {
    match json_get(args, "caseSensitive"@) {
        Some(JsonValue::Bool(b)) => b,
        _ => false,
    }
}

/// Why the arguments of `watch_logs` are refused, checked in this order:
/// the service, the duration, the timeout, the stream, the include and
/// exclude patterns, the stop pattern, that a duration or a stop pattern
/// is given, the poll interval, the line limit.
pub open spec fn watch_request_error(args: JsonValue) -> Option<Seq<char>> {
    let ci = !case_sensitive_arg(args);
    if str_arg(args, "service"@) is None {
        Some("Missing or invalid 'service' parameter"@)
    } else if u64_arg_error(args, "durationSeconds"@) is Some {
        u64_arg_error(args, "durationSeconds"@)
    } else if u64_arg_error(args, "timeoutSeconds"@) is Some {
        u64_arg_error(args, "timeoutSeconds"@)
    } else if stream_arg_error(args) is Some {
        stream_arg_error(args)
    } else if pattern_arg_error(args, "includePatterns"@, ci) is Some {
        pattern_arg_error(args, "includePatterns"@, ci)
    } else if pattern_arg_error(args, "excludePatterns"@, ci) is Some {
        pattern_arg_error(args, "excludePatterns"@, ci)
    } else if str_arg(args, "untilPattern"@) matches Some(p) && regex_compile_error(p, ci) is Some {
        Some(
            "Invalid 'untilPattern' regex '"@ + str_arg(args, "untilPattern"@)->0 + "': "@ + regex_compile_error(
                str_arg(args, "untilPattern"@)->0,
                ci,
            )->0,
        )
    } else if u64_arg(args, "durationSeconds"@) is None && str_arg(args, "untilPattern"@) is None {
        Some("watch_logs requires either 'durationSeconds' or 'untilPattern'"@)
    } else if u64_arg_error(args, "pollIntervalMs"@) is Some {
        u64_arg_error(args, "pollIntervalMs"@)
    } else if u64_arg(args, "pollIntervalMs"@) matches Some(v) && v < 50 {
        Some("Invalid 'pollIntervalMs': must be >= 50 milliseconds"@)
    } else if u64_arg_error(args, "maxLines"@) is Some {
        u64_arg_error(args, "maxLines"@)
    } else if u64_arg(args, "maxLines"@) == Some(0u64) {
        Some("Invalid 'maxLines': must be >= 1"@)
    } else {
        None
    }
}

/// Reads the arguments of `watch_logs`: the service; a duration and an
/// absolute timeout in seconds (a timeout of 0 means none); case
/// sensitivity; the stream filter; include and exclude patterns; a stop
/// pattern; the poll interval (at least 50 ms, default 250); the most
/// lines to capture (at least 1, default 200); whether to include lines
/// already buffered. A duration or a stop pattern is required.
pub fn watch_logs_request(arguments: &JsonValue) -> (r: Result<WatchLogsRequest, McpToolResult>)
    ensures
        match watch_request_error(*arguments) {
            Some(m) => r matches Err(e) && is_error_text(e, m),
            None => r is Ok,
        },
        r matches Ok(req) ==> watch_request_from(*arguments, req),
{
    let service = match parse_service_name(arguments) {
        Ok(s) => String::from_str(s),
        Err(e) => {
            return Err(e);
        },
    };
    let duration_seconds = match parse_optional_u64(arguments, "durationSeconds") {
        Ok(v) => v,
        Err(e) => {
            return Err(e);
        },
    };
    let timeout_seconds = match parse_optional_u64(arguments, "timeoutSeconds") {
        Ok(Some(0)) => None,
        Ok(v) => v,
        Err(e) => {
            return Err(e);
        },
    };
    let case_sensitive = parse_bool(arguments, "caseSensitive", false);
    let stream = match StreamFilter::from_value(arguments.get("stream")) {
        Ok(f) => f,
        Err(e) => {
            return Err(e);
        },
    };
    let include_patterns = match parse_regex_list(arguments, "includePatterns", case_sensitive) {
        Ok(p) => p,
        Err(e) => {
            return Err(e);
        },
    };
    let exclude_patterns = match parse_regex_list(arguments, "excludePatterns", case_sensitive) {
        Ok(p) => p,
        Err(e) => {
            return Err(e);
        },
    };
    let until_pattern = match arguments.get("untilPattern") {
        Some(v) => match v.as_str() {
            Some(p) => match regex_search(p, !case_sensitive, "") {
                Ok(_) => Some(String::from_str(p)),
                Err(e) => {
                    let mut m = String::new();
                    m.append("Invalid 'untilPattern' regex '");
                    m.append(p);
                    m.append("': ");
                    m.append(e.as_str());
                    return Err(McpToolResult::Error { error: m });
                },
            },
            None => None,
        },
        None => None,
    };
    if duration_seconds.is_none() && until_pattern.is_none() {
        return Err(McpToolResult::error_text("watch_logs requires either 'durationSeconds' or 'untilPattern'"));
    }
    let poll_interval_ms = match parse_optional_u64(arguments, "pollIntervalMs") {
        Ok(Some(v)) => {
            if v < 50 {
                return Err(McpToolResult::error_text("Invalid 'pollIntervalMs': must be >= 50 milliseconds"));
            }
            v
        },
        Ok(None) => 250,
        Err(e) => {
            return Err(e);
        },
    };
    let max_lines: usize = match parse_optional_u64(arguments, "maxLines") {
        Ok(Some(v)) => {
            if v == 0 {
                return Err(McpToolResult::error_text("Invalid 'maxLines': must be >= 1"));
            }
            #[verifier::truncate] (v as usize)
        },
        Ok(None) => 200,
        Err(e) => {
            return Err(e);
        },
    };
    let include_existing = parse_bool(arguments, "includeExisting", false);
    proof {
        let ci = !case_sensitive;
        assert forall|i: int| 0 <= i < include_patterns@.len() implies regex_compile_error(#[trigger] include_patterns@[i]@, ci) is None by {
            reveal_pattern_list(arguments, "includePatterns"@, ci, include_patterns@, i);
        }
        assert forall|i: int| 0 <= i < exclude_patterns@.len() implies regex_compile_error(#[trigger] exclude_patterns@[i]@, ci) is None by {
            reveal_pattern_list(arguments, "excludePatterns"@, ci, exclude_patterns@, i);
        }
        assert(include_patterns@.map_values(|p: String| p@) =~= pattern_arg(*arguments, "includePatterns"@));
        assert(exclude_patterns@.map_values(|p: String| p@) =~= pattern_arg(*arguments, "excludePatterns"@));
    }
    Ok(
        WatchLogsRequest {
            service,
            duration_seconds,
            timeout_seconds,
            case_sensitive,
            stream,
            include_patterns,
            exclude_patterns,
            until_pattern,
            poll_interval_ms,
            max_lines,
            include_existing,
        },
    )
}

/// A pattern list read without error holds patterns that compile.
proof fn reveal_pattern_list(arguments: &JsonValue, key: Seq<char>, ci: bool, patterns: Seq<String>, i: int)
    requires
        0 <= i < patterns.len(),
        match json_get(*arguments, key) {
            None => patterns.len() == 0,
            Some(JsonValue::Array(items)) => pattern_list_outcome(items@, key, ci) is None && patterns.len() == items@.len()
                && forall|k: int| 0 <= k < patterns.len() ==> json_str(items@[k]) == Some(#[trigger] patterns[k]@),
            Some(_) => false,
        },
    ensures
        regex_compile_error(patterns[i]@, ci) is None,
{
    match json_get(*arguments, key) {
        Some(JsonValue::Array(items)) => {
            lemma_pattern_list_ok(items@, key, ci, i);
            assert(json_str(items@[i]) == Some(patterns[i]@));
        },
        _ => {},
    }
}

/// When no item of a list is refused, each item is a pattern that
/// compiles.
proof fn lemma_pattern_list_ok(items: Seq<JsonValue>, key: Seq<char>, ci: bool, i: int)
    requires
        0 <= i < items.len(),
        pattern_list_outcome(items, key, ci) is None,
    ensures
        json_str(items[i]) is Some,
        regex_compile_error(json_str(items[i])->0, ci) is None,
    decreases items.len(),
{
    if i < items.len() - 1 {
        lemma_pattern_list_ok(items.drop_last(), key, ci, i);
        assert(items.drop_last()[i] == items[i]);
    }
}

/// The progress of a watch: the captured lines, whether the stop pattern
/// matched, why the watch stopped (once it has), and how many events were
/// dropped.
#[derive(Debug)]
pub struct LogWatch {
    pub captured: Vec<String>,
    pub matched_until_pattern: bool,
    pub stop_reason: Option<String>,
    pub lagged_events: u64,
}

/// The stop pattern of a request matches `content`.
pub open spec fn until_matches(req: WatchLogsRequest, content: Seq<char>) -> bool {
    req.until_pattern matches Some(p) && regex_is_match(p@, !req.case_sensitive, content)
}

/// The filters of a watch admit a line.
pub open spec fn watch_admits(req: WatchLogsRequest, line: LogLine) -> bool {
    let ci = !req.case_sensitive;
    &&& stream_admits(req.stream, line.stream)
    &&& (req.include_patterns@.len() == 0 || any_matches(req.include_patterns@, ci, line.content@))
    &&& !any_matches(req.exclude_patterns@, ci, line.content@)
}

impl LogWatch {
    /// A watch that has captured nothing yet.
    pub fn new() -> (r: Self)
        ensures
            r.captured@.len() == 0,
            !r.matched_until_pattern,
            r.stop_reason is None,
            r.lagged_events == 0,
    {
        LogWatch { captured: Vec::new(), matched_until_pattern: false, stop_reason: None, lagged_events: 0 }
    }

    /// Takes a line of the watched service: a line the filters admit is
    /// captured, and noted when the stop pattern matches it.
    pub fn offer_line(&mut self, req: &WatchLogsRequest, line: &LogLine) -> (taken: bool)
        requires
            watch_request_wf(*req),
        ensures
            taken == watch_admits(*req, *line),
            taken ==> final(self).captured@.map_values(|s: String| s@) == old(self).captured@.map_values(|s: String| s@).push(log_line_text(*line)),
            !taken ==> final(self).captured@ == old(self).captured@,
            final(self).matched_until_pattern == (old(self).matched_until_pattern || (taken && until_matches(*req, line.content@))),
            final(self).stop_reason == old(self).stop_reason,
            final(self).lagged_events == old(self).lagged_events,
    {
        let ci = !req.case_sensitive;
        if !line_matches_filters(line, req.stream, &req.include_patterns, &req.exclude_patterns, ci) {
            return false;
        }
        match &req.until_pattern {
            Some(p) => match regex_search(p.as_str(), ci, line.content.as_str()) {
                Ok(found) => {
                    if found {
                        self.matched_until_pattern = true;
                    }
                },
                Err(_) => {},
            },
            None => {},
        }
        let t = format_log_line(line);
        let ghost before = self.captured@.map_values(|s: String| s@);
        self.captured.push(t);
        assert(self.captured@.map_values(|s: String| s@) =~= before.push(log_line_text(*line)));
        true
    }

    /// Takes a buffered line at the start of a watch; stops the watch once
    /// enough lines are captured or the stop pattern matched.
    pub fn offer_existing(&mut self, req: &WatchLogsRequest, line: &LogLine) -> (stopped: bool)
        requires
            watch_request_wf(*req),
            old(self).stop_reason is None,
        ensures
            stopped == (final(self).stop_reason is Some),
            final(self).matched_until_pattern == (old(self).matched_until_pattern || (watch_admits(*req, *line) && until_matches(*req, line.content@))),
            watch_admits(*req, *line) ==> final(self).captured@.map_values(|s: String| s@) == old(self).captured@.map_values(|s: String| s@).push(log_line_text(*line)),
            !watch_admits(*req, *line) ==> final(self).captured@ == old(self).captured@ && !stopped,
            watch_admits(*req, *line) ==> if final(self).captured@.len() >= req.max_lines {
                final(self).stop_reason matches Some(reason) && reason@ == "max_lines_reached"@
            } else if final(self).matched_until_pattern {
                final(self).stop_reason matches Some(reason) && reason@ == "until_pattern_matched"@
            } else {
                final(self).stop_reason is None
            },
            final(self).lagged_events == old(self).lagged_events,
    {
        if !self.offer_line(req, line) {
            return false;
        }
        if self.captured.len() >= req.max_lines {
            self.stop_reason = Some(String::from_str("max_lines_reached"));
            return true;
        }
        if self.matched_until_pattern {
            self.stop_reason = Some(String::from_str("until_pattern_matched"));
            return true;
        }
        false
    }

    /// The checks at the head of each wait, `elapsed_ms` milliseconds into
    /// the watch: enough lines, the stop pattern matched, the duration or
    /// the timeout passed. Returns whether the watch stopped.
    pub fn check_stop(&mut self, req: &WatchLogsRequest, elapsed_ms: u128) -> (stopped: bool)
        ensures
            stopped == (final(self).stop_reason is Some),
            old(self).stop_reason is Some ==> final(self).stop_reason == old(self).stop_reason,
            old(self).stop_reason is None ==> match final(self).stop_reason {
                Some(reason) => if old(self).captured@.len() >= req.max_lines {
                    reason@ == "max_lines_reached"@
                } else if old(self).matched_until_pattern {
                    reason@ == "until_pattern_matched"@
                } else if req.duration_seconds matches Some(d) && elapsed_ms >= d as int * 1000 {
                    reason@ == "duration_elapsed"@
                } else {
                    reason@ == "timeout_elapsed"@ && (req.timeout_seconds matches Some(t) && elapsed_ms >= t as int * 1000)
                },
                None => old(self).captured@.len() < req.max_lines && !old(self).matched_until_pattern
                    && !(req.duration_seconds matches Some(d) && elapsed_ms >= d as int * 1000)
                    && !(req.timeout_seconds matches Some(t) && elapsed_ms >= t as int * 1000),
            },
            final(self).captured@ == old(self).captured@,
            final(self).matched_until_pattern == old(self).matched_until_pattern,
            final(self).lagged_events == old(self).lagged_events,
    {
        if self.stop_reason.is_some() {
            return true;
        }
        if self.captured.len() >= req.max_lines {
            self.stop_reason = Some(String::from_str("max_lines_reached"));
            return true;
        }
        if self.matched_until_pattern {
            self.stop_reason = Some(String::from_str("until_pattern_matched"));
            return true;
        }
        match req.duration_seconds {
            Some(d) => {
                if elapsed_ms >= (d as u128) * 1000 {
                    self.stop_reason = Some(String::from_str("duration_elapsed"));
                    return true;
                }
            },
            None => {},
        }
        match req.timeout_seconds {
            Some(t) => {
                if elapsed_ms >= (t as u128) * 1000 {
                    self.stop_reason = Some(String::from_str("timeout_elapsed"));
                    return true;
                }
            },
            None => {},
        }
        false
    }

    /// Counts events the subscription dropped.
    pub fn record_lag(&mut self, skipped: u64)
        ensures
            final(self).lagged_events == if old(self).lagged_events + skipped > u64::MAX {
                u64::MAX as int
            } else {
                old(self).lagged_events + skipped
            },
            final(self).captured@ == old(self).captured@,
            final(self).matched_until_pattern == old(self).matched_until_pattern,
            final(self).stop_reason == old(self).stop_reason,
    {
        self.lagged_events = self.lagged_events.saturating_add(skipped);
    }

    /// The event stream closed.
    pub fn close(&mut self)
        ensures
            old(self).stop_reason is Some ==> final(self).stop_reason == old(self).stop_reason,
            old(self).stop_reason is None ==> (final(self).stop_reason matches Some(r) && r@ == "event_stream_closed"@),
            final(self).captured@ == old(self).captured@,
            final(self).matched_until_pattern == old(self).matched_until_pattern,
            final(self).lagged_events == old(self).lagged_events,
    {
        if self.stop_reason.is_none() {
            self.stop_reason = Some(String::from_str("event_stream_closed"));
        }
    }

    /// The report of the watch (`completed` when it never stopped early).
    pub fn finish(&self, service: &str) -> (r: McpToolResult)
        ensures
            is_success_text(
                r,
                watch_output_text(
                    service@,
                    match self.stop_reason {
                        Some(s) => s@,
                        None => "completed"@,
                    },
                    self.matched_until_pattern,
                    self.lagged_events,
                    self.captured@.map_values(|s: String| s@),
                ),
            ),
    {
        let reason: &str = match &self.stop_reason {
            Some(s) => s.as_str(),
            None => "completed",
        };
        let text = format_watch_output(service, reason, self.matched_until_pattern, self.lagged_events, &self.captured);
        McpToolResult::success_text(text)
    }
}


/// What a watch holds after the buffered lines `lines` were offered in
/// turn, until it stopped: the lines captured, whether the stop pattern
/// matched, and why it stopped, if it did.
pub open spec fn existing_watch(req: WatchLogsRequest, lines: Seq<LogLine>) -> (Seq<Seq<char>>, bool, Option<Seq<char>>)
    decreases lines.len(),
{
    if lines.len() == 0 {
        (Seq::empty(), false, None)
    } else {
        let before = existing_watch(req, lines.drop_last());
        let line = lines.last();
        if before.2 is Some || !watch_admits(req, line) {
            before
        } else {
            let captured = before.0.push(log_line_text(line));
            let matched = before.1 || until_matches(req, line.content@);
            let stop = if captured.len() >= req.max_lines {
                Some("max_lines_reached"@)
            } else if matched {
                Some("until_pattern_matched"@)
            } else {
                None
            };
            (captured, matched, stop)
        }
    }
}

/// The state of a watch, as `existing_watch` gives it.
pub open spec fn watch_state(w: LogWatch) -> (Seq<Seq<char>>, bool, Option<Seq<char>>) {
    (
        w.captured@.map_values(|s: String| s@),
        w.matched_until_pattern,
        match w.stop_reason {
            Some(r) => Some(r@),
            None => None,
        },
    )
}

/// Begins a `watch_logs` call: reads the request from the arguments, checks
/// that the service is configured, and, when the request asks for it,
/// offers the service's buffered lines to the new watch in order until it
/// stops. The watch is fed only once the request is accepted.
pub fn begin_log_watch(arguments: &JsonValue, services: &ServiceMap, buffer: &LogBuffer) -> (r: Result<
    (WatchLogsRequest, LogWatch),
    McpToolResult,
>)
    requires
        services.wf(),
        buffer.wf(),
    ensures
        match watch_request_error(*arguments) {
            Some(m) => r matches Err(e) && is_error_text(e, m),
            None => match r {
                Ok((req, w)) => {
                    &&& watch_request_from(*arguments, req)
                    &&& has_name(services.entries(), req.service@)
                    &&& watch_state(w) == existing_watch(
                        req,
                        if req.include_existing { held_for(buffer@, req.service@) } else { Seq::empty() },
                    )
                    &&& w.lagged_events == 0
                },
                Err(e) => json_get(*arguments, "service"@) matches Some(JsonValue::String(s)) && !has_name(
                    services.entries(),
                    s@,
                ) && is_error_text(e, "Service not found: "@ + s@),
            },
        },
{
    let req = match watch_logs_request(arguments) {
        Ok(req) => req,
        Err(e) => {
            return Err(e);
        },
    };
    if !services.contains_key(req.service.as_str()) {
        return Err(service_not_found(req.service.as_str()));
    }
    let mut watch = LogWatch::new();
    proof {
        assert(watch_state(watch) =~= existing_watch(req, Seq::empty()));
    }
    if req.include_existing {
        let lines = buffer.get_all_lines(req.service.as_str());
        let mut i: usize = 0;
        while i < lines.len()
            invariant
                i <= lines@.len(),
                watch_request_wf(req),
                watch_state(watch) == existing_watch(req, lines@.subrange(0, i as int)),
                watch.lagged_events == 0,
            decreases lines@.len() - i,
        {
            let ghost prefix = lines@.subrange(0, i as int);
            let ghost next = lines@.subrange(0, i + 1);
            proof {
                assert(next.drop_last() =~= prefix);
                assert(next.last() == lines@[i as int]);
            }
            if watch.stop_reason.is_none() {
                watch.offer_existing(&req, &lines[i]);
                proof {
                    if watch_admits(req, lines@[i as int]) {
                        assert(watch_state(watch).0 =~= existing_watch(req, next).0);
                    }
                }
            }
            i = i + 1;
        }
        proof {
            assert(lines@.subrange(0, lines@.len() as int) =~= lines@);
        }
    }
    Ok((req, watch))
}

/// A copy of the names in ascending order.
fn sorted_names(names: &Vec<String>) -> (r: Vec<String>)
    ensures
        r@.map_values(|s: String| s@).to_multiset() == names@.map_values(|s: String| s@).to_multiset(),
        forall|i: int, j: int| 0 <= i < j < r@.len() ==> lex_le(#[trigger] r@[i]@, #[trigger] r@[j]@),
{
    let mut v: Vec<String> = Vec::new();
    let mut i: usize = 0;
    while i < names.len()
        invariant
            i <= names@.len(),
            v@.len() == i,
            forall|j: int| 0 <= j < i ==> #[trigger] v@[j]@ == names@[j]@,
        decreases names@.len() - i,
    {
        v.push(names[i].clone());
        i = i + 1;
    }
    assert(v@.map_values(|s: String| s@) =~= names@.map_values(|s: String| s@));
    sort_strings(&mut v);
    v
}

/// `lines` lists `names` in ascending order, one `line(name)` each, joined
/// with line feeds.
pub open spec fn sorted_listing(names: Seq<Seq<char>>, line: spec_fn(Seq<char>) -> Seq<char>, text: Seq<char>) -> bool {
    exists|sorted: Seq<Seq<char>>| #[trigger] sorted.to_multiset() == names.to_multiset() && (forall|i: int, j: int|
        0 <= i < j < sorted.len() ==> lex_le(#[trigger] sorted[i], #[trigger] sorted[j])) && text == join(
        sorted.map_values(line),
        "\n"@,
    )
}

/// The names of the services, one per line, in ascending order.
pub fn list_services_text(names: &Vec<String>) -> (r: McpToolResult)
    ensures
        r is Success,
        exists|t: Seq<char>| is_success_text(r, t) && sorted_listing(names@.map_values(|s: String| s@), |n: Seq<char>| n, t),
{
    let sorted = sorted_names(names);
    let text = join_strings(&sorted, "\n");
    proof {
        let sv = sorted@.map_values(|s: String| s@);
        assert(sv.map_values(|n: Seq<char>| n) =~= sv);
        assert(sorted_listing(names@.map_values(|s: String| s@), |n: Seq<char>| n, text@));
    }
    McpToolResult::success_text(text)
}

/// `<name>: <state>` for a service, from the state table and readiness.
pub open spec fn status_line(
    entries: Seq<(String, ServiceStatus)>,
    ready: Set<Seq<char>>,
    name: Seq<char>,
) -> Seq<char> {
    name + ": "@ + service_status_label(crate::process::status_of(entries, name), ready.contains(name))
}

/// The state of each service, one `<name>: <state>` per line, by name.
pub fn service_status_report(
    names: &Vec<String>,
    table: &crate::process::StatusTable,
    watcher: &crate::ready::ReadyWatcher,
) -> (r: McpToolResult)
    ensures
        exists|t: Seq<char>|
            is_success_text(r, t) && sorted_listing(
                names@.map_values(|s: String| s@),
                |n: Seq<char>| status_line(table.entries(), watcher.ready(), n),
                t,
            ),
{
    let sorted = sorted_names(names);
    let ghost sv = sorted@.map_values(|s: String| s@);
    let ghost f = |n: Seq<char>| status_line(table.entries(), watcher.ready(), n);
    let mut lines: Vec<String> = Vec::new();
    let mut i: usize = 0;
    while i < sorted.len()
        invariant
            sv == sorted@.map_values(|s: String| s@),
            f == (|n: Seq<char>| status_line(table.entries(), watcher.ready(), n)),
            i <= sorted@.len(),
            lines@.len() == i,
            forall|j: int| 0 <= j < i ==> #[trigger] lines@[j]@ == f(sv[j]),
        decreases sorted@.len() - i,
    {
        let name = &sorted[i];
        let status = table.get_status(name.as_str());
        let ready = watcher.is_ready(name.as_str());
        let mut line = name.clone();
        line.append(": ");
        let label = service_status_text(status, ready);
        line.append(label.as_str());
        lines.push(line);
        i = i + 1;
    }
    let text = join_strings(&lines, "\n");
    proof {
        assert(lines@.map_values(|s: String| s@) =~= sv.map_values(f));
        assert(sorted_listing(names@.map_values(|s: String| s@), f, text@));
    }
    McpToolResult::success_text(text)
}

/// The state the daemon reported for `name`: the text of its first member
/// of that name, when that is a string.
pub open spec fn reported_state(members: Seq<(String, JsonValue)>, name: Seq<char>) -> Option<Seq<char>> {
    match first_index(key_seq(members), name) {
        Some(i) => json_str(members[i].1),
        None => None,
    }
}

/// `<name>: <state>` for each of `names` whose reported state is a text,
/// in order.
pub open spec fn reported_lines(members: Seq<(String, JsonValue)>, names: Seq<Seq<char>>) -> Seq<Seq<char>>
    decreases names.len(),
{
    if names.len() == 0 {
        Seq::empty()
    } else {
        let rest = reported_lines(members, names.drop_last());
        match reported_state(members, names.last()) {
            Some(state) => rest.push(names.last() + ": "@ + state),
            None => rest,
        }
    }
}

/// The result when the extension daemon refused a `read_logs` call.
pub fn daemon_read_logs_error(service: &str, error: &str) -> (r: McpToolResult)
    ensures
        is_error_text(r, "Failed to read logs for '"@ + service@ + "': "@ + error@),
{
    let mut m = String::new();
    m.append("Failed to read logs for '");
    m.append(service);
    m.append("': ");
    m.append(error);
    McpToolResult::Error { error: m }
}

/// The result when the extension daemon refused a status request.
pub fn daemon_status_error(error: &str) -> (r: McpToolResult)
    ensures
        is_error_text(r, "Failed to get service status via daemon: "@ + error@),
{
    let mut m = String::new();
    m.append("Failed to get service status via daemon: ");
    m.append(error);
    McpToolResult::Error { error: m }
}

/// The parameters of the `getLogs` request a `read_logs` call sends to the
/// extension daemon: the service, and `all` or the count.
pub fn daemon_logs_params(req: &ReadLogsRequest) -> (r: JsonValue)
    ensures
        r is Object,
        json_members(r).len() == 2,
        member_is_str(r, 0, "service"@, req.service@),
        json_members(r)[1].0@ == "lines"@,
        match req.lines {
            LogLineCount::All => is_json_str(json_members(r)[1].1, "all"@),
            LogLineCount::Last(n) => json_members(r)[1].1 matches JsonValue::Number(x) && x.unsigned == Some(
                n as u64,
            ),
        },
{
    let lines = match req.lines {
        LogLineCount::All => JsonValue::string("all"),
        LogLineCount::Last(n) => JsonValue::unsigned(n as u64),
    };
    let mut ms: Vec<(String, JsonValue)> = Vec::new();
    ms.push((String::from_str("service"), JsonValue::string(req.service.as_str())));
    ms.push((String::from_str("lines"), lines));
    JsonValue::Object(ms)
}

/// The state of each service from the extension daemon's `getStatus`
/// answer, one `<name>: <state>` per service whose state is a text, by
/// name.
pub fn daemon_service_status(result: &JsonValue) -> (r: McpToolResult)
    ensures
        match json_get(*result, "services"@) {
            Some(JsonValue::Object(members)) => exists|sorted: Seq<Seq<char>>|
                #[trigger] sorted.to_multiset() == key_seq(members@).to_multiset() && (forall|i: int, j: int|
                    0 <= i < j < sorted.len() ==> lex_le(#[trigger] sorted[i], #[trigger] sorted[j]))
                    && is_success_text(r, join(reported_lines(members@, sorted), "\n"@)),
            _ => is_error_text(r, "Failed to get service status from daemon: invalid response payload"@),
        },
{
    let members = match result.get("services") {
        Some(JsonValue::Object(ms)) => ms,
        _ => {
            return McpToolResult::error_text("Failed to get service status from daemon: invalid response payload");
        },
    };
    let mut names: Vec<String> = Vec::new();
    let mut i: usize = 0;
    while i < members.len()
        invariant
            i <= members@.len(),
            names@.len() == i,
            forall|j: int| 0 <= j < i ==> #[trigger] names@[j]@ == members@[j].0@,
        decreases members@.len() - i,
    {
        names.push(members[i].0.clone());
        i = i + 1;
    }
    assert(names@.map_values(|s: String| s@) =~= key_seq(members@));
    let sorted = sorted_names(&names);
    let ghost sv = sorted@.map_values(|s: String| s@);
    let mut lines: Vec<String> = Vec::new();
    let mut k: usize = 0;
    while k < sorted.len()
        invariant
            sv == sorted@.map_values(|s: String| s@),
            k <= sorted@.len(),
            lines@.map_values(|s: String| s@) == reported_lines(members@, sv.take(k as int)),
        decreases sorted@.len() - k,
    {
        proof {
            lemma_first_index(key_seq(members@), sorted@[k as int]@);
            assert(sv.take(k as int + 1).drop_last() =~= sv.take(k as int));
            assert(sv.take(k as int + 1).last() == sorted@[k as int]@);
        }
        match find_key(members, sorted[k].as_str()) {
            Some(x) => match members[x].1.as_str() {
                Some(status) => {
                    let mut line = sorted[k].clone();
                    line.append(": ");
                    line.append(status);
                    lines.push(line);
                    assert(lines@.map_values(|s: String| s@) =~= reported_lines(members@, sv.take(k as int)).push(
                        sorted@[k as int]@ + ": "@ + status@,
                    ));
                },
                None => {},
            },
            None => {},
        }
        k = k + 1;
    }
    assert(sv.take(sorted@.len() as int) =~= sv);
    let text = join_strings(&lines, "\n");
    McpToolResult::success_text(text)
}

/// The tools of the server.
#[derive(Debug, Clone, Copy, PartialEq, Eq, Structural)]
pub enum ToolKind {
    ReadLogs,
    WatchLogs,
    GetServiceStatus,
    ListServices,
    StartService,
    StopService,
    RestartService,
}

/// The tool a name calls.
pub open spec fn tool_kind_of(name: Seq<char>) -> Option<ToolKind> {
    if name == "read_logs"@ {
        Some(ToolKind::ReadLogs)
    } else if name == "watch_logs"@ {
        Some(ToolKind::WatchLogs)
    } else if name == "get_service_status"@ {
        Some(ToolKind::GetServiceStatus)
    } else if name == "list_services"@ {
        Some(ToolKind::ListServices)
    } else if name == "start_service"@ {
        Some(ToolKind::StartService)
    } else if name == "stop_service"@ {
        Some(ToolKind::StopService)
    } else if name == "restart_service"@ {
        Some(ToolKind::RestartService)
    } else {
        None
    }
}

/// What a call of `name` gives: the tool, or the error for an unknown tool.
pub open spec fn tool_kind_outcome(name: Seq<char>, r: Result<ToolKind, McpToolResult>) -> bool {
    match tool_kind_of(name) {
        Some(k) => r == Ok::<ToolKind, McpToolResult>(k),
        None => r matches Err(e) && is_error_text(e, "Unknown tool: "@ + name),
    }
}

/// The tool a name calls, or the error for an unknown tool.
pub fn tool_kind(name: &str) -> (r: Result<ToolKind, McpToolResult>)
    ensures
        tool_kind_outcome(name@, r),
{
    if str_eq(name, "read_logs") {
        Ok(ToolKind::ReadLogs)
    } else if str_eq(name, "watch_logs") {
        Ok(ToolKind::WatchLogs)
    } else if str_eq(name, "get_service_status") {
        Ok(ToolKind::GetServiceStatus)
    } else if str_eq(name, "list_services") {
        Ok(ToolKind::ListServices)
    } else if str_eq(name, "start_service") {
        Ok(ToolKind::StartService)
    } else if str_eq(name, "stop_service") {
        Ok(ToolKind::StopService)
    } else if str_eq(name, "restart_service") {
        Ok(ToolKind::RestartService)
    } else {
        let mut m = String::new();
        m.append("Unknown tool: ");
        m.append(name);
        Err(McpToolResult::Error { error: m })
    }
}

/// The result of a tool call without authentication.
pub fn authentication_required() -> (r: McpToolResult)
    ensures
        is_error_text(r, "Authentication required"@),
{
    McpToolResult::error_text("Authentication required")
}

/// The result for a service the configuration does not define.
pub fn service_not_found(service: &str) -> (r: McpToolResult)
    ensures
        is_error_text(r, "Service not found: "@ + service@),
{
    let mut m = String::new();
    m.append("Service not found: ");
    m.append(service);
    McpToolResult::Error { error: m }
}

/// The verb and the success text of a service action.
pub open spec fn action_words(kind: ToolKind, service: Seq<char>) -> (Seq<char>, Seq<char>) {
    match kind {
        ToolKind::StartService => ("start"@, "Start requested for '"@ + service + "' (dependencies included)."@),
        ToolKind::StopService => ("stop"@, "Stop requested for '"@ + service + "'."@),
        _ => ("restart"@, "Restart requested for '"@ + service + "'."@),
    }
}

/// The result of starting, stopping or restarting a service: the request
/// confirmed, or the failure (`via daemon` when the extension daemon
/// refused it).
pub fn action_result(kind: ToolKind, service: &str, outcome: Result<(), String>, via_daemon: bool) -> (r: McpToolResult)
    requires
        kind is StartService || kind is StopService || kind is RestartService,
    ensures
        match outcome {
            Ok(()) => is_success_text(r, action_words(kind, service@).1),
            Err(e) => is_error_text(
                r,
                "Failed to "@ + action_words(kind, service@).0 + " '"@ + service@ + "'"@ + (if via_daemon {
                    " via daemon"@
                } else {
                    Seq::empty()
                }) + ": "@ + e@,
            ),
        },
{
    let verb: &str = match kind {
        ToolKind::StartService => "start",
        ToolKind::StopService => "stop",
        _ => "restart",
    };
    match outcome {
        Ok(()) => {
            let mut m = String::new();
            match kind {
                ToolKind::StartService => {
                    m.append("Start requested for '");
                    m.append(service);
                    m.append("' (dependencies included).");
                },
                ToolKind::StopService => {
                    m.append("Stop requested for '");
                    m.append(service);
                    m.append("'.");
                },
                _ => {
                    m.append("Restart requested for '");
                    m.append(service);
                    m.append("'.");
                },
            }
            McpToolResult::success_text(m)
        },
        Err(e) => {
            let mut m = String::new();
            m.append("Failed to ");
            m.append(verb);
            m.append(" '");
            m.append(service);
            m.append("'");
            if via_daemon {
                m.append(" via daemon");
            }
            m.append(": ");
            m.append(e.as_str());
            proof {
                assert(m@ =~= "Failed to "@ + action_words(kind, service@).0 + " '"@ + service@ + "'"@ + (if via_daemon {
                    " via daemon"@
                } else {
                    Seq::empty()
                }) + ": "@ + e@);
            }
            McpToolResult::Error { error: m }
        },
    }
}


/// `{"type": t, "description": d}`.
pub open spec fn typed_property_view(t: Seq<char>, d: Seq<char>) -> JsonView {
    JsonView::Object(seq![("type"@, JsonView::Str(t)), ("description"@, JsonView::Str(d))])
}

/// `{"type": "integer", "minimum": min, "description": d}`.
pub open spec fn bounded_integer_view(min: nat, d: Seq<char>) -> JsonView {
    JsonView::Object(
        seq![
            ("type"@, JsonView::Str("integer"@)),
            ("minimum"@, JsonView::Number(decimal(min))),
            ("description"@, JsonView::Str(d)),
        ],
    )
}

/// `{"type": "object", "properties": {..}, "required": [..]}`, without
/// `required` when no name is required.
pub open spec fn object_schema_view(props: Seq<(Seq<char>, JsonView)>, required: Seq<JsonView>) -> JsonView {
    if required.len() > 0 {
        JsonView::Object(
            seq![
                ("type"@, JsonView::Str("object"@)),
                ("properties"@, JsonView::Object(props)),
                ("required"@, JsonView::Array(required)),
            ],
        )
    } else {
        JsonView::Object(seq![("type"@, JsonView::Str("object"@)), ("properties"@, JsonView::Object(props))])
    }
}

/// `{"readOnlyHint": true}`.
pub open spec fn read_only_view() -> JsonView {
    JsonView::Object(seq![("readOnlyHint"@, JsonView::Bool(true))])
}

/// The `stream` property of the log tools.
pub open spec fn stream_property_view() -> JsonView {
    JsonView::Object(
        seq![
            ("type"@, JsonView::Str("string"@)),
            ("enum"@, JsonView::Array(seq![JsonView::Str("stdout"@), JsonView::Str("stderr"@), JsonView::Str("both"@)])),
            ("description"@, JsonView::Str("Optional stream filter (default: both)"@)),
        ],
    )
}

/// The schema of a tool that takes only a service name.
pub open spec fn service_only_schema_view(d: Seq<char>) -> JsonView {
    object_schema_view(seq![("service"@, typed_property_view("string"@, d))], seq![JsonView::Str("service"@)])
}

/// The schema of a tool without arguments.
pub open spec fn empty_schema_view() -> JsonView {
    object_schema_view(Seq::empty(), Seq::empty())
}

/// The `lines` property of `read_logs`: a count of at least one, or "all".
pub open spec fn lines_property_view() -> JsonView {
    JsonView::Object(
        seq![
            (
                "oneOf"@,
                JsonView::Array(
                    seq![
                        JsonView::Object(
                            seq![("type"@, JsonView::Str("integer"@)), ("minimum"@, JsonView::Number(decimal(1)))],
                        ),
                        JsonView::Object(
                            seq![
                                ("type"@, JsonView::Str("string"@)),
                                ("enum"@, JsonView::Array(seq![JsonView::Str("all"@)])),
                            ],
                        ),
                    ],
                ),
            ),
            ("description"@, JsonView::Str("Number of lines to return, or 'all' for all buffered lines"@)),
        ],
    )
}

/// The schema of `read_logs`.
pub open spec fn read_logs_schema_view() -> JsonView {
    object_schema_view(
        seq![
            ("service"@, typed_property_view("string"@, "Name of the service to read logs from"@)),
            ("lines"@, lines_property_view()),
            (
                "contains"@,
                typed_property_view(
                    "string"@,
                    "Optional text filter. Only log lines containing this text are returned"@,
                ),
            ),
            (
                "caseSensitive"@,
                typed_property_view(
                    "boolean"@,
                    "Whether the 'contains' filter should be case-sensitive (default: false)"@,
                ),
            ),
            ("stream"@, stream_property_view()),
        ],
        seq![JsonView::Str("service"@), JsonView::Str("lines"@)],
    )
}

/// A property that is a list of regex patterns.
pub open spec fn pattern_list_view(d: Seq<char>) -> JsonView {
    JsonView::Object(
        seq![
            ("type"@, JsonView::Str("array"@)),
            ("items"@, JsonView::Object(seq![("type"@, JsonView::Str("string"@))])),
            ("description"@, JsonView::Str(d)),
        ],
    )
}

/// The properties of `watch_logs`.
pub open spec fn watch_logs_properties_view() -> Seq<(Seq<char>, JsonView)> {
    seq![
        ("service"@, typed_property_view("string"@, "Name of the service to watch"@)),
        ("durationSeconds"@, bounded_integer_view(1, "Watch duration in seconds"@)),
        (
            "untilPattern"@,
            typed_property_view("string"@, "Stop when this regex pattern is seen in a matching log line"@),
        ),
        ("timeoutSeconds"@, bounded_integer_view(0, "Optional absolute timeout (0 disables timeout)"@)),
        ("pollIntervalMs"@, bounded_integer_view(50, "Polling interval for idle periods (default: 250)"@)),
        ("maxLines"@, bounded_integer_view(1, "Maximum number of matching lines to return (default: 200)"@)),
        (
            "includeExisting"@,
            typed_property_view(
                "boolean"@,
                "Include buffered logs that already exist before watching (default: false)"@,
            ),
        ),
        (
            "includePatterns"@,
            pattern_list_view("Optional regex patterns; at least one must match each returned line"@),
        ),
        ("excludePatterns"@, pattern_list_view("Optional regex patterns; matching lines are excluded"@)),
        ("caseSensitive"@, typed_property_view("boolean"@, "Whether regex matching is case-sensitive (default: false)"@)),
        ("stream"@, stream_property_view()),
    ]
}

/// `{"required": [name]}`.
pub open spec fn requires_one_view(name: Seq<char>) -> JsonView {
    JsonView::Object(seq![("required"@, JsonView::Array(seq![JsonView::Str(name)]))])
}

/// The schema of `watch_logs`: a service, and a duration or a pattern to
/// stop at (at least one of the two).
pub open spec fn watch_logs_schema_view() -> JsonView {
    JsonView::Object(
        seq![
            ("type"@, JsonView::Str("object"@)),
            ("properties"@, JsonView::Object(watch_logs_properties_view())),
            ("required"@, JsonView::Array(seq![JsonView::Str("service"@)])),
            (
                "allOf"@,
                JsonView::Array(
                    seq![
                        JsonView::Object(
                            seq![
                                (
                                    "anyOf"@,
                                    JsonView::Array(
                                        seq![
                                            requires_one_view("durationSeconds"@),
                                            requires_one_view("untilPattern"@),
                                        ],
                                    ),
                                ),
                            ],
                        ),
                    ],
                ),
            ),
        ],
    )
}

/// `{"type": <t>, "description": <d>}`.
fn typed_property(t: &str, d: &str) -> (r: JsonValue)
    ensures
        json_view(r) == typed_property_view(t@, d@),
{
    let mut ms = new_members();
    push_member(&mut ms, "type", JsonValue::string(t));
    push_member(&mut ms, "description", JsonValue::string(d));
    let r = object(ms);
    assert(json_view(r)->Object_0 =~= typed_property_view(t@, d@)->Object_0);
    r
}

/// `{"type": "integer", "minimum": <min>, "description": <d>}`.
fn bounded_integer(min: u64, d: &str) -> (r: JsonValue)
    ensures
        json_view(r) == bounded_integer_view(min as nat, d@),
{
    let mut ms = new_members();
    push_member(&mut ms, "type", JsonValue::string("integer"));
    push_member(&mut ms, "minimum", JsonValue::unsigned(min));
    push_member(&mut ms, "description", JsonValue::string(d));
    let r = object(ms);
    assert(json_view(r)->Object_0 =~= bounded_integer_view(min as nat, d@)->Object_0);
    r
}

/// `[s]`.
fn one_string(s: &str) -> (r: JsonValue)
    ensures
        json_view(r) == JsonView::Array(seq![JsonView::Str(s@)]),
{
    let mut items = new_items();
    push_item(&mut items, JsonValue::string(s));
    let r = array(items);
    assert(json_view(r)->Array_0 =~= seq![JsonView::Str(s@)]);
    r
}

/// `{"type": "object", "properties": <props>, "required": <required>}`
/// (without `required` when it is empty).
fn object_schema(props: Vec<(String, JsonValue)>, required: Vec<JsonValue>) -> (r: JsonValue)
    ensures
        json_view(r) == object_schema_view(members_view(props@), items_view(required@)),
{
    let ghost pv = members_view(props@);
    let ghost rv = items_view(required@);
    let mut ms = new_members();
    push_member(&mut ms, "type", JsonValue::string("object"));
    push_member(&mut ms, "properties", object(props));
    if required.len() > 0 {
        push_member(&mut ms, "required", array(required));
    }
    let r = object(ms);
    assert(json_view(r)->Object_0 =~= object_schema_view(pv, rv)->Object_0);
    r
}

/// `{"readOnlyHint": true}`.
fn read_only() -> (r: JsonValue)
    ensures
        json_view(r) == read_only_view(),
{
    let mut ms = new_members();
    push_member(&mut ms, "readOnlyHint", JsonValue::Bool(true));
    let r = object(ms);
    assert(json_view(r)->Object_0 =~= read_only_view()->Object_0);
    r
}

/// The `stream` property of the log tools.
fn stream_property() -> (r: JsonValue)
    ensures
        json_view(r) == stream_property_view(),
{
    let mut names = new_items();
    push_item(&mut names, JsonValue::string("stdout"));
    push_item(&mut names, JsonValue::string("stderr"));
    push_item(&mut names, JsonValue::string("both"));
    let names = array(names);
    assert(json_view(names)->Array_0 =~= seq![JsonView::Str("stdout"@), JsonView::Str("stderr"@), JsonView::Str("both"@)]);
    let mut ms = new_members();
    push_member(&mut ms, "type", JsonValue::string("string"));
    push_member(&mut ms, "enum", names);
    push_member(&mut ms, "description", JsonValue::string("Optional stream filter (default: both)"));
    let r = object(ms);
    assert(json_view(r)->Object_0 =~= stream_property_view()->Object_0);
    r
}

/// A tool the server offers.
#[derive(Debug)]
pub struct McpTool {
    pub name: String,
    pub description: String,
    pub input_schema: JsonValue,
    pub annotations: Option<JsonValue>,
}

/// The schema of a tool that takes only a service name.
fn service_only_schema(d: &str) -> (r: JsonValue)
    ensures
        json_view(r) == service_only_schema_view(d@),
{
    let mut props = new_members();
    push_member(&mut props, "service", typed_property("string", d));
    let mut required = new_items();
    push_item(&mut required, JsonValue::string("service"));
    assert(members_view(props@) =~= seq![("service"@, typed_property_view("string"@, d@))]);
    assert(items_view(required@) =~= seq![JsonView::Str("service"@)]);
    object_schema(props, required)
}

/// The schema of a tool without arguments.
fn empty_schema() -> (r: JsonValue)
    ensures
        json_view(r) == empty_schema_view(),
{
    object_schema(new_members(), new_items())
}

/// The `lines` property of `read_logs`.
fn lines_property() -> (r: JsonValue)
    ensures
        json_view(r) == lines_property_view(),
{
    let mut count = new_members();
    push_member(&mut count, "type", JsonValue::string("integer"));
    push_member(&mut count, "minimum", JsonValue::unsigned(1));
    let count = object(count);
    assert(json_view(count)->Object_0 =~= seq![("type"@, JsonView::Str("integer"@)), ("minimum"@, JsonView::Number(decimal(1)))]);
    let mut all = new_members();
    push_member(&mut all, "type", JsonValue::string("string"));
    push_member(&mut all, "enum", one_string("all"));
    let all = object(all);
    assert(json_view(all)->Object_0 =~= seq![
        ("type"@, JsonView::Str("string"@)),
        ("enum"@, JsonView::Array(seq![JsonView::Str("all"@)])),
    ]);
    let mut one_of = new_items();
    push_item(&mut one_of, count);
    push_item(&mut one_of, all);
    let one_of = array(one_of);
    assert(json_view(one_of)->Array_0 =~= lines_property_view()->Object_0[0].1->Array_0);
    let mut ms = new_members();
    push_member(&mut ms, "oneOf", one_of);
    push_member(&mut ms, "description", JsonValue::string("Number of lines to return, or 'all' for all buffered lines"));
    let r = object(ms);
    assert(json_view(r)->Object_0 =~= lines_property_view()->Object_0);
    r
}

/// The schema of `read_logs`.
fn read_logs_schema() -> (r: JsonValue)
    ensures
        json_view(r) == read_logs_schema_view(),
{
    let mut props = new_members();
    push_member(&mut props, "service", typed_property("string", "Name of the service to read logs from"));
    push_member(&mut props, "lines", lines_property());
    push_member(
        &mut props,
        "contains",
        typed_property("string", "Optional text filter. Only log lines containing this text are returned"),
    );
    push_member(
        &mut props,
        "caseSensitive",
        typed_property("boolean", "Whether the 'contains' filter should be case-sensitive (default: false)"),
    );
    push_member(&mut props, "stream", stream_property());
    let mut required = new_items();
    push_item(&mut required, JsonValue::string("service"));
    push_item(&mut required, JsonValue::string("lines"));
    let ghost expected = read_logs_schema_view();
    assert(members_view(props@) =~= expected->Object_0[1].1->Object_0);
    assert(items_view(required@) =~= expected->Object_0[2].1->Array_0);
    object_schema(props, required)
}

/// A property that is a list of regex patterns.
fn pattern_list(d: &str) -> (r: JsonValue)
    ensures
        json_view(r) == pattern_list_view(d@),
{
    let mut item = new_members();
    push_member(&mut item, "type", JsonValue::string("string"));
    let item = object(item);
    assert(json_view(item)->Object_0 =~= seq![("type"@, JsonView::Str("string"@))]);
    let mut ms = new_members();
    push_member(&mut ms, "type", JsonValue::string("array"));
    push_member(&mut ms, "items", item);
    push_member(&mut ms, "description", JsonValue::string(d));
    let r = object(ms);
    assert(json_view(r)->Object_0 =~= pattern_list_view(d@)->Object_0);
    r
}

/// `{"required": [name]}`.
fn requires_one(name: &str) -> (r: JsonValue)
    ensures
        json_view(r) == requires_one_view(name@),
{
    let mut ms = new_members();
    push_member(&mut ms, "required", one_string(name));
    let r = object(ms);
    assert(json_view(r)->Object_0 =~= requires_one_view(name@)->Object_0);
    r
}

/// The properties of `watch_logs`.
fn watch_logs_properties() -> (r: JsonValue)
    ensures
        json_view(r) == JsonView::Object(watch_logs_properties_view()),
{
    let mut props = new_members();
    push_member(&mut props, "service", typed_property("string", "Name of the service to watch"));
    push_member(&mut props, "durationSeconds", bounded_integer(1, "Watch duration in seconds"));
    push_member(
        &mut props,
        "untilPattern",
        typed_property("string", "Stop when this regex pattern is seen in a matching log line"),
    );
    push_member(&mut props, "timeoutSeconds", bounded_integer(0, "Optional absolute timeout (0 disables timeout)"));
    push_member(&mut props, "pollIntervalMs", bounded_integer(50, "Polling interval for idle periods (default: 250)"));
    push_member(&mut props, "maxLines", bounded_integer(1, "Maximum number of matching lines to return (default: 200)"));
    push_member(
        &mut props,
        "includeExisting",
        typed_property("boolean", "Include buffered logs that already exist before watching (default: false)"),
    );
    push_member(
        &mut props,
        "includePatterns",
        pattern_list("Optional regex patterns; at least one must match each returned line"),
    );
    push_member(&mut props, "excludePatterns", pattern_list("Optional regex patterns; matching lines are excluded"));
    push_member(
        &mut props,
        "caseSensitive",
        typed_property("boolean", "Whether regex matching is case-sensitive (default: false)"),
    );
    push_member(&mut props, "stream", stream_property());
    let r = object(props);
    assert(json_view(r)->Object_0 =~= watch_logs_properties_view());
    r
}

/// The schema of `watch_logs`.
fn watch_logs_schema() -> (r: JsonValue)
    ensures
        json_view(r) == watch_logs_schema_view(),
{
    let ghost expected = watch_logs_schema_view();
    let mut any_of = new_items();
    push_item(&mut any_of, requires_one("durationSeconds"));
    push_item(&mut any_of, requires_one("untilPattern"));
    let any_of = array(any_of);
    assert(json_view(any_of)->Array_0 =~= expected->Object_0[3].1->Array_0[0]->Object_0[0].1->Array_0);
    let mut any = new_members();
    push_member(&mut any, "anyOf", any_of);
    let any = object(any);
    assert(json_view(any)->Object_0 =~= expected->Object_0[3].1->Array_0[0]->Object_0);
    let mut all_of = new_items();
    push_item(&mut all_of, any);
    let all_of = array(all_of);
    assert(json_view(all_of)->Array_0 =~= expected->Object_0[3].1->Array_0);
    let mut ms = new_members();
    push_member(&mut ms, "type", JsonValue::string("object"));
    push_member(&mut ms, "properties", watch_logs_properties());
    push_member(&mut ms, "required", one_string("service"));
    push_member(&mut ms, "allOf", all_of);
    let r = object(ms);
    assert(json_view(r)->Object_0 =~= expected->Object_0);
    r
}

/// A tool description.
fn tool(name: &str, description: &str, input_schema: JsonValue, annotations: Option<JsonValue>) -> (r: McpTool)
    ensures
        r.name@ == name@,
        r.description@ == description@,
        r.input_schema == input_schema,
        r.annotations == annotations,
{
    McpTool { name: String::from_str(name), description: String::from_str(description), input_schema, annotations }
}

/// The names of the tools, in the order they are offered.
pub open spec fn tool_names() -> Seq<Seq<char>> {
    seq![
        "read_logs"@,
        "watch_logs"@,
        "get_service_status"@,
        "list_services"@,
        "start_service"@,
        "stop_service"@,
        "restart_service"@,
    ]
}

/// How a tool is listed: `name`, `description`, `inputSchema`, and
/// `annotations` when it has some.
pub open spec fn listed_tool_view(
    name: Seq<char>,
    description: Seq<char>,
    schema: JsonView,
    annotations: Option<JsonView>,
) -> JsonView {
    match annotations {
        Some(a) => JsonView::Object(
            seq![
                ("name"@, JsonView::Str(name)),
                ("description"@, JsonView::Str(description)),
                ("inputSchema"@, schema),
                ("annotations"@, a),
            ],
        ),
        None => JsonView::Object(
            seq![
                ("name"@, JsonView::Str(name)),
                ("description"@, JsonView::Str(description)),
                ("inputSchema"@, schema),
            ],
        ),
    }
}

/// How the tool `t` is listed.
pub open spec fn tool_view(t: McpTool) -> JsonView {
    listed_tool_view(
        t.name@,
        t.description@,
        json_view(t.input_schema),
        match t.annotations {
            Some(a) => Some(json_view(a)),
            None => None,
        },
    )
}

/// The tools the server offers, as listed: the four reading tools are
/// read-only, the three that act on services are not.
pub open spec fn offered_tool_views() -> Seq<JsonView> {
    seq![
        listed_tool_view(
            "read_logs"@,
            "Read buffered logs from a specific service"@,
            read_logs_schema_view(),
            Some(read_only_view()),
        ),
        listed_tool_view(
            "watch_logs"@,
            "Watch live logs with optional duration, pattern matching, and filtering"@,
            watch_logs_schema_view(),
            Some(read_only_view()),
        ),
        listed_tool_view(
            "get_service_status"@,
            "Get the current status of all services"@,
            empty_schema_view(),
            Some(read_only_view()),
        ),
        listed_tool_view(
            "list_services"@,
            "List all services defined in dmn.json"@,
            empty_schema_view(),
            Some(read_only_view()),
        ),
        listed_tool_view(
            "start_service"@,
            "Start a service and its dependencies"@,
            service_only_schema_view("Name of the service to start"@),
            None,
        ),
        listed_tool_view(
            "stop_service"@,
            "Stop a running service"@,
            service_only_schema_view("Name of the service to stop"@),
            None,
        ),
        listed_tool_view(
            "restart_service"@,
            "Restart a service and any affected dependencies"@,
            service_only_schema_view("Name of the service to restart"@),
            None,
        ),
    ]
}

/// What the server answers to `request`, `version` being the server
/// version announced on `initialize`.
pub open spec fn mcp_dispatch_ok(request: McpRequest, version: Seq<char>, r: McpDispatch) -> bool {
    match mcp_method(request.method@) {
        McpMethod::Initialize => r is Reply && answers_with(r->0, request.id)
            && is_initialize_result(r->0.result->0, version),
        McpMethod::Ping | McpMethod::Initialized | McpMethod::Cancelled => r is Reply && answers_with(
            r->0,
            request.id,
        ) && r->0.result->0 is Object && json_members(r->0.result->0).len() == 0,
        McpMethod::ToolsList => r is Reply && answers_with(r->0, request.id) && lists_tools(
            r->0.result->0,
        ),
        McpMethod::ToolsCall => match request.params {
            Some(p) => r == McpDispatch::CallTool { id: request.id, params: p },
            None => r matches McpDispatch::Reply(resp) && is_error_response(
                resp,
                request.id,
                -32602,
                "Missing params"@,
            ),
        },
        McpMethod::Unknown => r matches McpDispatch::Reply(resp) && is_error_response(
            resp,
            request.id,
            -32601,
            "Method not found: "@ + request.method@,
        ),
    }
}

/// Every reply answers the request's id under JSON-RPC 2.0 with a result
/// or an error, never both; the error "method not found" (-32601) comes
/// exactly for the methods the server does not know, and a tool call with
/// parameters is handed on to be run.
pub proof fn law_mcp_reply_answers_request(request: McpRequest, version: Seq<char>, r: McpDispatch)
    requires
        mcp_dispatch_ok(request, version, r),
    ensures
        r matches McpDispatch::Reply(resp) ==> resp.jsonrpc@ == "2.0"@ && resp.id == request.id && (resp.result is Some
            != resp.error is Some),
        (r matches McpDispatch::Reply(resp) && resp.error matches Some(e) && e.code == -32601) <==> mcp_method(
            request.method@,
        ) is Unknown,
        r is CallTool <==> (mcp_method(request.method@) is ToolsCall && request.params is Some),
{
}

/// The server's own state: whether tool calls are authenticated, and the
/// configuration file whose extension daemon it may bridge to. (The
/// orchestrator it drives is held beside it by the program.)
#[derive(Debug, Clone)]
pub struct DmnMcpServer {
    config_path: Option<String>,
    authenticated: bool,
}

impl DmnMcpServer {
    /// Whether tool calls are allowed.
    pub closed spec fn authenticated_spec(self) -> bool {
        self.authenticated
    }

    /// The configuration file it was given.
    pub closed spec fn config_path_spec(self) -> Option<Seq<char>> {
        match self.config_path {
            Some(p) => Some(p@),
            None => None,
        }
    }

    /// A server without authentication (the free tier), with no
    /// configuration file.
    pub fn new() -> (r: Self)
        ensures
            !r.authenticated_spec(),
            r.config_path_spec() is None,
    {
        DmnMcpServer { config_path: None, authenticated: false }
    }

    /// A server with authentication, with no configuration file.
    pub fn new_authenticated() -> (r: Self)
        ensures
            r.authenticated_spec(),
            r.config_path_spec() is None,
    {
        DmnMcpServer { config_path: None, authenticated: true }
    }

    /// The same server, bridged to the daemon of `config_path`.
    pub fn with_config_path(self, config_path: &str) -> (r: Self)
        ensures
            r.authenticated_spec() == self.authenticated_spec(),
            r.config_path_spec() == Some(config_path@),
    {
        DmnMcpServer { config_path: Some(String::from_str(config_path)), authenticated: self.authenticated }
    }

    /// Turn authentication on or off.
    pub fn set_authenticated(&mut self, authenticated: bool)
        ensures
            final(self).authenticated_spec() == authenticated,
            final(self).config_path_spec() == old(self).config_path_spec(),
    {
        self.authenticated = authenticated;
    }

    /// Whether tool calls are allowed.
    pub fn is_authenticated(&self) -> (r: bool)
        ensures
            r == self.authenticated_spec(),
    {
        self.authenticated
    }

    /// The configuration file it was given.
    pub fn config_path(&self) -> (r: Option<&str>)
        ensures
            match self.config_path_spec() {
                Some(p) => r matches Some(x) && x@ == p,
                None => r is None,
            },
    {
        match &self.config_path {
            Some(p) => Some(p.as_str()),
            None => None,
        }
    }

    /// The tools the server offers, with their argument schemas; the reading
    /// tools are marked read-only.
    pub fn get_tools(&self) -> (r: Vec<McpTool>)
        ensures
            r@.len() == 7,
            forall|i: int| 0 <= i < 7 ==> #[trigger] r@[i].name@ == tool_names()[i],
            forall|i: int| 0 <= i < 7 ==> #[trigger] tool_view(r@[i]) == offered_tool_views()[i],
    {
        let mut tools: Vec<McpTool> = Vec::new();
        tools.push(tool("read_logs", "Read buffered logs from a specific service", read_logs_schema(), Some(read_only())));
        tools.push(
            tool(
                "watch_logs",
                "Watch live logs with optional duration, pattern matching, and filtering",
                watch_logs_schema(),
                Some(read_only()),
            ),
        );
        tools.push(tool("get_service_status", "Get the current status of all services", empty_schema(), Some(read_only())));
        tools.push(tool("list_services", "List all services defined in dmn.json", empty_schema(), Some(read_only())));
        tools.push(
            tool("start_service", "Start a service and its dependencies", service_only_schema("Name of the service to start"), None),
        );
        tools.push(tool("stop_service", "Stop a running service", service_only_schema("Name of the service to stop"), None));
        tools.push(
            tool(
                "restart_service",
                "Restart a service and any affected dependencies",
                service_only_schema("Name of the service to restart"),
                None,
            ),
        );
        proof {
            let ghost offered = offered_tool_views();
            assert(tool_view(tools@[0]) == offered[0]);
            assert(tool_view(tools@[1]) == offered[1]);
            assert(tool_view(tools@[2]) == offered[2]);
            assert(tool_view(tools@[3]) == offered[3]);
            assert(tool_view(tools@[4]) == offered[4]);
            assert(tool_view(tools@[5]) == offered[5]);
            assert(tool_view(tools@[6]) == offered[6]);
        }
        tools
    }

    /// What a call of the tool `name` does: the tool to run, or the
    /// result when there is nothing to run (no authentication, or an
    /// unknown tool).
    pub fn tool_call_plan(&self, call: &McpToolCall) -> (r: Result<ToolKind, McpToolResult>)
        ensures
            !self.authenticated_spec() ==> (r matches Err(e) && is_error_text(e, "Authentication required"@)),
            self.authenticated_spec() ==> tool_kind_outcome(call.name@, r),
    {
        if !self.authenticated {
            return Err(authentication_required());
        }
        tool_kind(call.name.as_str())
    }

    /// The answer to a request: the reply, or, for a tool call with
    /// parameters, the call to read from them and run. `version` is the
    /// server version announced on `initialize`.
    pub fn handle_request(&self, request: McpRequest, version: &str) -> (r: McpDispatch)
        ensures
            mcp_dispatch_ok(request, version@, r),
    {
        let method = classify_method(request.method.as_str());
        match method {
            McpMethod::Initialize => McpDispatch::Reply(McpResponse::success(request.id, initialize_result(version))),
            McpMethod::Ping | McpMethod::Initialized | McpMethod::Cancelled => {
                McpDispatch::Reply(McpResponse::success(request.id, JsonValue::Object(Vec::new())))
            },
            McpMethod::ToolsList => {
                let tools = self.get_tools();
                let ghost listed = tools@;
                let v = tools_list_result(tools);
                proof {
                    assert(listed.map_values(|t: McpTool| tool_view(t)) =~= offered_tool_views());
                }
                McpDispatch::Reply(McpResponse::success(request.id, v))
            },
            McpMethod::ToolsCall => match request.params {
                Some(p) => McpDispatch::CallTool { id: request.id, params: p },
                None => McpDispatch::Reply(McpResponse::error(request.id, -32602, String::from_str("Missing params"))),
            },
            McpMethod::Unknown => {
                let mut m = String::new();
                m.append("Method not found: ");
                m.append(request.method.as_str());
                McpDispatch::Reply(McpResponse::error(request.id, -32601, m))
            },
        }
    }
}

/// A tool call as the client sends it.
#[derive(Debug)]
pub struct McpToolCall {
    pub name: String,
    pub arguments: JsonValue,
}

/// A request of the protocol.
#[derive(Debug)]
pub struct McpRequest {
    pub jsonrpc: String,
    pub id: Option<JsonValue>,
    pub method: String,
    pub params: Option<JsonValue>,
}

/// The error of a response.
#[derive(Debug, Clone)]
pub struct McpErrorResponse {
    pub code: i32,
    pub message: String,
}

/// A response of the protocol: a result or an error.
#[derive(Debug)]
pub struct McpResponse {
    pub jsonrpc: String,
    pub id: Option<JsonValue>,
    pub result: Option<JsonValue>,
    pub error: Option<McpErrorResponse>,
}

/// `resp` answers `id` with a result.
pub open spec fn answers_with(resp: McpResponse, id: Option<JsonValue>) -> bool {
    &&& resp.jsonrpc@ == "2.0"@
    &&& resp.id == id
    &&& resp.error is None
    &&& resp.result is Some
}

/// `resp` answers `id` with the error `code` and `message`.
pub open spec fn is_error_response(resp: McpResponse, id: Option<JsonValue>, code: int, message: Seq<char>) -> bool {
    &&& resp.jsonrpc@ == "2.0"@
    &&& resp.id == id
    &&& resp.result is None
    &&& resp.error matches Some(e) && e.code == code && e.message@ == message
}

impl McpResponse {
    /// A result for `id`.
    pub fn success(id: Option<JsonValue>, result: JsonValue) -> (r: Self)
        ensures
            r.jsonrpc@ == "2.0"@,
            r.id == id,
            r.result == Some(result),
            r.error is None,
    {
        McpResponse { jsonrpc: String::from_str("2.0"), id, result: Some(result), error: None }
    }

    /// An error for `id`.
    pub fn error(id: Option<JsonValue>, code: i32, message: String) -> (r: Self)
        ensures
            is_error_response(r, id, code as int, message@),
    {
        McpResponse {
            jsonrpc: String::from_str("2.0"),
            id,
            result: None,
            error: Some(McpErrorResponse { code, message }),
        }
    }

    /// The answer to a line that is not a request: `Parse error: <why>`,
    /// for no id.
    pub fn parse_error(why: &str) -> (r: Self)
        ensures
            is_error_response(r, None, -32700, "Parse error: "@ + why@),
    {
        let mut m = String::new();
        m.append("Parse error: ");
        m.append(why);
        McpResponse::error(None, -32700, m)
    }

    /// The answer to a tool call whose parameters could not be read:
    /// `Invalid params: <why>`.
    pub fn invalid_params(id: Option<JsonValue>, why: &str) -> (r: Self)
        ensures
            is_error_response(r, id, -32602, "Invalid params: "@ + why@),
    {
        let mut m = String::new();
        m.append("Invalid params: ");
        m.append(why);
        McpResponse::error(id, -32602, m)
    }

    /// The answer to a tool call that ran: its result as sent.
    pub fn tool_result(id: Option<JsonValue>, result: &McpToolResult) -> (r: Self)
        ensures
            r.jsonrpc@ == "2.0"@,
            r.id == id,
            r.error is None,
            r.result matches Some(v) && json_view(v) == tool_result_view(*result),
    {
        McpResponse::success(id, tool_result_json(result))
    }
}

/// What the server does with a request.
#[derive(Debug)]
pub enum McpDispatch {
    /// Send this response.
    Reply(McpResponse),
    /// Read a tool call from `params`, run it, and answer `id`.
    CallTool { id: Option<JsonValue>, params: JsonValue },
}

/// The methods of the protocol the server knows.
#[derive(Debug, Clone, Copy, PartialEq, Eq, Structural)]
pub enum McpMethod {
    Initialize,
    Ping,
    Initialized,
    Cancelled,
    ToolsList,
    ToolsCall,
    Unknown,
}

/// The method a name stands for.
pub open spec fn mcp_method(name: Seq<char>) -> McpMethod {
    if name == "initialize"@ {
        McpMethod::Initialize
    } else if name == "ping"@ {
        McpMethod::Ping
    } else if name == "notifications/initialized"@ {
        McpMethod::Initialized
    } else if name == "notifications/cancelled"@ {
        McpMethod::Cancelled
    } else if name == "tools/list"@ {
        McpMethod::ToolsList
    } else if name == "tools/call"@ {
        McpMethod::ToolsCall
    } else {
        McpMethod::Unknown
    }
}

/// The method a name stands for.
pub fn classify_method(name: &str) -> (r: McpMethod)
    ensures
        r == mcp_method(name@),
{
    if str_eq(name, "initialize") {
        McpMethod::Initialize
    } else if str_eq(name, "ping") {
        McpMethod::Ping
    } else if str_eq(name, "notifications/initialized") {
        McpMethod::Initialized
    } else if str_eq(name, "notifications/cancelled") {
        McpMethod::Cancelled
    } else if str_eq(name, "tools/list") {
        McpMethod::ToolsList
    } else if str_eq(name, "tools/call") {
        McpMethod::ToolsCall
    } else {
        McpMethod::Unknown
    }
}

/// `v` is `{"tools": [..]}` listing the tools by name, in order.
pub open spec fn lists_tools(v: JsonValue) -> bool {
    json_view(v) == JsonView::Object(seq![("tools"@, JsonView::Array(offered_tool_views()))])
}

/// `v` is the result of `initialize`: protocol `2025-06-18`, tools that do
/// not change, and the server `opendaemon` at `version`.
pub open spec fn is_initialize_result(v: JsonValue, version: Seq<char>) -> bool {
    json_view(v) == JsonView::Object(
        seq![
            ("protocolVersion"@, JsonView::Str("2025-06-18"@)),
            (
                "capabilities"@,
                JsonView::Object(
                    seq![("tools"@, JsonView::Object(seq![("listChanged"@, JsonView::Bool(false))]))],
                ),
            ),
            (
                "serverInfo"@,
                JsonView::Object(seq![("name"@, JsonView::Str("opendaemon"@)), ("version"@, JsonView::Str(version))]),
            ),
        ],
    )
}

/// The result of `initialize`.
pub fn initialize_result(version: &str) -> (r: JsonValue)
    ensures
        is_initialize_result(r, version@),
{
    let mut listing = new_members();
    push_member(&mut listing, "listChanged", JsonValue::Bool(false));
    let listing = object(listing);
    assert(json_view(listing)->Object_0 =~= seq![("listChanged"@, JsonView::Bool(false))]);
    let mut caps = new_members();
    push_member(&mut caps, "tools", listing);
    let caps = object(caps);
    assert(json_view(caps)->Object_0 =~= seq![("tools"@, json_view(listing))]);
    let mut info = new_members();
    push_member(&mut info, "name", JsonValue::string("opendaemon"));
    push_member(&mut info, "version", JsonValue::string(version));
    let info = object(info);
    assert(json_view(info)->Object_0 =~= seq![("name"@, JsonView::Str("opendaemon"@)), ("version"@, JsonView::Str(version@))]);
    let mut ms = new_members();
    push_member(&mut ms, "protocolVersion", JsonValue::string("2025-06-18"));
    push_member(&mut ms, "capabilities", caps);
    push_member(&mut ms, "serverInfo", info);
    let r = object(ms);
    assert(json_view(r)->Object_0 =~= seq![
        ("protocolVersion"@, JsonView::Str("2025-06-18"@)),
        ("capabilities"@, json_view(caps)),
        ("serverInfo"@, json_view(info)),
    ]);
    r
}

/// A tool as listed: `name`, `description`, `inputSchema`, and
/// `annotations` when it has some.
pub fn tool_json(t: McpTool) -> (r: JsonValue)
    ensures
        json_view(r) == tool_view(t),
{
    let ghost tv = tool_view(t);
    let mut ms = new_members();
    push_member(&mut ms, "name", JsonValue::String(t.name));
    push_member(&mut ms, "description", JsonValue::String(t.description));
    push_member(&mut ms, "inputSchema", t.input_schema);
    match t.annotations {
        Some(a) => {
            push_member(&mut ms, "annotations", a);
        },
        None => {},
    }
    let r = object(ms);
    assert(json_view(r)->Object_0 =~= tv->Object_0);
    r
}

/// `{"tools": [..]}` for the tools, in their order.
pub fn tools_list_result(tools: Vec<McpTool>) -> (r: JsonValue)
    ensures
        json_view(r) == JsonView::Object(
            seq![("tools"@, JsonView::Array(tools@.map_values(|t: McpTool| tool_view(t))))],
        ),
{
    let ghost given = tools@;
    let ghost n: int = given.len() as int;
    let mut rest = tools;
    let mut reversed: Vec<JsonValue> = Vec::new();
    while rest.len() > 0
        invariant
            rest@ == given.subrange(0, rest@.len() as int),
            reversed@.len() + rest@.len() == n,
            n == given.len(),
            forall|k: int| 0 <= k < reversed@.len() ==> json_view(#[trigger] reversed@[k]) == tool_view(given[n - 1 - k]),
        decreases rest@.len(),
    {
        let t = rest.pop().unwrap();
        proof {
            assert(t == given[rest@.len() as int]);
            assert(rest@ =~= given.subrange(0, rest@.len() as int));
        }
        reversed.push(tool_json(t));
    }
    let mut items: Vec<JsonValue> = Vec::new();
    while reversed.len() > 0
        invariant
            items@.len() + reversed@.len() == n,
            n == given.len(),
            forall|k: int| 0 <= k < reversed@.len() ==> json_view(#[trigger] reversed@[k]) == tool_view(given[n - 1 - k]),
            forall|k: int| 0 <= k < items@.len() ==> json_view(#[trigger] items@[k]) == tool_view(given[k]),
        decreases reversed@.len(),
    {
        let ghost before = reversed@;
        let j = reversed.pop().unwrap();
        proof {
            assert(j == before[before.len() - 1]);
        }
        items.push(j);
    }
    let ghost listed = items@;
    let list = array(items);
    assert(items_view(listed) =~= given.map_values(|t: McpTool| tool_view(t)));
    let mut ms = new_members();
    push_member(&mut ms, "tools", list);
    let r = object(ms);
    assert(json_view(r)->Object_0 =~= seq![("tools"@, JsonView::Array(given.map_values(|t: McpTool| tool_view(t))))]);
    r
}

/// `{"type": "text", "text": t}`.
pub open spec fn text_item_view(t: Seq<char>) -> JsonView {
    JsonView::Object(seq![("type"@, JsonView::Str("text"@)), ("text"@, JsonView::Str(t))])
}

/// A content item as sent.
pub open spec fn content_view(c: McpContent) -> JsonView {
    match c {
        McpContent::Text { text } => text_item_view(text@),
    }
}

/// A tool result as sent: its content items, and whether it is an error;
/// an error is one text item.
pub open spec fn tool_result_view(result: McpToolResult) -> JsonView {
    match result {
        McpToolResult::Success { content } => JsonView::Object(
            seq![
                ("content"@, JsonView::Array(content@.map_values(|c: McpContent| content_view(c)))),
                ("isError"@, JsonView::Bool(false)),
            ],
        ),
        McpToolResult::Error { error } => JsonView::Object(
            seq![
                ("content"@, JsonView::Array(seq![text_item_view(error@)])),
                ("isError"@, JsonView::Bool(true)),
            ],
        ),
    }
}

/// A text result is sent as one text item, with `isError` false for a
/// success and true for an error.
pub proof fn law_text_result_as_sent(r: McpToolResult, t: Seq<char>)
    ensures
        is_success_text(r, t) ==> tool_result_view(r) == JsonView::Object(
            seq![("content"@, JsonView::Array(seq![text_item_view(t)])), ("isError"@, JsonView::Bool(false))],
        ),
        is_error_text(r, t) ==> tool_result_view(r) == JsonView::Object(
            seq![("content"@, JsonView::Array(seq![text_item_view(t)])), ("isError"@, JsonView::Bool(true))],
        ),
{
    if is_success_text(r, t) {
        let content = r->Success_content;
        assert(content@.map_values(|c: McpContent| content_view(c)) =~= seq![text_item_view(t)]);
    }
}

/// A tool result as sent: `{"content": [{"type": "text", "text": ..}],
/// "isError": ..}`; an error becomes one text item.
pub fn tool_result_json(result: &McpToolResult) -> (r: JsonValue)
    ensures
        json_view(r) == tool_result_view(*result),
{
    let ghost expected = tool_result_view(*result);
    let mut content = new_items();
    let is_error = match result {
        McpToolResult::Success { content: items } => {
            let mut i: usize = 0;
            while i < items.len()
                invariant
                    i <= items@.len(),
                    items_view(content@) =~= items@.subrange(0, i as int).map_values(|c: McpContent| content_view(c)),
                decreases items@.len() - i,
            {
                match &items[i] {
                    McpContent::Text { text } => {
                        push_item(&mut content, text_item(text.as_str()));
                    },
                }
                assert(items@.subrange(0, i + 1) =~= items@.subrange(0, i as int).push(items@[i as int]));
                i = i + 1;
            }
            assert(items@.subrange(0, i as int) =~= items@);
            false
        },
        McpToolResult::Error { error } => {
            push_item(&mut content, text_item(error.as_str()));
            true
        },
    };
    let list = array(content);
    let mut ms = new_members();
    push_member(&mut ms, "content", list);
    push_member(&mut ms, "isError", JsonValue::Bool(is_error));
    let r = object(ms);
    assert(json_view(r)->Object_0 =~= expected->Object_0);
    r
}

/// `{"type": "text", "text": <t>}`.
fn text_item(t: &str) -> (r: JsonValue)
    ensures
        json_view(r) == text_item_view(t@),
{
    let mut ms = new_members();
    push_member(&mut ms, "type", JsonValue::string("text"));
    push_member(&mut ms, "text", JsonValue::string(t));
    let r = object(ms);
    assert(json_view(r)->Object_0 =~= text_item_view(t@)->Object_0);
    r
}

} // verus!
