use opendaemon::config::ReadyCondition;
use opendaemon::ready::timeout_error;

fn lines(from: u32, to: u32) -> Vec<String> {
    (from..=to).map(|i| format!("Log line {}", i)).collect()
}

fn log_condition(pattern: &str) -> ReadyCondition {
    ReadyCondition::LogContains { pattern: pattern.to_string(), timeout_seconds: None }
}

#[test]
fn test_log_timeout_error_message_contains_all_details() {
    // A 500 ms limit is 0 whole seconds; three lines arrived, none matching.
    let err = timeout_error("test_service", &log_condition("READY_SIGNAL"), 0, &lines(1, 3), 0);
    let err_str = err.to_string();
    assert!(err_str.contains("test_service"));
    assert!(err_str.contains("0 seconds"));
    assert!(err_str.contains("log_contains"));
    assert!(err_str.contains("READY_SIGNAL"));
    assert!(err_str.contains("Last") && err_str.contains("log lines"));
    assert!(err_str.contains("Log line"));
    assert!(err_str.contains("Troubleshooting"));
    assert!(err_str.contains("timeout_seconds"));
}

#[test]
fn test_url_timeout_error_message_contains_all_details() {
    let url = "http://192.0.2.1:9999/health";
    let condition = ReadyCondition::UrlResponds { url: url.to_string(), timeout_seconds: None };
    let err = timeout_error("api_service", &condition, 0, &Vec::new(), 1);
    let err_str = err.to_string();
    assert!(err_str.contains("api_service"));
    assert!(err_str.contains("0 seconds"));
    assert!(err_str.contains("url_responds"));
    assert!(err_str.contains(url));
    assert!(err_str.contains("attempts"));
    assert!(err_str.contains("Troubleshooting"));
    assert!(err_str.contains("timeout_seconds"));
    assert!(err_str.contains("listening"));
}

#[test]
fn test_log_timeout_with_no_logs_shows_appropriate_message() {
    let err = timeout_error("silent_service", &log_condition("READY"), 0, &Vec::new(), 0);
    assert!(err.to_string().contains("No log output received"));
}

#[test]
fn test_log_timeout_captures_last_10_lines_only() {
    let err = timeout_error("verbose_service", &log_condition("NEVER_MATCHES"), 0, &lines(1, 15), 0);
    let err_str = err.to_string();
    assert!(err_str.contains("Last 10 log lines"));
    assert!(err_str.contains("Log line 15"));
    assert!(err_str.contains("Log line 6"));
    let shown: Vec<&str> = err_str.lines().collect();
    assert!(!shown.iter().any(|l| l.trim() == "Log line 1"));
    assert!(!shown.iter().any(|l| l.trim() == "Log line 5"));
}

#[test]
fn test_timeout_error_exact_text() {
    let err = timeout_error("db", &log_condition("ready"), 30, &lines(1, 2), 0);
    assert_eq!(
        err.to_string(),
        "Timeout waiting for service 'db' to be ready after 30 seconds.\n\
         Condition: log_contains pattern: 'ready'\n\
         Last 2 log lines:\n  Log line 1\n  Log line 2\n\
         Troubleshooting:\n- Check that the service prints a line matching the pattern 'ready'\n\
         - Check the log lines above for errors\n- Raise the limit with 'timeout_seconds' in ready_when\n"
    );
}
