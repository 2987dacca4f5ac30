use opendaemon::cli::{display_status, is_state_active, now_unix_secs, RuntimeState};
use opendaemon::error::{ConfigError, DmnError, GraphError, ProcessError, ReadyError};
use opendaemon::process::{parse_command, ServiceStatus};
use opendaemon::ready::ReadyWatcher;
use std::time::Duration;

#[test]
fn test_display_status_known_values() {
    assert_eq!(display_status("not_started"), "Not Started");
    assert_eq!(display_status("starting"), "Starting");
    assert_eq!(display_status("running"), "Running");
    assert_eq!(display_status("stopped"), "Stopped");
}

#[test]
fn test_display_status_failed_value() {
    assert_eq!(display_status("failed: Process exited with code 1"), "Failed (Process exited with code 1)");
}

#[test]
fn test_state_activity_window() {
    let now = now_unix_secs();
    let active = RuntimeState {
        config_path: "test".to_string(),
        started_at_unix: now.saturating_sub(2),
        heartbeat_unix: now.saturating_sub(2),
        services: Vec::new(),
    };
    assert!(is_state_active(&active));

    let stale = RuntimeState {
        config_path: "test".to_string(),
        started_at_unix: now.saturating_sub(30),
        heartbeat_unix: now.saturating_sub(30),
        services: Vec::new(),
    };
    assert!(!is_state_active(&stale));
}

#[test]
fn test_config_error_display() {
    let err = ConfigError::MissingField("version".to_string());
    assert_eq!(err.to_string(), "Missing required field: version");
}

#[test]
fn test_graph_error_display() {
    let err = GraphError::CyclicDependency { cycle: "service1 -> service2 -> service1".to_string() };
    assert_eq!(err.to_string(), "Cyclic dependency detected: service1 -> service2 -> service1");
}

#[test]
fn test_process_error_display() {
    let err = ProcessError::ServiceFailed { service: "backend".to_string(), exit_code: 1 };
    assert_eq!(err.to_string(), "Service 'backend' exited with code 1");
}

#[test]
fn test_ready_error_display() {
    let err = ReadyError::Timeout {
        service: "database".to_string(),
        timeout_secs: 30,
        condition: "log_contains pattern: 'ready'".to_string(),
        details: "Last 2 log lines:\n  Starting database\n  Loading config\n".to_string(),
        troubleshooting: "Troubleshooting:\n- Check the pattern\n- Increase timeout".to_string(),
    };
    let err_str = err.to_string();
    assert!(err_str.contains("database"));
    assert!(err_str.contains("30 seconds"));
    assert!(err_str.contains("log_contains"));
}

#[test]
fn test_dmn_error_user_message() {
    let err = DmnError::Config(ConfigError::MissingField("version".to_string()));
    assert!(err.user_message().contains("Configuration Error"));
    assert!(err.user_message().contains("version"));
}

#[test]
fn test_dmn_error_category() {
    let err = DmnError::Process(ProcessError::ServiceNotFound { service: "test".to_string() });
    assert_eq!(err.category(), "PROCESS");
}

#[test]
fn test_dmn_error_is_recoverable() {
    let recoverable = DmnError::Process(ProcessError::AlreadyRunning { service: "test".to_string() });
    assert!(recoverable.is_recoverable());
    let not_recoverable = DmnError::Config(ConfigError::MissingField("version".to_string()));
    assert!(!not_recoverable.is_recoverable());
}

#[test]
fn test_dmn_error_texts_exact() {
    let err = DmnError::Io("disk full".to_string());
    assert_eq!(err.to_string(), "IO error: disk full");
    assert_eq!(err.user_message(), "IO Error: disk full");
    assert_eq!(err.category(), "IO");
    let timeout = DmnError::Ready(ReadyError::RegexError("bad".to_string()));
    assert!(!timeout.is_recoverable());
    assert_eq!(timeout.category(), "READY");
}

#[test]
fn test_service_status_variants() {
    let status1 = ServiceStatus::NotStarted;
    let status2 = ServiceStatus::Starting;
    let status3 = ServiceStatus::Running;
    let status4 = ServiceStatus::Stopped;
    let status5 = ServiceStatus::Failed { exit_code: 1 };
    assert_eq!(status1, ServiceStatus::NotStarted);
    assert_eq!(status2, ServiceStatus::Starting);
    assert_eq!(status3, ServiceStatus::Running);
    assert_eq!(status4, ServiceStatus::Stopped);
    assert_eq!(status5, ServiceStatus::Failed { exit_code: 1 });
}

#[test]
fn test_parse_command_simple() {
    let result = parse_command("echo hello");
    assert!(result.is_ok());
    let parts = result.unwrap();
    assert_eq!(parts.len(), 2);
    assert_eq!(parts[0], "echo");
    assert_eq!(parts[1], "hello");
}

#[test]
fn test_parse_command_multiple_args() {
    let result = parse_command("cargo run --release --bin myapp");
    assert!(result.is_ok());
    let parts = result.unwrap();
    assert_eq!(parts.len(), 5);
    assert_eq!(parts[0], "cargo");
    assert_eq!(parts[1], "run");
    assert_eq!(parts[2], "--release");
    assert_eq!(parts[3], "--bin");
    assert_eq!(parts[4], "myapp");
}

#[test]
fn test_parse_command_empty() {
    let result = parse_command("");
    assert!(result.is_err());
}

#[test]
fn test_parse_command_quoted() {
    let result = parse_command("node -e \"console.log('hello world')\"");
    assert!(result.is_ok());
    let parts = result.unwrap();
    assert_eq!(parts.len(), 3);
    assert_eq!(parts[0], "node");
    assert_eq!(parts[1], "-e");
    assert_eq!(parts[2], "console.log('hello world')");
}

#[test]
fn test_parse_command_mixed_quotes() {
    let result = parse_command("echo 'hello \"world\"' \"foo 'bar'\"");
    assert!(result.is_ok());
    let parts = result.unwrap();
    assert_eq!(parts.len(), 3);
    assert_eq!(parts[0], "echo");
    assert_eq!(parts[1], "hello \"world\"");
    assert_eq!(parts[2], "foo 'bar'");
}

#[test]
fn test_parse_command_whitespace_only() {
    let result = parse_command("   ");
    assert!(result.is_err());
}

#[test]
fn test_parse_command_error_texts() {
    match parse_command("  ") {
        Err(e) => assert_eq!(e.to_string(), "Failed to parse command: Command is empty"),
        Ok(_) => panic!("expected an error"),
    }
    match parse_command("echo 'open") {
        Err(e) => assert_eq!(e.to_string(), "Failed to parse command: Unbalanced quotes in command"),
        Ok(_) => panic!("expected an error"),
    }
}

#[test]
fn test_parse_command_escapes() {
    let parts = parse_command(r"echo a\ b 'c\d'").unwrap();
    assert_eq!(parts, vec!["echo", "a b", r"c\d"]);
}

#[test]
fn test_ready_watcher_new() {
    let watcher = ReadyWatcher::new(Duration::from_secs(30));
    assert_eq!(watcher.ready_count(), 0);
    assert_eq!(watcher.condition_count(), 0);
}

#[test]
fn test_is_ready() {
    let mut watcher = ReadyWatcher::new(Duration::from_secs(30));
    assert!(!watcher.is_ready("service1"));
    watcher.mark_ready("service1");
    assert!(watcher.is_ready("service1"));
    assert!(!watcher.is_ready("service2"));
}

#[test]
fn test_mark_ready() {
    let mut watcher = ReadyWatcher::new(Duration::from_secs(30));
    watcher.mark_ready("service1");
    watcher.mark_ready("service2");
    assert!(watcher.is_ready("service1"));
    assert!(watcher.is_ready("service2"));
    assert_eq!(watcher.ready_count(), 2);
}

#[test]
fn test_reset_service() {
    let mut watcher = ReadyWatcher::new(Duration::from_secs(30));
    watcher.mark_ready("service1");
    watcher.mark_ready("service2");
    watcher.reset_service("service1");
    assert!(!watcher.is_ready("service1"));
    assert!(watcher.is_ready("service2"));
}

#[test]
fn test_reset_all() {
    let mut watcher = ReadyWatcher::new(Duration::from_secs(30));
    watcher.mark_ready("service1");
    watcher.mark_ready("service2");
    watcher.mark_ready("service3");
    watcher.reset_all();
    assert!(!watcher.is_ready("service1"));
    assert!(!watcher.is_ready("service2"));
    assert!(!watcher.is_ready("service3"));
    assert_eq!(watcher.ready_count(), 0);
    assert_eq!(watcher.condition_count(), 0);
}

#[test]
fn test_mark_ready_twice_counts_once() {
    let mut watcher = ReadyWatcher::new(Duration::from_secs(5));
    watcher.mark_ready("db");
    watcher.mark_ready("db");
    assert_eq!(watcher.ready_count(), 1);
    assert_eq!(watcher.get_timeout(), Duration::from_secs(5));
}

#[test]
fn test_plain_command_splits_like_split_whitespace() {
    let command = "  npm\trun   dev \n --port 3000 ";
    let expected: Vec<String> = command.split_whitespace().map(String::from).collect();
    assert_eq!(parse_command(command).unwrap(), expected);
    assert!(parse_command(" \t ").is_err());
}
