use opendaemon::logs::{CircularBuffer, LogBuffer, LogLine, LogLineCount, LogStream, LogTimestamp};

fn create_log_line(content: &str, stream: LogStream) -> LogLine {
    LogLine::new(content.to_string(), stream)
}

#[test]
fn test_circular_buffer_new() {
    let buffer = CircularBuffer::new(10);
    assert_eq!(buffer.len(), 0);
    assert!(buffer.is_empty());
}

#[test]
fn test_circular_buffer_push() {
    let mut buffer = CircularBuffer::new(3);
    buffer.push(create_log_line("line 1", LogStream::Stdout));
    assert_eq!(buffer.len(), 1);
    buffer.push(create_log_line("line 2", LogStream::Stdout));
    assert_eq!(buffer.len(), 2);
    buffer.push(create_log_line("line 3", LogStream::Stdout));
    assert_eq!(buffer.len(), 3);
}

#[test]
fn test_circular_buffer_eviction() {
    let mut buffer = CircularBuffer::new(3);
    buffer.push(create_log_line("line 1", LogStream::Stdout));
    buffer.push(create_log_line("line 2", LogStream::Stdout));
    buffer.push(create_log_line("line 3", LogStream::Stdout));
    buffer.push(create_log_line("line 4", LogStream::Stdout));
    assert_eq!(buffer.len(), 3);
    let lines = buffer.get_lines(LogLineCount::All);
    assert_eq!(lines[0].content, "line 2");
    assert_eq!(lines[1].content, "line 3");
    assert_eq!(lines[2].content, "line 4");
}

#[test]
fn test_circular_buffer_get_all_lines() {
    let mut buffer = CircularBuffer::new(5);
    buffer.push(create_log_line("line 1", LogStream::Stdout));
    buffer.push(create_log_line("line 2", LogStream::Stderr));
    buffer.push(create_log_line("line 3", LogStream::Stdout));
    let lines = buffer.get_lines(LogLineCount::All);
    assert_eq!(lines.len(), 3);
    assert_eq!(lines[0].content, "line 1");
    assert_eq!(lines[1].content, "line 2");
    assert_eq!(lines[2].content, "line 3");
}

#[test]
fn test_circular_buffer_get_last_n_lines() {
    let mut buffer = CircularBuffer::new(10);
    for i in 1..=5 {
        buffer.push(create_log_line(&format!("line {}", i), LogStream::Stdout));
    }
    let lines = buffer.get_lines(LogLineCount::Last(3));
    assert_eq!(lines.len(), 3);
    assert_eq!(lines[0].content, "line 3");
    assert_eq!(lines[1].content, "line 4");
    assert_eq!(lines[2].content, "line 5");
}

#[test]
fn test_circular_buffer_get_last_n_more_than_available() {
    let mut buffer = CircularBuffer::new(10);
    buffer.push(create_log_line("line 1", LogStream::Stdout));
    buffer.push(create_log_line("line 2", LogStream::Stdout));
    let lines = buffer.get_lines(LogLineCount::Last(10));
    assert_eq!(lines.len(), 2);
    assert_eq!(lines[0].content, "line 1");
    assert_eq!(lines[1].content, "line 2");
}

#[test]
fn test_circular_buffer_clear() {
    let mut buffer = CircularBuffer::new(5);
    buffer.push(create_log_line("line 1", LogStream::Stdout));
    buffer.push(create_log_line("line 2", LogStream::Stdout));
    assert_eq!(buffer.len(), 2);
    buffer.clear();
    assert_eq!(buffer.len(), 0);
    assert!(buffer.is_empty());
}

#[test]
fn test_circular_buffer_stream_types() {
    let mut buffer = CircularBuffer::new(5);
    buffer.push(create_log_line("stdout line", LogStream::Stdout));
    buffer.push(create_log_line("stderr line", LogStream::Stderr));
    let lines = buffer.get_lines(LogLineCount::All);
    assert_eq!(lines.len(), 2);
    match lines[0].stream {
        LogStream::Stdout => {}
        _ => panic!("Expected Stdout"),
    }
    match lines[1].stream {
        LogStream::Stderr => {}
        _ => panic!("Expected Stderr"),
    }
}

#[test]
fn test_log_buffer_new() {
    let buffer = LogBuffer::new(100);
    assert_eq!(buffer.services().len(), 0);
}

#[test]
fn test_log_buffer_append() {
    let mut buffer = LogBuffer::new(100);
    buffer.append("service1", create_log_line("line 1", LogStream::Stdout));
    buffer.append("service1", create_log_line("line 2", LogStream::Stdout));
    buffer.append("service2", create_log_line("line 1", LogStream::Stdout));
    let lines1 = buffer.get_all_lines("service1");
    let lines2 = buffer.get_all_lines("service2");
    assert_eq!(lines1.len(), 2);
    assert_eq!(lines2.len(), 1);
    assert_eq!(lines1[0].content, "line 1");
    assert_eq!(lines1[1].content, "line 2");
    assert_eq!(lines2[0].content, "line 1");
}

#[test]
fn test_log_buffer_automatic_eviction() {
    let mut buffer = LogBuffer::new(3);
    buffer.append("service1", create_log_line("line 1", LogStream::Stdout));
    buffer.append("service1", create_log_line("line 2", LogStream::Stdout));
    buffer.append("service1", create_log_line("line 3", LogStream::Stdout));
    buffer.append("service1", create_log_line("line 4", LogStream::Stdout));
    let lines = buffer.get_all_lines("service1");
    assert_eq!(lines.len(), 3);
    assert_eq!(lines[0].content, "line 2");
    assert_eq!(lines[1].content, "line 3");
    assert_eq!(lines[2].content, "line 4");
}

#[test]
fn test_log_buffer_get_lines_with_count() {
    let mut buffer = LogBuffer::new(100);
    for i in 1..=10 {
        buffer.append("service1", create_log_line(&format!("line {}", i), LogStream::Stdout));
    }
    let lines = buffer.get_lines("service1", LogLineCount::Last(5));
    assert_eq!(lines.len(), 5);
    assert_eq!(lines[0].content, "line 6");
    assert_eq!(lines[4].content, "line 10");
}

#[test]
fn test_log_buffer_get_lines_nonexistent_service() {
    let buffer = LogBuffer::new(100);
    let lines = buffer.get_all_lines("nonexistent");
    assert_eq!(lines.len(), 0);
}

#[test]
fn test_log_buffer_multiple_services() {
    let mut buffer = LogBuffer::new(100);
    buffer.append("db", create_log_line("db log 1", LogStream::Stdout));
    buffer.append("api", create_log_line("api log 1", LogStream::Stdout));
    buffer.append("db", create_log_line("db log 2", LogStream::Stderr));
    buffer.append("api", create_log_line("api log 2", LogStream::Stdout));
    let db_lines = buffer.get_all_lines("db");
    let api_lines = buffer.get_all_lines("api");
    assert_eq!(db_lines.len(), 2);
    assert_eq!(api_lines.len(), 2);
    assert_eq!(db_lines[0].content, "db log 1");
    assert_eq!(api_lines[0].content, "api log 1");
}

#[test]
fn test_log_buffer_clear_service() {
    let mut buffer = LogBuffer::new(100);
    buffer.append("service1", create_log_line("line 1", LogStream::Stdout));
    buffer.append("service2", create_log_line("line 1", LogStream::Stdout));
    buffer.clear_service("service1");
    let lines1 = buffer.get_all_lines("service1");
    let lines2 = buffer.get_all_lines("service2");
    assert_eq!(lines1.len(), 0);
    assert_eq!(lines2.len(), 1);
}

#[test]
fn test_log_buffer_clear_all() {
    let mut buffer = LogBuffer::new(100);
    buffer.append("service1", create_log_line("line 1", LogStream::Stdout));
    buffer.append("service2", create_log_line("line 1", LogStream::Stdout));
    buffer.clear_all();
    assert_eq!(buffer.services().len(), 0);
    assert_eq!(buffer.get_all_lines("service1").len(), 0);
    assert_eq!(buffer.get_all_lines("service2").len(), 0);
}

#[test]
fn test_log_buffer_services_list() {
    let mut buffer = LogBuffer::new(100);
    buffer.append("service1", create_log_line("line 1", LogStream::Stdout));
    buffer.append("service2", create_log_line("line 1", LogStream::Stdout));
    buffer.append("service3", create_log_line("line 1", LogStream::Stdout));
    let mut services = buffer.services();
    services.sort();
    assert_eq!(services.len(), 3);
    assert_eq!(services, vec!["service1", "service2", "service3"]);
}

#[test]
fn test_log_buffer_per_service_limits() {
    let mut buffer = LogBuffer::new(5);
    for i in 1..=10 {
        buffer.append("service1", create_log_line(&format!("s1 line {}", i), LogStream::Stdout));
    }
    for i in 1..=3 {
        buffer.append("service2", create_log_line(&format!("s2 line {}", i), LogStream::Stdout));
    }
    let lines1 = buffer.get_all_lines("service1");
    let lines2 = buffer.get_all_lines("service2");
    assert_eq!(lines1.len(), 5);
    assert_eq!(lines1[0].content, "s1 line 6");
    assert_eq!(lines1[4].content, "s1 line 10");
    assert_eq!(lines2.len(), 3);
    assert_eq!(lines2[0].content, "s2 line 1");
    assert_eq!(lines2[2].content, "s2 line 3");
}

// Reading back what was appended: the last lines asked for, in order.
#[test]
fn test_append_then_read_returns_last_lines() {
    let mut buffer = LogBuffer::new(4);
    for i in 1..=6 {
        buffer.append("svc", create_log_line(&format!("l{}", i), LogStream::Stdout));
    }
    let all = buffer.get_all_lines("svc");
    let last2 = buffer.get_lines("svc", LogLineCount::Last(2));
    assert_eq!(all.len(), 4);
    assert_eq!(last2.len(), 2);
    assert_eq!(last2[0].content, all[2].content);
    assert_eq!(last2[1].content, "l6");
}

#[test]
fn test_buffer_of_size_zero_holds_one_line() {
    let mut buffer = CircularBuffer::new(0);
    buffer.push(create_log_line("a", LogStream::Stdout));
    buffer.push(create_log_line("b", LogStream::Stdout));
    let lines = buffer.get_lines(LogLineCount::All);
    assert_eq!(lines.len(), 1);
    assert_eq!(lines[0].content, "b");
}

#[test]
fn test_timestamp_str_formats_millis() {
    let line = LogLine {
        timestamp: LogTimestamp::SinceEpoch { secs: 12, nanos: 5_000_000 },
        content: "x".to_string(),
        stream: LogStream::Stdout,
    };
    assert_eq!(line.timestamp_str(), "12.005");
    let before = LogLine { timestamp: LogTimestamp::BeforeEpoch, content: String::new(), stream: LogStream::Stderr };
    assert_eq!(before.timestamp_str(), "unknown");
}
