use opendaemon::config::{
    env_content_hits_lone_quote, load_env_file, parse_config, parse_env_content, ConfigError, DmnConfig, EnvVars, ReadyCondition,
    ServiceConfig, ServiceMap,
};

fn service(command: &str, deps: &[&str], ready_when: Option<ReadyCondition>, env_file: Option<&str>) -> ServiceConfig {
    ServiceConfig {
        command: command.to_string(),
        depends_on: deps.iter().map(|d| d.to_string()).collect(),
        ready_when,
        env_file: env_file.map(|e| e.to_string()),
    }
}

fn config_of(version: &str, services: Vec<(&str, ServiceConfig)>) -> DmnConfig {
    let mut map = ServiceMap::new();
    for (name, cfg) in services {
        map.insert(name.to_string(), cfg);
    }
    DmnConfig { version: version.to_string(), services: map }
}

#[test]
fn test_ready_condition_display() {
    let log_condition = ReadyCondition::LogContains { pattern: "Started".to_string(), timeout_seconds: None };
    assert_eq!(log_condition.to_string(), "log_contains: 'Started'");
    let url_condition = ReadyCondition::UrlResponds { url: "http://localhost:3000".to_string(), timeout_seconds: None };
    assert_eq!(url_condition.to_string(), "url_responds: 'http://localhost:3000'");
}

#[test]
fn test_ready_condition_display_with_timeout() {
    let log_condition = ReadyCondition::LogContains { pattern: "Started".to_string(), timeout_seconds: Some(120) };
    assert_eq!(log_condition.to_string(), "log_contains: 'Started' (timeout: 120s)");
    let url_condition =
        ReadyCondition::UrlResponds { url: "http://localhost:3000".to_string(), timeout_seconds: Some(90) };
    assert_eq!(url_condition.to_string(), "url_responds: 'http://localhost:3000' (timeout: 90s)");
}

#[test]
fn test_service_config_display() {
    let config = service(
        "npm start",
        &["db"],
        Some(ReadyCondition::LogContains { pattern: "Ready".to_string(), timeout_seconds: None }),
        Some(".env"),
    );
    let display = config.to_string();
    assert!(display.contains("npm start"));
    assert!(display.contains("'db'"));
    assert!(display.contains("log_contains"));
    assert!(display.contains(".env"));
}

#[test]
fn test_dmn_config_display() {
    let config = config_of("1.0", vec![("app", service("run.sh", &[], None, None))]);
    let display = config.to_string();
    assert!(display.contains("DmnConfig"));
    assert!(display.contains("1.0"));
    assert!(display.contains("app"));
}

#[test]
fn test_parse_config_missing_file() {
    let result = parse_config(Err(ConfigError::Io("No such file or directory (os error 2)".to_string())));
    assert!(result.is_err());
}

#[test]
fn test_validate_empty_version() {
    let config = config_of("", vec![("test", service("echo test", &[], None, None))]);
    let result = config.validate();
    assert!(result.is_err());
    assert!(result.unwrap_err().to_string().contains("version"));
}

#[test]
fn test_validate_no_services() {
    let config = config_of("1.0", vec![]);
    let result = config.validate();
    assert!(result.is_err());
    assert!(result.unwrap_err().to_string().contains("at least one service"));
}

#[test]
fn test_validate_empty_command() {
    let config = config_of("1.0", vec![("test", service("   ", &[], None, None))]);
    let result = config.validate();
    assert!(result.is_err());
    assert!(result.unwrap_err().to_string().contains("command cannot be empty"));
}

#[test]
fn test_validate_missing_dependency() {
    let config = config_of("1.0", vec![("frontend", service("npm start", &["backend"], None, None))]);
    let result = config.validate();
    assert!(result.is_err());
    let err_msg = result.unwrap_err().to_string();
    assert!(err_msg.contains("dependency 'backend' does not exist"));
}

#[test]
fn test_validate_empty_log_pattern() {
    let config = config_of(
        "1.0",
        vec![(
            "test",
            service(
                "echo test",
                &[],
                Some(ReadyCondition::LogContains { pattern: "".to_string(), timeout_seconds: None }),
                None,
            ),
        )],
    );
    let result = config.validate();
    assert!(result.is_err());
    assert!(result.unwrap_err().to_string().contains("pattern cannot be empty"));
}

#[test]
fn test_validate_invalid_regex() {
    let config = config_of(
        "1.0",
        vec![(
            "test",
            service(
                "echo test",
                &[],
                Some(ReadyCondition::LogContains { pattern: "[invalid(".to_string(), timeout_seconds: None }),
                None,
            ),
        )],
    );
    let result = config.validate();
    assert!(result.is_err());
    assert!(result.unwrap_err().to_string().contains("invalid regex pattern"));
}

#[test]
fn test_validate_empty_url() {
    let config = config_of(
        "1.0",
        vec![(
            "test",
            service(
                "echo test",
                &[],
                Some(ReadyCondition::UrlResponds { url: "".to_string(), timeout_seconds: None }),
                None,
            ),
        )],
    );
    let result = config.validate();
    assert!(result.is_err());
    assert!(result.unwrap_err().to_string().contains("url cannot be empty"));
}

#[test]
fn test_validate_circular_dependency_direct() {
    let config = config_of(
        "1.0",
        vec![
            ("service_a", service("echo a", &["service_b"], None, None)),
            ("service_b", service("echo b", &["service_a"], None, None)),
        ],
    );
    let result = config.validate();
    assert!(result.is_err());
    assert!(result.unwrap_err().to_string().contains("circular dependency"));
}

#[test]
fn test_validate_circular_dependency_indirect() {
    let config = config_of(
        "1.0",
        vec![
            ("a", service("echo a", &["b"], None, None)),
            ("b", service("echo b", &["c"], None, None)),
            ("c", service("echo c", &["a"], None, None)),
        ],
    );
    let result = config.validate();
    assert!(result.is_err());
    assert!(result.unwrap_err().to_string().contains("circular dependency"));
}

#[test]
fn test_validate_valid_config() {
    let config = config_of(
        "1.0",
        vec![
            (
                "database",
                service(
                    "postgres",
                    &[],
                    Some(ReadyCondition::LogContains {
                        pattern: "ready to accept connections".to_string(),
                        timeout_seconds: None,
                    }),
                    None,
                ),
            ),
            (
                "backend",
                service(
                    "cargo run",
                    &["database"],
                    Some(ReadyCondition::UrlResponds {
                        url: "http://localhost:8080/health".to_string(),
                        timeout_seconds: None,
                    }),
                    Some(".env"),
                ),
            ),
            ("frontend", service("npm start", &["backend"], None, None)),
        ],
    );
    let result = config.validate();
    assert!(result.is_ok());
}

#[test]
fn test_validate_zero_timeout() {
    let config = config_of(
        "1.0",
        vec![(
            "test",
            service(
                "echo test",
                &[],
                Some(ReadyCondition::LogContains { pattern: "Ready".to_string(), timeout_seconds: Some(0) }),
                None,
            ),
        )],
    );
    let result = config.validate();
    assert!(result.is_err());
    assert!(result.unwrap_err().to_string().contains("timeout_seconds must be greater than 0"));
}

#[test]
fn test_validate_zero_timeout_url_responds() {
    let config = config_of(
        "1.0",
        vec![(
            "test",
            service(
                "echo test",
                &[],
                Some(ReadyCondition::UrlResponds {
                    url: "http://localhost:3000".to_string(),
                    timeout_seconds: Some(0),
                }),
                None,
            ),
        )],
    );
    let result = config.validate();
    assert!(result.is_err());
    assert!(result.unwrap_err().to_string().contains("timeout_seconds must be greater than 0"));
}

#[test]
fn test_validate_valid_timeout() {
    let config = config_of(
        "1.0",
        vec![(
            "slow_service",
            service(
                "slow_start.sh",
                &[],
                Some(ReadyCondition::LogContains { pattern: "Ready".to_string(), timeout_seconds: Some(300) }),
                None,
            ),
        )],
    );
    let result = config.validate();
    assert!(result.is_ok());
}

#[test]
fn test_load_env_file_missing() {
    let result = load_env_file(None, "/nonexistent/.env");
    assert!(result.is_ok());
    assert_eq!(result.unwrap().len(), 0);
}

#[test]
fn test_load_env_file_read_error() {
    let result = load_env_file(Some(Err("permission denied".to_string())), "/x/.env");
    match result {
        Err(e) => assert_eq!(e.to_string(), "IO error: permission denied"),
        Ok(_) => panic!("expected an error"),
    }
}

#[test]
fn test_env_content_basic() {
    let vars = parse_env_content("DATABASE_URL=postgres://localhost/mydb\nAPI_KEY=secret123\nPORT=8080", "t.env").unwrap();
    assert_eq!(vars.len(), 3);
    assert_eq!(vars.get("DATABASE_URL"), Some(&"postgres://localhost/mydb".to_string()));
    assert_eq!(vars.get("PORT"), Some(&"8080".to_string()));
}

#[test]
fn test_env_content_comments_quotes_and_errors() {
    let vars = parse_env_content("# comment\n\nA=\"x y\"\nB='z'\n  C = 1 ", "t.env").unwrap();
    assert_eq!(vars.get("A"), Some(&"x y".to_string()));
    assert_eq!(vars.get("B"), Some(&"z".to_string()));
    assert_eq!(vars.get("C"), Some(&"1".to_string()));
    match parse_env_content("OK=1\nbroken", "t.env") {
        Err(e) => assert!(e.to_string().contains("t.env:2")),
        Ok(_) => panic!("expected an error"),
    }
}

#[test]
fn test_parse_config_validates() {
    let bad = config_of("1.0", vec![]);
    assert!(parse_config(Ok(bad)).is_err());
    let good = config_of("1.0", vec![("a", service("run", &[], None, None))]);
    let accepted = parse_config(Ok(good)).unwrap();
    assert_eq!(accepted.version, "1.0");
    assert_eq!(accepted.services.len(), 1);
}

#[test]
fn test_service_map_keeps_first_of_a_name() {
    let mut map = ServiceMap::new();
    map.insert("a".to_string(), service("one", &[], None, None));
    map.insert("a".to_string(), service("two", &[], None, None));
    assert_eq!(map.len(), 1);
    assert_eq!(map.get("a").unwrap().command, "two");
    assert!(map.contains_key("a"));
    assert!(!map.contains_key("b"));
}

#[test]
fn test_env_lone_quote_detection() {
    assert!(env_content_hits_lone_quote("A=1\nB=\"", "t.env"));
    assert!(env_content_hits_lone_quote("B = ' ", "t.env"));
    assert!(!env_content_hits_lone_quote("A=\"\"\nB=x", "t.env"));
    assert!(!env_content_hits_lone_quote("broken\nB=\"", "t.env"));
}

#[test]
fn test_env_last_value_wins() {
    let vars = parse_env_content("A=1\nB=2\nA=3", "t.env").unwrap();
    assert_eq!(vars.len(), 2);
    assert_eq!(vars.get("A"), Some(&"3".to_string()));
    assert_eq!(vars.get("B"), Some(&"2".to_string()));
    let mut env = EnvVars::new();
    env.insert("K".to_string(), "old".to_string());
    env.insert("J".to_string(), "j".to_string());
    env.insert("K".to_string(), "new".to_string());
    assert_eq!(env.get("K"), Some(&"new".to_string()));
    assert_eq!(env.get("J"), Some(&"j".to_string()));
    assert_eq!(env.as_slice()[0].0, "K");
}

#[test]
fn test_env_error_names_the_first_bad_line() {
    match parse_env_content("# c\nA=1\n\nnoequals\n=x", "dir/.env") {
        Err(e) => assert!(e.to_string().contains("dir/.env:4: ")),
        Ok(_) => panic!("expected an error"),
    }
    match parse_env_content("A=1\n = 2", "f") {
        Err(e) => assert!(e.to_string().contains("f:2: environment variable key cannot be empty")),
        Ok(_) => panic!("expected an error"),
    }
}
