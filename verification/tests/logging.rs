use januslens::error::JanusError;
use januslens::logging::{
    export_logs, get_log_dir, get_recent_logs, log_event, log_event_from_frontend, log_file_name,
    log_line, passes, query_logs, LogBuffer, LogEntry, LogFilter, LogLevel, MAX_MEMORY_LOGS,
};

fn entry(level: LogLevel, component: &str, message: &str, context: Option<&str>) -> LogEntry {
    LogEntry {
        timestamp: "2023-01-01T12:00:00Z".to_string(),
        level,
        component: component.to_string(),
        message: message.to_string(),
        details: None,
        context_id: context.map(|c| c.to_string()),
    }
}

fn buffer() -> LogBuffer {
    let mut b = LogBuffer::new();
    b.push(entry(LogLevel::Info, "git", "opened", Some("ctx-1")));
    b.push(entry(LogLevel::Error, "git", "failed", Some("ctx-2")));
    b.push(entry(LogLevel::Info, "ui", "clicked", None));
    b.push(entry(LogLevel::Debug, "git", "walked", Some("ctx-1")));
    b.push(entry(LogLevel::Info, "git", "closed", Some("ctx-1")));
    b
}

fn messages(entries: &[LogEntry]) -> Vec<&str> {
    entries.iter().map(|e| e.message.as_str()).collect()
}

#[test]
fn the_line_shows_every_part_of_an_entry() {
    let full = LogEntry {
        timestamp: "2023-01-01T12:00:00Z".to_string(),
        level: LogLevel::Info,
        component: "TestComponent".to_string(),
        message: "Test message".to_string(),
        details: Some("{\"key\":\"value\"}".to_string()),
        context_id: Some("test-context".to_string()),
    };
    assert_eq!(
        log_line(&full),
        "[2023-01-01T12:00:00Z] [INFO] [TestComponent] [Context:test-context] Test message | {\"key\":\"value\"}"
    );
    let bare = entry(LogLevel::Verify, "core", "checked", None);
    assert_eq!(log_line(&bare), "[2023-01-01T12:00:00Z] [VERIFY] [core] checked");
}

#[test]
fn level_names_are_in_capitals() {
    assert_eq!(LogLevel::Error.name(), "ERROR");
    assert_eq!(LogLevel::Warn.name(), "WARN");
    assert_eq!(LogLevel::Info.name(), "INFO");
    assert_eq!(LogLevel::Debug.name(), "DEBUG");
    assert_eq!(LogLevel::Trace.name(), "TRACE");
    assert_eq!(LogLevel::Verify.name(), "VERIFY");
}

#[test]
fn log_event_records_and_returns_the_line() {
    let mut b = LogBuffer::new();
    let e = entry(LogLevel::Warn, "git", "slow", None);
    assert_eq!(log_event(&mut b, e.clone()), Ok("[2023-01-01T12:00:00Z] [WARN] [git] slow".to_string()));
    assert_eq!(b.entries, vec![e.clone()]);
    let f = entry(LogLevel::Trace, "ui", "render", Some("c"));
    assert_eq!(
        log_event_from_frontend(&mut b, f.clone()),
        Ok("[2023-01-01T12:00:00Z] [TRACE] [ui] [Context:c] render".to_string())
    );
    assert_eq!(b.entries, vec![e, f]);
}

#[test]
fn the_buffer_keeps_the_last_thousand_entries() {
    let mut b = LogBuffer::new();
    for i in 0..(MAX_MEMORY_LOGS + 5) {
        b.push(entry(LogLevel::Info, "git", &format!("m{}", i), None));
    }
    assert_eq!(b.entries.len(), 1000);
    assert_eq!(b.entries[0].message, "m5");
    assert_eq!(b.entries[999].message, "m1004");
}

#[test]
fn an_overfull_buffer_is_cut_down_on_the_next_entry() {
    let entries = (0..1500).map(|i| entry(LogLevel::Info, "git", &format!("m{}", i), None)).collect();
    let mut b = LogBuffer { entries };
    b.push(entry(LogLevel::Info, "git", "last", None));
    assert_eq!(b.entries.len(), 1000);
    assert_eq!(b.entries[0].message, "m501");
    assert_eq!(b.entries[999].message, "last");
}

#[test]
fn queries_filter_by_level_component_and_context() {
    let b = buffer();
    let all = get_recent_logs(&b, None, None, None, None).unwrap();
    assert_eq!(messages(&all), vec!["opened", "failed", "clicked", "walked", "closed"]);
    let info = get_recent_logs(&b, Some("info".to_string()), None, None, None).unwrap();
    assert_eq!(messages(&info), vec!["opened", "clicked", "closed"]);
    let info = get_recent_logs(&b, Some("INFO".to_string()), None, None, None).unwrap();
    assert_eq!(messages(&info), vec!["opened", "clicked", "closed"]);
    let git = get_recent_logs(&b, None, Some("git".to_string()), None, None).unwrap();
    assert_eq!(messages(&git), vec!["opened", "failed", "walked", "closed"]);
    let ctx = get_recent_logs(&b, None, None, Some("ctx-1".to_string()), None).unwrap();
    assert_eq!(messages(&ctx), vec!["opened", "walked", "closed"]);
    let both =
        get_recent_logs(&b, Some("Info".to_string()), Some("git".to_string()), Some("ctx-1".to_string()), None)
            .unwrap();
    assert_eq!(messages(&both), vec!["opened", "closed"]);
    let none = get_recent_logs(&b, Some("warning".to_string()), None, None, None).unwrap();
    assert!(none.is_empty());
    let none = get_recent_logs(&b, None, Some("GIT".to_string()), None, None).unwrap();
    assert!(none.is_empty());
}

#[test]
fn a_limit_keeps_the_last_entries() {
    let b = buffer();
    let last = get_recent_logs(&b, None, None, None, Some(2)).unwrap();
    assert_eq!(messages(&last), vec!["walked", "closed"]);
    let last = get_recent_logs(&b, Some("info".to_string()), None, None, Some(2)).unwrap();
    assert_eq!(messages(&last), vec!["clicked", "closed"]);
    let last = get_recent_logs(&b, None, None, None, Some(0)).unwrap();
    assert!(last.is_empty());
    let last = get_recent_logs(&b, None, None, None, Some(50)).unwrap();
    assert_eq!(last.len(), 5);
}

#[test]
fn a_filter_names_the_level_in_capitals() {
    let e = entry(LogLevel::Info, "git", "m", None);
    let capital = LogFilter { level: Some("INFO".to_string()), component: None, context_id: None };
    let small = LogFilter { level: Some("info".to_string()), component: None, context_id: None };
    assert!(passes(&e, &capital));
    assert!(!passes(&e, &small));
    assert_eq!(query_logs(&buffer(), &small, None), vec![]);
    let context = LogFilter { level: None, component: None, context_id: Some("c".to_string()) };
    assert!(!passes(&e, &context));
}

#[test]
fn log_files_are_named_by_day() {
    assert_eq!(log_file_name("2024-02-29"), "januslens_2024-02-29.log");
    assert_eq!(
        get_log_dir(Some("/home/u/.local/share".to_string())),
        Ok("/home/u/.local/share/januslens/logs".to_string())
    );
    assert_eq!(
        get_log_dir(None),
        Err(JanusError::ConfigError("Could not determine data directory".to_string()))
    );
}

#[test]
fn exports_go_to_the_documents_directory() {
    assert_eq!(
        export_logs(Some("/home/u/Documents".to_string()), "logs.json".to_string()),
        Ok("/home/u/Documents/JanusLens/logs.json".to_string())
    );
    assert_eq!(
        export_logs(None, "logs.json".to_string()),
        Err(JanusError::ConfigError("Could not determine documents directory".to_string()))
    );
}
