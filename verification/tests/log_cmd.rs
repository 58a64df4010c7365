use rtk::system::log_cmd::{
    analyze_logs, classify, count_records, group_line, group_records, push_section, rank_groups,
    run_stdin_str, severity, summarize, truncate_message, LogGroup, LogPatterns, LogRecord, Severity,
};

#[test]
fn test_analyze_logs() {
    let logs = r#"
2024-01-01 10:00:00 ERROR: Connection failed to /api/server
2024-01-01 10:00:01 ERROR: Connection failed to /api/server
2024-01-01 10:00:02 ERROR: Connection failed to /api/server
2024-01-01 10:00:03 WARN: Retrying connection
2024-01-01 10:00:04 INFO: Connected
"#;
    let result = analyze_logs(logs);
    assert!(result.contains("×3"));
    assert!(result.contains("ERRORS"));
}

#[test]
fn test_analyze_logs_extended_severity_keywords() {
    let logs = "2024-01-01 10:00:00 CRITICAL: disk full\n\
                    2024-01-01 10:00:01 ALERT: memory pressure\n\
                    2024-01-01 10:00:02 emerg: system shutdown imminent\n\
                    2024-01-01 10:00:03 SEVERE: data corruption detected\n\
                    2024-01-01 10:00:04 notice: config reloaded\n";
    let result = analyze_logs(logs);
    assert!(result.contains("ERRORS"), "critical/alert/emerg/severe should count as errors");
    assert!(result.contains("WARNINGS"), "notice should count as warning");
}

#[test]
fn test_analyze_logs_multibyte() {
    let logs = format!(
        "2024-01-01 10:00:00 ERROR: {} connection failed\n\
             2024-01-01 10:00:01 WARN: {} retry attempt\n",
        "ข้อผิดพลาด".repeat(15),
        "คำเตือน".repeat(15)
    );
    let result = analyze_logs(&logs);
    assert!(result.contains("ERRORS"));
}

#[test]
fn truncate_message_keeps_short_ascii_untouched() {
    let msg = "error: connection refused";
    assert_eq!(truncate_message(msg), msg);
    assert!(!truncate_message(msg).ends_with("..."));
}

#[test]
fn truncate_message_cuts_long_ascii_to_97_plus_ellipsis() {
    let msg = "e".repeat(150);
    let out = truncate_message(&msg);
    assert!(out.ends_with("..."));
    assert_eq!(out.chars().count(), 100);
    assert_eq!(&out[..97], &"e".repeat(97));
}

#[test]
fn truncate_message_does_not_falsely_truncate_short_multibyte() {
    let msg = format!("error {}", "ก".repeat(44)); // 50 chars, 138 bytes
    assert!(msg.len() > 100, "precondition: byte length must exceed 100");
    assert!(msg.chars().count() <= 100, "precondition: char count under cap");

    let out = truncate_message(&msg);
    assert!(
        !out.ends_with("..."),
        "short multi-byte message must not gain a spurious ellipsis: {out:?}"
    );
    assert_eq!(out, msg, "no characters should be dropped");
}

#[test]
fn truncate_message_cuts_long_multibyte_on_char_boundary() {
    let msg = "ก".repeat(120);
    let out = truncate_message(&msg);
    assert!(out.ends_with("..."));
    assert_eq!(out.chars().count(), 100); // 97 + "..."
    assert_eq!(out.chars().take(97).collect::<String>(), "ก".repeat(97));
}

#[test]
fn analyze_logs_no_spurious_ellipsis_on_short_multibyte_error() {
    let logs = format!("2024-01-01 10:00:00 error {}\n", "ก".repeat(44));
    let result = analyze_logs(&logs);
    assert!(result.contains("ERRORS"));
    assert!(
        !result.contains("..."),
        "rendered output must not contain a bogus truncation marker:\n{result}"
    );
}

#[test]
fn a_summary_in_full() {
    let logs = "2024-01-01 10:00:00 ERROR: a /x/y\n\
                2024-01-01 10:00:01 ERROR: b\n\
                2024-01-01 10:00:02 WARN: c\n\
                2024-01-01 10:00:03 ERROR: b\n\
                2024-01-01 10:00:04 INFO: d\n\
                2024-01-01 10:00:05 debug\n";
    assert_eq!(
        analyze_logs(logs),
        "Log Summary\n   [error] 3 errors (2 unique)\n   [warn] 1 warnings (1 unique)\n   [info] 1 info messages\n\n[ERRORS]\n   [×2] 2024-01-01 10:00:01 ERROR: b\n   2024-01-01 10:00:00 ERROR: a /x/y\n\n[WARNINGS]\n   2024-01-01 10:00:02 WARN: c"
    );
    assert_eq!(run_stdin_str(logs), analyze_logs(logs));
}

#[test]
fn an_empty_log() {
    assert_eq!(
        analyze_logs(""),
        "Log Summary\n   [error] 0 errors (0 unique)\n   [warn] 0 warnings (0 unique)\n   [info] 0 info messages\n"
    );
}

#[test]
fn only_so_many_messages_are_shown() {
    let mut logs = String::new();
    for i in 0..12 {
        logs.push_str(&format!("error {}\n", (b'a' + i) as char));
    }
    for i in 0..7 {
        logs.push_str(&format!("notice {}\n", (b'a' + i) as char));
    }
    let result = analyze_logs(&logs);
    assert!(result.contains("\n   error j\n   ... +2 more unique errors\n\n[WARNINGS]\n"));
    assert!(!result.contains("error k"));
    assert!(result.ends_with("\n   notice e\n   ... +2 more unique warnings"));
}

#[test]
fn what_differs_between_repeats_is_replaced() {
    let patterns = LogPatterns::new();
    assert_eq!(
        patterns.normalize_log_line(
            "2024/01/01T10:00:00,123  job 123e4567-e89b-12d3-a456-426614174000 at 0xDEADbeef took 12345 for /a/b-c.txt "
        ),
        "job <UUID> at <HEX> took <NUM> for <PATH>"
    );
    assert_eq!(patterns.normalize_log_line("took 123"), "took 123");
}

#[test]
fn the_worst_word_decides() {
    assert_eq!(classify("a warning about an error"), Severity::Error);
    assert_eq!(classify("info: notice"), Severity::Warning);
    assert_eq!(classify("some info"), Severity::Info);
    assert_eq!(classify("ERROR"), Severity::Other);
    for word in ["error", "fatal", "panic", "critical", "alert", "emerg", "severe"] {
        assert_eq!(severity(&word.to_uppercase()), Severity::Error);
    }
    assert_eq!(severity("WaRn"), Severity::Warning);
    assert_eq!(severity("Info"), Severity::Info);
    assert_eq!(severity("ÜBLER ERROR"), Severity::Error);
    assert_eq!(severity("quiet"), Severity::Other);
}

fn record(line: &str, key: &str, severity: Severity) -> LogRecord {
    LogRecord { line: line.to_string(), key: key.to_string(), severity }
}

#[test]
fn groups_are_counted_and_ranked() {
    let records = vec![
        record("a1", "a", Severity::Error),
        record("b1", "b", Severity::Error),
        record("w", "a", Severity::Warning),
        record("b2", "b", Severity::Error),
        record("c1", "c", Severity::Error),
        record("c2", "c", Severity::Error),
        record("d1", "d", Severity::Error),
    ];
    let groups = group_records(&records, Severity::Error);
    let flat: Vec<(&str, usize, &str)> =
        groups.iter().map(|g| (g.key.as_str(), g.count, g.first.as_str())).collect();
    assert_eq!(flat, [("a", 1, "a1"), ("b", 2, "b1"), ("c", 2, "c1"), ("d", 1, "d1")]);
    let total: usize = groups.iter().map(|g| g.count).sum();
    assert_eq!(total, count_records(&records, Severity::Error));
    let order: Vec<String> = rank_groups(&groups).iter().map(|g| g.key.clone()).collect();
    assert_eq!(order, ["b", "c", "a", "d"]);
    assert_eq!(group_line(&groups[1]), "   [×2] b1");
    assert_eq!(group_line(&groups[0]), "   a1");
    assert!(summarize(&records).starts_with("Log Summary\n   [error] 6 errors (4 unique)\n"));
}

#[test]
fn sections_are_appended() {
    let groups = vec![LogGroup { key: "k".to_string(), count: 3, first: "f".to_string() }];
    let mut out = vec!["before".to_string()];
    push_section(&mut out, &groups, "T", 0, "things");
    assert_eq!(out, ["before", "T", "   ... +1 more unique things"]);
}

#[test]
fn totals_do_not_depend_on_the_order() {
    let lines = ["error a", "warn b", "error c", "error a", "info d", "warn b"];
    let head = |logs: &str| analyze_logs(logs).lines().take(4).collect::<Vec<_>>().join("\n");
    let mut reversed = lines;
    reversed.reverse();
    assert_eq!(head(&lines.join("\n")), head(&reversed.join("\n")));
    assert_eq!(
        head(&lines.join("\n")),
        "Log Summary\n   [error] 3 errors (2 unique)\n   [warn] 2 warnings (1 unique)\n   [info] 1 info messages"
    );
}
