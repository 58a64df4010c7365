use rtk::jvm::stack_dedup::{
    collapse_blocks, dedupe_stack_traces, TraceLine, TracePatterns,
};

const TRACE: &str = "\
java.lang.RuntimeException: Boom
    at com.foo.Bar.run(Bar.java:42)
    at com.foo.Bar.main(Bar.java:10)";

#[test]
fn three_identical_traces_collapse() {
    let input = format!("{}\n\n{}\n\n{}\n\nBUILD FAILED\n", TRACE, TRACE, TRACE);
    let out = dedupe_stack_traces(&input);
    assert!(
        out.contains("java.lang.RuntimeException: Boom"),
        "first trace must survive: {}",
        out
    );
    assert!(
        out.contains("(... repeated 2 more times ...)"),
        "expected repeat marker, got:\n{}",
        out
    );
    let occurrences = out.matches("at com.foo.Bar.run(Bar.java:42)").count();
    assert_eq!(occurrences, 1, "expected 1 frame occurrence, got:\n{}", out);
    assert!(out.contains("BUILD FAILED"));
}

#[test]
fn two_different_traces_both_kept() {
    let a = "\
java.lang.RuntimeException: A
    at com.foo.A.run(A.java:1)";
    let b = "\
java.lang.IllegalStateException: B
    at com.foo.B.run(B.java:2)";
    let input = format!("{}\n\n{}\n", a, b);
    let out = dedupe_stack_traces(&input);
    assert!(out.contains("RuntimeException: A"));
    assert!(out.contains("IllegalStateException: B"));
    assert!(
        !out.contains("repeated"),
        "should not dedupe distinct traces: {}",
        out
    );
}

#[test]
fn single_trace_unchanged() {
    let input = format!("{}\nBUILD FAILED\n", TRACE);
    let out = dedupe_stack_traces(&input);
    assert_eq!(out, input);
}

#[test]
fn plain_text_unchanged() {
    let input =
        "[INFO] Building foo\n[INFO] compiling 42 sources\nBUILD SUCCESSFUL in 3s\n";
    let out = dedupe_stack_traces(input);
    assert_eq!(out, input);
}

#[test]
fn non_adjacent_duplicates_are_kept() {
    let input = format!(
        "{}\n\n[INFO] other progress\n\n{}\n\nBUILD FAILED\n",
        TRACE, TRACE
    );
    let out = dedupe_stack_traces(&input);
    assert_eq!(
        out.matches("at com.foo.Bar.run(Bar.java:42)").count(),
        2,
        "traces separated by non-blank content must both survive:\n{}",
        out
    );
    assert!(!out.contains("repeated"));
}

#[test]
fn caused_by_block_collapses() {
    let trace = "\
java.lang.RuntimeException: Wrap
    at com.foo.Bar.run(Bar.java:42)
Caused by: java.io.IOException: inner
    at com.foo.Bar.read(Bar.java:99)";
    let input = format!("{}\n\n{}\n", trace, trace);
    let out = dedupe_stack_traces(&input);
    assert!(out.contains("Caused by: java.io.IOException: inner"));
    assert!(
        out.contains("(... repeated 1 more times ...)"),
        "expected repeat marker, got:\n{}",
        out
    );
}

fn line(text: &str, header: bool, continuation: bool, frame: bool) -> TraceLine {
    TraceLine { text: text.to_string(), header, continuation, frame }
}

#[test]
fn blocks_are_compared_as_a_whole() {
    let lines = vec![
        line("H", true, false, false),
        line(" f", false, true, true),
        line("", false, false, false),
        line("H", true, false, false),
        line(" f", false, true, true),
        line("H", true, false, false),
        line(" g", false, true, true),
    ];
    assert_eq!(collapse_blocks(&lines), ["H\n f", "(... repeated 1 more times ...)", "H\n g"]);
}

#[test]
fn a_header_alone_is_no_block() {
    let lines = vec![line("H", true, false, false), line("H", true, false, false)];
    assert_eq!(collapse_blocks(&lines), ["H", "H"]);
    let input = "java.lang.RuntimeException: Boom\njava.lang.RuntimeException: Boom\n";
    assert_eq!(dedupe_stack_traces(input), input);
}

#[test]
fn blank_lines_that_separate_nothing_are_kept() {
    let input = format!("{}\n\n\nother\n\n{}", TRACE, TRACE);
    assert_eq!(dedupe_stack_traces(&input), input);
    let spaced = format!("{}\n \n\n{}\n\n", TRACE, TRACE);
    assert_eq!(
        dedupe_stack_traces(&spaced),
        format!("{}\n(... repeated 1 more times ...)\n\n", TRACE)
    );
    assert_eq!(dedupe_stack_traces(""), "");
}

#[test]
fn traces_are_told_by_patterns() {
    let patterns = TracePatterns::new();
    assert!(patterns.is_block_header("  com.foo.MyError"));
    assert!(patterns.is_block_header("Caused by: x"));
    assert!(!patterns.is_block_header("RuntimeException: no package"));
    assert!(patterns.is_block_continuation("\tat a.B.c(B.java:1)"));
    assert!(patterns.is_block_continuation("    ... 12 more"));
    assert!(patterns.is_block_continuation("Caused by: x"));
    assert!(!patterns.is_block_continuation("at a.B.c(B.java:1)"));
    assert!(patterns.is_frame("  at x"));
    assert!(!patterns.is_frame("    ... 12 more"));
}

#[test]
fn the_whole_class_name_may_be_the_suffix() {
    let patterns = TracePatterns::new();
    for line in [
        "java.lang.Exception: boom",
        "java.lang.Error",
        "java.lang.Throwable: t",
        "a.b.MyException",
    ] {
        assert!(patterns.is_block_header(line), "{}", line);
    }
    for line in ["Exception: boom", "java.lang.", "java.lang.Exceptional: x", "java..Error"] {
        assert!(!patterns.is_block_header(line), "{}", line);
    }
    for line in ["(... repeated 2 more times ...)", "  (java.lang.Error)", "(Caused by: x"] {
        assert!(!patterns.is_block_header(line), "{}", line);
        assert!(!patterns.is_block_continuation(line), "{}", line);
        assert!(!patterns.is_frame(line), "{}", line);
    }
    let trace = "java.lang.Exception: boom\n    at a.B.c(B.java:1)\n";
    assert_eq!(
        dedupe_stack_traces(&trace.repeat(3)),
        format!("{}(... repeated 2 more times ...)\n", trace)
    );
}

#[test]
fn collapsing_traces_twice_is_collapsing_them_once() {
    let nested = "a.BError: x\n    at a.B.c(B.java:1)\nCaused by: y\n    at d\n\nCaused by: y\n    at d\n";
    for input in [
        format!("{}\n\n{}\n{}\nend\n\n{}", TRACE, TRACE, TRACE, TRACE),
        nested.to_string(),
        nested.repeat(3),
        "a.BError\na.BError\n\n\n".to_string(),
    ] {
        let once = dedupe_stack_traces(&input);
        assert_eq!(dedupe_stack_traces(&once), once);
    }
}
