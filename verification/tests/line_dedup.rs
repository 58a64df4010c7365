use rtk::jvm::line_dedup::{collapse_runs, dedupe_repeated_lines};

#[test]
fn three_adjacent_identical_lines_collapse() {
    let input = "WARNING: Unsupported Kotlin plugin version\n\
                     WARNING: Unsupported Kotlin plugin version\n\
                     WARNING: Unsupported Kotlin plugin version\n";
    let out = dedupe_repeated_lines(input);
    assert!(
        out.contains("WARNING: Unsupported Kotlin plugin version"),
        "first line must survive: {}",
        out
    );
    assert!(
        out.contains("(... repeated 2 more times ...)"),
        "expected repeat marker, got:\n{}",
        out
    );
    assert_eq!(
        out.matches("WARNING: Unsupported Kotlin plugin version").count(),
        1
    );
}

#[test]
fn two_identical_lines_pass_through_unchanged() {
    let input = "foo\nfoo\nbar\n";
    let out = dedupe_repeated_lines(input);
    assert_eq!(out, input);
}

#[test]
fn five_then_different_then_five_two_collapses() {
    let input = "> Configure project :app\n\
                     > Configure project :app\n\
                     > Configure project :app\n\
                     > Configure project :app\n\
                     > Configure project :app\n\
                     BUILD SUCCESSFUL\n\
                     > Configure project :app\n\
                     > Configure project :app\n\
                     > Configure project :app\n\
                     > Configure project :app\n\
                     > Configure project :app\n";
    let out = dedupe_repeated_lines(input);
    assert_eq!(
        out.matches("(... repeated 4 more times ...)").count(),
        2,
        "expected 2 collapse markers, got:\n{}",
        out
    );
    assert!(out.contains("BUILD SUCCESSFUL"));
}

#[test]
fn plain_text_passes_through_unchanged() {
    let input = "[INFO] Building app 1.0\n\
                     [INFO] Compiling sources\n\
                     BUILD SUCCESS\n";
    let out = dedupe_repeated_lines(input);
    assert_eq!(out, input);
}

#[test]
fn leading_whitespace_variants_collapse_together() {
    let input = "  foo\n  foo\n  foo\n";
    let out = dedupe_repeated_lines(input);
    assert!(
        out.contains("(... repeated 2 more times ...)"),
        "whitespace-trimmed duplicates should collapse: {}",
        out
    );
}

#[test]
fn trailing_newline_preserved() {
    let input = "a\nb\nc\n";
    let out = dedupe_repeated_lines(input);
    assert!(out.ends_with('\n'));
}

#[test]
fn no_trailing_newline_preserved() {
    let input = "a\nb\nc";
    let out = dedupe_repeated_lines(input);
    assert!(!out.ends_with('\n'));
}

#[test]
fn runs_are_collapsed_one_by_one() {
    assert_eq!(
        dedupe_repeated_lines("a\n  a\na\nb\nb\nc\nc\nc\nc"),
        "a\n(... repeated 2 more times ...)\nb\nb\nc\n(... repeated 3 more times ...)"
    );
    assert_eq!(dedupe_repeated_lines(""), "");
    assert_eq!(dedupe_repeated_lines("\n\n\n"), "\n(... repeated 2 more times ...)\n");
}

#[test]
fn the_first_line_of_a_run_is_left() {
    let lines: Vec<String> = ["\tx", "x", "  x", "y"].iter().map(|l| l.to_string()).collect();
    assert_eq!(collapse_runs(&lines), ["\tx", "(... repeated 2 more times ...)", "y"]);
    assert!(collapse_runs(&lines).len() <= lines.len());
}

#[test]
fn collapsing_lines_twice_is_collapsing_them_once() {
    for input in ["a\na\n a\nb\nb\n", "x\nx\nx\nx", "\n\n\n\ny"] {
        let once = dedupe_repeated_lines(input);
        assert_eq!(dedupe_repeated_lines(&once), once);
    }
}
