use rtk::constants::{
    CONFIG_TOML, DEFAULT_HISTORY_DAYS, FILTERS_TOML, HISTORY_DB, RTK_DATA_DIR,
    TRUSTED_FILTERS_JSON,
};
use rtk::decimal::{decimal_text, reads_as_count};
use rtk::jvm::report::{drops_line, keep_lines, render_lines, report, trim_ends};
use rtk::lines::{join, lines, rejoin, split_body, split_lines};
use rtk::pattern::{Pattern, PatternSet};
use rtk::text::{
    cut, has_prefix, has_substring, is_blank, is_whitespace, trim, trim_end, trim_start, words,
};
use rtk::utils::{strip_ansi, truncate};

fn owned(parts: &[&str]) -> Vec<String> {
    parts.iter().map(|p| p.to_string()).collect()
}

#[test]
fn whitespace_is_that_of_unicode() {
    for n in 0..=0x10ffffu32 {
        if let Some(c) = char::from_u32(n) {
            assert_eq!(is_whitespace(c), c.is_whitespace(), "{:x}", n);
        }
    }
}

#[test]
fn trimming() {
    for s in ["", " ", "a", " \u{3000}a b\t\n", "\u{200b}", "\u{85}x"] {
        assert_eq!(trim(s), s.trim());
        assert_eq!(trim_start(s), s.trim_start());
        assert_eq!(trim_end(s), s.trim_end());
        assert_eq!(is_blank(s), s.trim().is_empty());
        assert_eq!(words(s), s.split_whitespace().collect::<Vec<&str>>());
    }
}

#[test]
fn searching() {
    assert!(has_substring("abcabd", "abd"));
    assert!(has_substring("x", ""));
    assert!(!has_substring("ab", "abc"));
    assert!(has_prefix("größe", "grö"));
    assert!(!has_prefix("gr", "grö"));
    assert_eq!(cut("größe", 3), ("grö", "ße"));
}

#[test]
fn lines_lose_their_endings() {
    for s in ["", "\n", "a", "a\n", "a\r\nb\rc\r", "a\r\r\n\n", "\r\n"] {
        assert_eq!(lines(s), s.lines().collect::<Vec<&str>>());
        assert_eq!(split_lines(s), s.split('\n').collect::<Vec<&str>>());
    }
}

#[test]
fn taking_apart_and_putting_together() {
    for s in ["a", "a\n", "\n", "a\n\nb", "\n\n"] {
        let (body, newline) = split_body(s);
        assert_eq!(rejoin(&body, newline), s);
        assert_eq!(join(&split_lines(s), "\n"), s);
    }
    assert_eq!(join(&owned(&["a", "b", "c"]), ", "), "a, b, c");
    assert_eq!(split_lines(&join(&owned(&["a", "", "b"]), "\n")), ["a", "", "b"]);
}

#[test]
fn numbers() {
    for n in [0usize, 7, 10, 99, 100, 12345, usize::MAX] {
        assert_eq!(decimal_text(n), n.to_string());
        assert!(reads_as_count(&decimal_text(n)));
    }
    for s in ["", "+", "-1", "++1", "1a", " 1", "18446744073709551616", "٣"] {
        assert!(!reads_as_count(s));
        assert!(s.parse::<u64>().is_err());
    }
    for s in ["0", "+0", "007", "18446744073709551615", "000000000000000000000000001"] {
        assert!(reads_as_count(s));
        assert!(s.parse::<u64>().is_ok());
    }
}

#[test]
fn patterns() {
    let digits = Pattern::new(r"\d+");
    assert!(digits.is_match("a1"));
    assert!(!digits.is_match("a"));
    assert_eq!(digits.replace_all("a1b22", "#"), "a#b#");
    assert_eq!(digits.replace_all("ab", "#"), "ab");
    let broken = Pattern::new("(");
    assert!(!broken.is_match("("));
    assert_eq!(broken.replace_all("((", "#"), "((");
    let set = PatternSet::new(&["^a", "(", "z$"]);
    assert!(set.any_match("ab"));
    assert!(set.any_match("yz"));
    assert!(!set.any_match("("));
    assert!(!PatternSet::new(&[]).any_match("x"));
}

#[test]
fn cutting_to_a_length() {
    assert_eq!(truncate("abc", 3), "abc");
    assert_eq!(truncate("abcd", 3), "...");
    assert_eq!(truncate("abcdef", 5), "ab...");
    assert_eq!(truncate("abcd", 1), "...");
    assert_eq!(truncate("ééééé", 4), "é...");
}

#[test]
fn escapes_are_removed() {
    assert_eq!(strip_ansi("\u{1b}[1;31mred\u{1b}[0m \u{1b}[2Kx"), "red x");
    assert_eq!(strip_ansi("plain [31m"), "plain [31m");
}

#[test]
fn reports() {
    let kept = keep_lines(&owned(&["a ", " ", "b", "c"]), &[false, false, true, false]);
    assert_eq!(kept, ["a ", "c"]);
    assert_eq!(trim_ends(&kept), ["a", "c"]);
    assert_eq!(render_lines(&owned(&["abcdef", "x"]), 5, "none"), "ab...\nx");
    assert_eq!(render_lines(&[], 5, "none"), "none");
    assert_eq!(
        report(&owned(&["a ", " ", "b", "abcdefg\t"]), &[false, false, true, false], 6, "none"),
        "a\nabc..."
    );
    assert_eq!(report(&owned(&["a"]), &[true], 6, "none"), "none");
    assert!(drops_line(false, true));
    assert!(!drops_line(true, true) && !drops_line(false, false) && !drops_line(true, false));
}

#[test]
fn names_and_defaults() {
    assert_eq!(RTK_DATA_DIR, "rtk");
    assert_eq!(HISTORY_DB, "history.db");
    assert_eq!(CONFIG_TOML, "config.toml");
    assert_eq!(FILTERS_TOML, "filters.toml");
    assert_eq!(TRUSTED_FILTERS_JSON, "trusted_filters.json");
    assert_eq!(DEFAULT_HISTORY_DAYS, 90);
}
