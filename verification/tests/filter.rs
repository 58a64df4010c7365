use rtk::filter::{shorten, smart_truncate, Language, SourcePatterns};

fn owned(lines: &[&str]) -> Vec<String> {
    lines.iter().map(|l| l.to_string()).collect()
}

#[test]
fn short_content_is_unchanged() {
    assert_eq!(smart_truncate("a\nb\n", 2, &Language::Unknown), "a\nb\n");
    assert_eq!(smart_truncate("", 0, &Language::Unknown), "");
}

#[test]
fn the_first_and_the_important_lines_are_kept() {
    let content = "x1\nx2\nx3\nx4\npub fn f() {\nx6\nx7\n";
    assert_eq!(
        smart_truncate(content, 4, &Language::Rust),
        "x1\nx2\n    // ... 5 lines omitted\npub fn f() {\n// ... 4 more lines (total: 7)"
    );
}

#[test]
fn fewer_lines_than_asked_for_are_kept() {
    let lines = owned(&["a", "b", "c", "d", "e"]);
    assert_eq!(
        shorten(&lines, &[true; 5], 3),
        ["a", "b", "// ... 3 more lines (total: 5)"]
    );
    assert_eq!(shorten(&lines, &[false; 5], 0), ["// ... 5 more lines (total: 5)"]);
    assert_eq!(
        shorten(&lines, &[true, false, false, false, false], 0),
        ["a", "// ... 4 more lines (total: 5)"]
    );
    assert_eq!(shorten(&owned(&["a"]), &[true], 0), ["a"]);
}

#[test]
fn important_lines() {
    let patterns = SourcePatterns::new();
    for line in ["  fn main() {", "class A:", "import os", "#include <x>", "pub const X", "export x", " } "] {
        assert!(patterns.is_important(line), "{}", line);
    }
    for line in ["let x = 1;", "};", "// fn", ""] {
        assert!(!patterns.is_important(line), "{}", line);
    }
}

#[test]
fn languages_go_by_the_extension() {
    let all = [
        ("rs", Language::Rust),
        ("pyw", Language::Python),
        ("cjs", Language::JavaScript),
        ("tsx", Language::TypeScript),
        ("go", Language::Go),
        ("h", Language::C),
        ("hpp", Language::Cpp),
        ("java", Language::Java),
        ("rb", Language::Ruby),
        ("zsh", Language::Shell),
        ("txt", Language::Unknown),
    ];
    for (ext, language) in all {
        assert_eq!(Language::from_extension(ext), language);
    }
}
