use rtk::filter::Language;
use rtk::system::read::{
    apply_line_window, falls_back, format_with_line_numbers, pad_left, show, visible,
};

#[test]
fn test_stdin_support_signature() {
    let _: fn(&str, Option<usize>, Option<usize>, bool, &Language) -> String = show;
}

#[test]
fn test_apply_line_window_tail_lines() {
    let input = "a\nb\nc\nd\n";
    let (output, offset) = apply_line_window(input, None, Some(2), &Language::Unknown);
    assert_eq!(output, "c\nd\n");
    assert_eq!(offset, 3);
}

#[test]
fn test_apply_line_window_tail_lines_no_trailing_newline() {
    let input = "a\nb\nc\nd";
    let (output, offset) = apply_line_window(input, None, Some(2), &Language::Unknown);
    assert_eq!(output, "c\nd");
    assert_eq!(offset, 3);
}

#[test]
fn test_apply_line_window_max_lines_still_works() {
    let input = "a\nb\nc\nd\n";
    let (output, offset) = apply_line_window(input, Some(2), None, &Language::Unknown);
    assert!(output.starts_with("a\n"));
    assert!(output.contains("more lines"));
    assert_eq!(offset, 1);
}

#[test]
fn test_apply_line_window_no_window_offset_is_one() {
    let input = "a\nb\nc\n";
    let (output, offset) = apply_line_window(input, None, None, &Language::Unknown);
    assert_eq!(output, "a\nb\nc\n");
    assert_eq!(offset, 1);
}

#[test]
fn test_apply_line_window_tail_zero_is_empty() {
    let input = "a\nb\nc\n";
    let (output, offset) = apply_line_window(input, None, Some(0), &Language::Unknown);
    assert_eq!(output, "");
    assert_eq!(offset, 1);
}

#[test]
fn test_apply_line_window_tail_larger_than_content() {
    let input = "a\nb\n";
    let (output, offset) = apply_line_window(input, None, Some(10), &Language::Unknown);
    assert_eq!(output, "a\nb\n");
    assert_eq!(offset, 1);
}

#[test]
fn test_format_line_numbers_default_offset() {
    let out = format_with_line_numbers("alpha\nbravo\n", 1);
    assert_eq!(out, "1 │ alpha\n2 │ bravo\n");
}

#[test]
fn test_format_line_numbers_with_tail_offset() {
    let input = "l1\nl2\nl3\nl4\nl5\n";
    let (windowed, offset) = apply_line_window(input, None, Some(2), &Language::Unknown);
    assert_eq!(offset, 4);
    let out = format_with_line_numbers(&windowed, offset);
    assert_eq!(out, "4 │ l4\n5 │ l5\n");
    assert!(
        !out.starts_with("1 │ l4"),
        "tail window must not renumber from 1"
    );
}

#[test]
fn test_format_line_numbers_width_accounts_for_offset() {
    let mut input = String::new();
    for i in 1..=10 {
        input.push_str(&format!("line{}\n", i));
    }
    let (windowed, offset) = apply_line_window(&input, None, Some(2), &Language::Unknown);
    assert_eq!(offset, 9);
    let out = format_with_line_numbers(&windowed, offset);
    assert_eq!(out, " 9 │ line9\n10 │ line10\n");
}

#[test]
fn test_format_line_numbers_empty_content() {
    assert_eq!(format_with_line_numbers("", 1), "");
}

#[test]
fn the_end_goes_before_a_number_of_lines() {
    let input = "a\nb\nc\nd\n";
    assert_eq!(
        apply_line_window(input, Some(1), Some(1), &Language::Rust),
        ("d\n".to_string(), 4)
    );
    assert_eq!(apply_line_window(input, Some(4), None, &Language::Rust), (input.to_string(), 1));
}

#[test]
fn tail_lines_keep_their_numbers() {
    let input = "one\ntwo\n\nfour\n";
    assert_eq!(show(input, None, Some(3), true, &Language::Unknown), "2 │ two\n3 │ \n4 │ four\n");
    assert_eq!(show(input, None, Some(3), false, &Language::Unknown), "two\n\nfour\n");
    assert_eq!(show("", None, Some(3), true, &Language::Unknown), "");
    assert_eq!(show(input, None, Some(0), true, &Language::Unknown), "");
}

#[test]
fn line_endings_become_newlines_in_a_tail() {
    let (text, start) = apply_line_window("a\r\nb\r\n", None, Some(2), &Language::Unknown);
    assert_eq!(text, "a\nb\n");
    assert_eq!(start, 1);
}

#[test]
fn numbers_are_equally_wide() {
    let content = "x\n".repeat(3);
    assert_eq!(
        format_with_line_numbers(&content, 98),
        " 98 │ x\n 99 │ x\n100 │ x\n"
    );
    assert_eq!(format_with_line_numbers("x", 0), "0 │ x\n");
    assert_eq!(pad_left("ab", 4), "  ab");
    assert_eq!(pad_left("ab", 1), "ab");
}

#[test]
fn an_emptied_file_is_shown_as_it_is() {
    assert!(falls_back("text", " \n"));
    assert!(!falls_back(" ", ""));
    assert!(!falls_back("text", "t"));
    assert_eq!(visible("text", " \n"), "text");
    assert_eq!(visible(" ", ""), "");
    assert_eq!(visible("text", "t"), "t");
}
