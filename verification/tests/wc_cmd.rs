use rtk::system::wc_cmd::{
    detect_mode, filter_wc_output, find_common_prefix, format_multi_line, format_row,
    format_single_line, split_counts_and_name, strip_prefix, WcMode,
};

#[test]
fn test_single_file_full() {
    let raw = "      30      96     978 scripts/find_duplicate_attrs.py\n";
    let result = filter_wc_output(raw, &WcMode::Full);
    assert_eq!(result, "30L 96W 978B");
}

#[test]
fn test_single_file_lines_only() {
    let raw = "      30 scripts/find_duplicate_attrs.py\n";
    let result = filter_wc_output(raw, &WcMode::Lines);
    assert_eq!(result, "30");
}

#[test]
fn test_single_file_words_only() {
    let raw = "      96 scripts/find_duplicate_attrs.py\n";
    let result = filter_wc_output(raw, &WcMode::Words);
    assert_eq!(result, "96");
}

#[test]
fn test_stdin_full() {
    let raw = "      30      96     978\n";
    let result = filter_wc_output(raw, &WcMode::Full);
    assert_eq!(result, "30L 96W 978B");
}

#[test]
fn test_stdin_lines() {
    let raw = "      30\n";
    let result = filter_wc_output(raw, &WcMode::Lines);
    assert_eq!(result, "30");
}

#[test]
fn test_multi_file_lines() {
    let raw = "      30 src/main.rs\n      50 src/lib.rs\n      80 total\n";
    let result = filter_wc_output(raw, &WcMode::Lines);
    assert_eq!(result, "30 main.rs\n50 lib.rs\nΣ 80");
}

#[test]
fn test_multi_file_full() {
    let raw = "      30      96     978 src/main.rs\n      50     120    1500 src/lib.rs\n      80     216    2478 total\n";
    let result = filter_wc_output(raw, &WcMode::Full);
    assert_eq!(
        result,
        "30L 96W 978B main.rs\n50L 120W 1500B lib.rs\nΣ 80L 216W 2478B"
    );
}

#[test]
fn test_detect_mode_full() {
    let args: Vec<String> = vec!["file.py".into()];
    assert_eq!(detect_mode(&args), WcMode::Full);
}

#[test]
fn test_detect_mode_lines() {
    let args: Vec<String> = vec!["-l".into(), "file.py".into()];
    assert_eq!(detect_mode(&args), WcMode::Lines);
}

#[test]
fn test_detect_mode_mixed() {
    let args: Vec<String> = vec!["-lw".into(), "file.py".into()];
    assert_eq!(detect_mode(&args), WcMode::Mixed);
}

#[test]
fn test_detect_mode_separate_flags() {
    let args: Vec<String> = vec!["-l".into(), "-w".into(), "file.py".into()];
    assert_eq!(detect_mode(&args), WcMode::Mixed);
}

#[test]
fn test_common_prefix() {
    let paths = vec!["src/main.rs", "src/lib.rs", "src/utils.rs"];
    assert_eq!(find_common_prefix(&paths), "src/");
}

#[test]
fn test_no_common_prefix() {
    let paths = vec!["main.rs", "lib.rs"];
    assert_eq!(find_common_prefix(&paths), "");
}

#[test]
fn test_deep_common_prefix() {
    let paths = vec!["src/cmd/wc.rs", "src/cmd/ls.rs"];
    assert_eq!(find_common_prefix(&paths), "src/cmd/");
}

#[test]
fn test_empty() {
    let raw = "";
    let result = filter_wc_output(raw, &WcMode::Full);
    assert_eq!(result, "");
}

#[test]
fn test_single_file_full_name_with_spaces() {
    let raw = "      30      96     978 my file.txt\n";
    let result = filter_wc_output(raw, &WcMode::Full);
    assert_eq!(result, "30L 96W 978B");
}

#[test]
fn test_multi_file_lines_name_with_spaces() {
    let raw = "      30 my file.txt\n      50 other one.txt\n      80 total\n";
    let result = filter_wc_output(raw, &WcMode::Lines);
    assert_eq!(result, "30 my file.txt\n50 other one.txt\nΣ 80");
}

#[test]
fn test_multi_file_full_name_with_spaces() {
    let raw = "      30      96     978 my file.txt\n      50     120    1500 other one.txt\n      80     216    2478 total\n";
    let result = filter_wc_output(raw, &WcMode::Full);
    assert_eq!(
        result,
        "30L 96W 978B my file.txt\n50L 120W 1500B other one.txt\nΣ 80L 216W 2478B"
    );
}

#[test]
fn test_multi_file_full_name_with_spaces_common_prefix() {
    let raw = "      30      96     978 src/my file.txt\n      50     120    1500 src/other one.txt\n      80     216    2478 total\n";
    let result = filter_wc_output(raw, &WcMode::Full);
    assert_eq!(
        result,
        "30L 96W 978B my file.txt\n50L 120W 1500B other one.txt\nΣ 80L 216W 2478B"
    );
}

#[test]
fn test_multi_file_lines_common_prefix_with_spaces() {
    let raw = "      30 src/my file.txt\n      50 src/other one.txt\n      80 total\n";
    let result = filter_wc_output(raw, &WcMode::Lines);
    assert_eq!(result, "30 my file.txt\n50 other one.txt\nΣ 80");
}

#[test]
fn test_mixed_single_name_with_spaces() {
    let raw = "      30      96 my file.txt\n";
    let result = filter_wc_output(raw, &WcMode::Mixed);
    assert_eq!(result, "30 96");
}

#[test]
fn test_split_counts_single_column() {
    let (counts, name) = split_counts_and_name("      30 my file.txt", 1);
    assert_eq!(counts, vec!["30"]);
    assert_eq!(name, Some("my file.txt"));
}

#[test]
fn test_split_counts_full_columns() {
    let (counts, name) = split_counts_and_name("  30  96  978 my file.txt", 3);
    assert_eq!(counts, vec!["30", "96", "978"]);
    assert_eq!(name, Some("my file.txt"));
}

#[test]
fn test_split_counts_stdin_no_name() {
    let (counts, name) = split_counts_and_name("      30      96     978", 3);
    assert_eq!(counts, vec!["30", "96", "978"]);
    assert_eq!(name, None);
}

#[test]
fn test_split_counts_stops_at_count_cap() {
    let (counts, name) = split_counts_and_name("30 123 456", 1);
    assert_eq!(counts, vec!["30"]);
    assert_eq!(name, Some("123 456"));
}

#[test]
fn test_split_counts_total_line() {
    let (counts, name) = split_counts_and_name("      80 total", 1);
    assert_eq!(counts, vec!["80"]);
    assert_eq!(name, Some("total"));
}

#[test]
fn test_split_counts_trailing_space_in_name() {
    let (counts, name) = split_counts_and_name("  5  10 dir/a b.txt", 2);
    assert_eq!(counts, vec!["5", "10"]);
    assert_eq!(name, Some("dir/a b.txt"));
}

#[test]
fn test_mixed_multi_name_with_spaces() {
    let raw = "      30      96 my file.txt\n      50     120 other one.txt\n      80     216 total\n";
    let result = filter_wc_output(raw, &WcMode::Mixed);
    assert_eq!(
        result,
        "30 96 my file.txt\n50 120 other one.txt\nΣ 80 216"
    );
}

fn mode(args: &[&str]) -> WcMode {
    let owned: Vec<String> = args.iter().map(|a| a.to_string()).collect();
    detect_mode(&owned)
}

#[test]
fn flags_choose_the_columns() {
    assert_eq!(mode(&[]), WcMode::Full);
    assert_eq!(mode(&["-"]), WcMode::Full);
    assert_eq!(mode(&["-L", "x"]), WcMode::Full);
    assert_eq!(mode(&["-w"]), WcMode::Words);
    assert_eq!(mode(&["a", "-c"]), WcMode::Bytes);
    assert_eq!(mode(&["-m"]), WcMode::Chars);
    assert_eq!(mode(&["-ll"]), WcMode::Mixed);
    assert_eq!(mode(&["lwc"]), WcMode::Full);
    assert_eq!(mode(&["-lwcmlwcm"]), WcMode::Mixed);
}

#[test]
fn bytes_and_chars_are_single_columns() {
    assert_eq!(filter_wc_output(" 7 a\n 8 b\n 15 total\n", &WcMode::Bytes), "7 a\n8 b\nΣ 15");
    assert_eq!(filter_wc_output("9\n", &WcMode::Chars), "9");
    assert_eq!(filter_wc_output("  \n\n", &WcMode::Lines), "");
}

#[test]
fn lines_without_counts_are_shown_as_they_are() {
    assert_eq!(filter_wc_output("wc: x: No such file\n", &WcMode::Mixed), "wc: x: No such file");
    assert_eq!(filter_wc_output("1 2\n", &WcMode::Full), "1 2");
    assert_eq!(
        filter_wc_output("wc: x: No such file\n 1 2 3 y\n", &WcMode::Full),
        "wc: x: No such file\n1L 2W 3B y"
    );
    assert_eq!(filter_wc_output("oops\n 5 y\n", &WcMode::Lines), "0 oops\n5 y");
    assert_eq!(filter_wc_output("oops here\n 5 6 y\n", &WcMode::Mixed), "oops here\n5 6 y");
    assert_eq!(filter_wc_output(" 1 2 3\n 4 5 6 total\n", &WcMode::Full), "1L 2W 3B\nΣ 4L 5W 6B");
}

#[test]
fn a_row_of_the_table() {
    let row = |counts: &[&str], name: Option<&str>, mode: WcMode| {
        format_row(counts, name, "text", &mode, "src/")
    };
    assert_eq!(row(&["1"], Some("src/a"), WcMode::Lines), "1 a");
    assert_eq!(row(&["1"], None, WcMode::Words), "1");
    assert_eq!(row(&[], Some("total"), WcMode::Lines), "Σ 0");
    assert_eq!(row(&["1", "2"], Some("total"), WcMode::Full), "Σ 1L 2W 0B");
    assert_eq!(row(&["1", "2"], Some("a"), WcMode::Full), "text");
    assert_eq!(row(&["1", "2", "3"], None, WcMode::Full), "1L 2W 3B");
    assert_eq!(row(&[], Some("a"), WcMode::Mixed), "text");
    assert_eq!(row(&["1", "2"], None, WcMode::Mixed), "1 2");
    assert_eq!(row(&["1", "2"], Some("total"), WcMode::Mixed), "Σ 1 2");
}

#[test]
fn single_lines_and_tables() {
    assert_eq!(format_single_line("", &WcMode::Lines), "");
    assert_eq!(format_single_line(" 1 2 3 4 n", &WcMode::Mixed), "1 2 3 4");
    let lines: Vec<String> = ["", " 3 d/x", " 4 d/y"].iter().map(|l| l.to_string()).collect();
    assert_eq!(format_multi_line(&lines, &WcMode::Lines), "3 x\n4 y");
}

#[test]
fn the_longest_shared_directory() {
    assert_eq!(find_common_prefix(&["/a", "/b"]), "/");
    assert_eq!(find_common_prefix(&["a/b/c", "a/bb/c"]), "a/");
    assert_eq!(find_common_prefix(&["a/b", "a/b/c"]), "a/");
    assert_eq!(find_common_prefix(&["a/b", "x"]), "");
    assert_eq!(find_common_prefix(&["a/b/c"]), "");
    assert_eq!(find_common_prefix(&[]), "");
    assert_eq!(find_common_prefix(&["é/ü/a", "é/ü/b"]), "é/ü/");
}

#[test]
fn a_short_path_can_be_read_back() {
    assert_eq!(strip_prefix("src/a b", "src/"), "a b");
    assert_eq!(strip_prefix("src/a", ""), "src/a");
    assert_eq!(strip_prefix("lib/a", "src/"), "lib/a");
    assert_eq!(format!("{}{}", "src/", strip_prefix("src/a", "src/")), "src/a");
}

#[test]
fn counts_are_numbers_of_64_bits() {
    let (counts, name) = split_counts_and_name("18446744073709551615 +1 18446744073709551616 x", 4);
    assert_eq!(counts, ["18446744073709551615", "+1"]);
    assert_eq!(name, Some("18446744073709551616 x"));
    let (counts, name) = split_counts_and_name("  ", 4);
    assert!(counts.is_empty());
    assert_eq!(name, None);
    let (counts, name) = split_counts_and_name("1 2", 0);
    assert!(counts.is_empty());
    assert_eq!(name, Some("1 2"));
}
