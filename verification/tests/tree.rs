use rtk::system::constants::NOISE_DIRS;
use rtk::system::tree::{
    filter_tree_output, finish_tree, ignore_flags, is_tree_summary, reduction_percent,
    trim_blank_lines,
};

#[test]
fn test_filter_removes_summary() {
    let input = ".\n├── src\n│   └── main.rs\n└── Cargo.toml\n\n2 directories, 3 files\n";
    let output = filter_tree_output(input);
    assert!(!output.contains("directories"));
    assert!(!output.contains("files"));
    assert!(output.contains("main.rs"));
    assert!(output.contains("Cargo.toml"));
}

#[test]
fn test_filter_preserves_structure() {
    let input = ".\n├── src\n│   ├── main.rs\n│   └── lib.rs\n└── tests\n    └── test.rs\n";
    let output = filter_tree_output(input);
    assert!(output.contains("├──"));
    assert!(output.contains("│"));
    assert!(output.contains("└──"));
    assert!(output.contains("main.rs"));
    assert!(output.contains("test.rs"));
}

#[test]
fn test_filter_handles_empty() {
    let input = "";
    let output = filter_tree_output(input);
    assert_eq!(output, "\n");
}

#[test]
fn test_filter_removes_trailing_empty_lines() {
    let input = ".\n├── file.txt\n\n\n";
    let output = filter_tree_output(input);
    assert_eq!(output.matches('\n').count(), 2); // Root + file.txt + final newline
}

#[test]
fn test_filter_summary_variations() {
    let inputs = vec![
        (".\n└── file.txt\n\n0 directories, 1 file\n", "1 file"),
        (".\n└── file.txt\n\n1 directory, 0 files\n", "1 directory"),
        (".\n└── file.txt\n\n10 directories, 25 files\n", "25 files"),
    ];

    for (input, summary_fragment) in inputs {
        let output = filter_tree_output(input);
        assert!(
            !output.contains(summary_fragment),
            "Should remove summary '{}' from output",
            summary_fragment
        );
        assert!(
            output.contains("file.txt"),
            "Should preserve file.txt in output"
        );
    }
}

#[test]
fn test_filename_with_director_and_file_not_dropped() {
    let input = ".\n\
                     ├── director-files.txt\n\
                     ├── file_directory.json\n\
                     ├── normal.rs\n\
                     └── sub\n    \
                     └── files-and-directories.md\n\n\
                     2 directories, 4 files\n";
    let output = filter_tree_output(input);
    assert!(
        output.contains("director-files.txt"),
        "file 'director-files.txt' must survive filtering, got:\n{output}"
    );
    assert!(
        output.contains("file_directory.json"),
        "file 'file_directory.json' must survive filtering, got:\n{output}"
    );
    assert!(
        output.contains("files-and-directories.md"),
        "file 'files-and-directories.md' must survive filtering, got:\n{output}"
    );
    assert!(
        output.contains("normal.rs"),
        "file 'normal.rs' must survive filtering, got:\n{output}"
    );
    assert!(
        !output.contains("2 directories, 4 files"),
        "real summary line should be stripped, got:\n{output}"
    );
}

#[test]
fn test_summary_only_stripped_at_tail() {
    let input = ".\n\
                     ├── my directory with files\n\
                     └── data.txt\n";
    let output = filter_tree_output(input);
    assert!(
        output.contains("my directory with files"),
        "entry naming directories and files must survive, got:\n{output}"
    );
    assert!(output.contains("data.txt"), "got:\n{output}");
}

#[test]
fn test_summary_shaped_name_in_middle_survives() {
    let input = ".\n\
                     ├── 5 directories, 23 files\n\
                     └── real.txt\n\n\
                     1 directory, 2 files\n";
    let output = filter_tree_output(input);
    assert!(
        output.contains("5 directories, 23 files"),
        "a mid-tree entry shaped like a summary must survive, got:\n{output}"
    );
    assert!(output.contains("real.txt"), "got:\n{output}");
    assert!(
        !output.contains("1 directory, 2 files"),
        "the real trailing summary must still be stripped, got:\n{output}"
    );
}

#[test]
fn test_summary_with_links_variation_stripped() {
    let input = ".\n└── link.txt\n\n3 directories, 5 files, 2 links\n";
    let output = filter_tree_output(input);
    assert!(output.contains("link.txt"), "got:\n{output}");
    assert!(
        !output.contains("3 directories, 5 files, 2 links"),
        "summary-with-links line should be stripped, got:\n{output}"
    );
}

#[test]
fn test_noise_dirs_constant() {
    assert!(NOISE_DIRS.contains(&"node_modules"));
    assert!(NOISE_DIRS.contains(&".git"));
    assert!(NOISE_DIRS.contains(&"target"));
    assert!(NOISE_DIRS.contains(&"__pycache__"));
    assert!(NOISE_DIRS.contains(&".next"));
    assert!(NOISE_DIRS.contains(&"dist"));
    assert!(NOISE_DIRS.contains(&"build"));
}

#[test]
fn the_tree_and_nothing_else() {
    assert_eq!(filter_tree_output("\n .\n└── a\n\n1 directory, 1 file\n\n"), " .\n└── a\n");
    assert_eq!(filter_tree_output("\n\n"), "\n");
    assert_eq!(filter_tree_output(".\n\n└── a"), ".\n\n└── a\n");
    assert_eq!(filter_tree_output("0 directories\n"), "\n");
}

#[test]
fn summaries_are_whole_lines() {
    for line in ["0 directories", "1 directory, 0 files", " 3 directories, 5 files, 2 links. "] {
        assert!(is_tree_summary(line));
    }
    for line in ["director-files.txt", "├── 5 directories, 23 files", "5 directories, 23 filesx", ""] {
        assert!(!is_tree_summary(line));
    }
}

#[test]
fn only_one_line_is_taken_for_the_summary() {
    let lines: Vec<String> = ["", "a", "", "b", " "].iter().map(|l| l.to_string()).collect();
    assert_eq!(trim_blank_lines(&lines), ["a", "", "b"]);
    assert_eq!(finish_tree(trim_blank_lines(&lines), true), "a\n");
    assert_eq!(finish_tree(trim_blank_lines(&lines), false), "a\n\nb\n");
    assert_eq!(finish_tree(vec![], true), "\n");
}

#[test]
fn directories_are_left_out_unless_arguments_say_which() {
    let flags = |args: &[&str]| {
        let owned: Vec<String> = args.iter().map(|a| a.to_string()).collect();
        ignore_flags(&owned)
    };
    assert_eq!(
        flags(&["-L", "2"]),
        ["-I", "node_modules|.git|target|__pycache__|.next|dist|build"]
    );
    for args in [["-a"], ["--all"], ["-I"], ["--ignore=x"]] {
        assert!(flags(&args).is_empty());
    }
    assert_eq!(flags(&["--ignored"]).len(), 2);
}

#[test]
fn a_reduction_in_percent() {
    assert_eq!(reduction_percent(0, 0), 0);
    assert_eq!(reduction_percent(3, 1), 67);
    assert_eq!(reduction_percent(3, 3), 0);
    assert_eq!(reduction_percent(usize::MAX, usize::MAX), 0);
    assert_eq!(reduction_percent(4, 0), 100);
}
