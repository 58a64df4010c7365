use rtk::jvm::ant_cmd::{
    filter_ant_build, filter_ant_test, filter_terminal_output, AntCommand, AntPatterns,
};

#[test]
fn test_successful_build_collapses_chatter_keeps_banner() {
    let output = "\
Buildfile: /path/to/build.xml

clean:
   [delete] Deleting directory /tmp/build

init:
    [mkdir] Created dir: /tmp/build/classes

compile:
    [javac] Compiling 47 source files to /tmp/build/classes

BUILD SUCCESSFUL

Total time: 4 seconds
";
    let filtered = filter_ant_build(output);
    assert!(
        filtered.contains("BUILD SUCCESSFUL"),
        "BUILD SUCCESSFUL must be preserved, got:\n{}",
        filtered
    );
    assert!(
        filtered.contains("Total time:"),
        "Total time must be preserved, got:\n{}",
        filtered
    );
    assert!(!filtered.contains("Buildfile:"), "Buildfile line should be stripped");
    assert!(!filtered.contains("clean:"), "target label should be stripped");
    assert!(!filtered.contains("[delete]"), "delete task should be stripped");
    assert!(!filtered.contains("[mkdir]"), "mkdir task should be stripped");
    assert!(
        !filtered.contains("Compiling 47"),
        "plain [javac] chatter without errors should be stripped"
    );
}

#[test]
fn test_failed_compile_preserves_error_and_banner() {
    let output = "\
Buildfile: /path/to/build.xml

compile:
    [javac] Compiling 47 source files to /tmp/build/classes
    [javac] /path/Foo.java:42: error: cannot find symbol
    [javac] /path/Bar.java:10: error: incompatible types

BUILD FAILED
/path/build.xml:35: Compile failed; see the compiler error output for details.

Total time: 4 seconds
";
    let filtered = filter_ant_build(output);
    assert!(
        filtered.contains("BUILD FAILED"),
        "BUILD FAILED must be preserved, got:\n{}",
        filtered
    );
    assert!(
        filtered.contains("/path/Foo.java:42: error:"),
        "compile error line must be preserved, got:\n{}",
        filtered
    );
    assert!(
        filtered.contains("/path/Bar.java:10: error:"),
        "second compile error must be preserved, got:\n{}",
        filtered
    );
    assert!(
        filtered.contains("Total time:"),
        "Total time must be preserved, got:\n{}",
        filtered
    );
    assert!(!filtered.contains("Buildfile:"), "Buildfile line should be stripped");
}

#[test]
fn test_empty_input_passes_through() {
    assert_eq!(filter_ant_build(""), "ant: ok");
    assert_eq!(filter_ant_build("   \n\n   "), "ant: ok");
}

#[test]
fn kept_patterns_win_over_noise_patterns() {
    let output = "     [echo] error: no such task\n     [echo] all is well\n";
    assert_eq!(filter_ant_build(output), "     [echo] error: no such task");
}

#[test]
fn javac_context_is_kept() {
    let output = "    [javac] Compiling 2 source files\n    [javac] /p/Foo.java:42: error: cannot find symbol\n    [javac]         foo();\n    [javac]         ^\n    [javac] 1 error\n";
    assert_eq!(
        filter_ant_build(output),
        "    [javac] /p/Foo.java:42: error: cannot find symbol\n    [javac]         foo();\n    [javac]         ^\n    [javac] 1 error"
    );
}

#[test]
fn ant_test_filter_is_the_build_filter() {
    let output = "test:\n    [junit] Tests run: 3\nBUILD SUCCESSFUL\n";
    assert_eq!(filter_ant_test(output), filter_ant_build(output));
    assert_eq!(filter_ant_test(output), "    [junit] Tests run: 3\nBUILD SUCCESSFUL");
}

#[test]
fn ant_output_loses_its_colours() {
    let raw = "\u{1b}[32mBUILD SUCCESSFUL\u{1b}[0m\ninit:\n";
    for cmd in [AntCommand::Build, AntCommand::Test, AntCommand::Compile] {
        assert_eq!(filter_terminal_output(cmd, raw), "BUILD SUCCESSFUL");
    }
}

#[test]
fn ant_noise_is_told_by_patterns() {
    let patterns = AntPatterns::new();
    assert!(patterns.is_ant_noise("Buildfile: build.xml"));
    assert!(patterns.is_ant_noise("compile-tests:"));
    assert!(!patterns.is_ant_noise("Compile:"));
    assert!(!patterns.is_ant_noise("Buildfile: failed to load"));
}

#[test]
fn ant_command_names() {
    let all = [
        (AntCommand::Build, "build", "ant build", "ant_build"),
        (AntCommand::Clean, "clean", "ant clean", "ant_clean"),
        (AntCommand::Test, "test", "ant test", "ant_test"),
        (AntCommand::Compile, "compile", "ant compile", "ant_compile"),
        (AntCommand::Package, "package", "ant package", "ant_package"),
        (AntCommand::Install, "install", "ant install", "ant_install"),
    ];
    for (cmd, target, label, tee) in all {
        assert_eq!(cmd.target(), target);
        assert_eq!(cmd.label(), label);
        assert_eq!(cmd.tee_label(), tee);
    }
}
