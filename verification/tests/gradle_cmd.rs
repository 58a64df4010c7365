use rtk::jvm::gradle_cmd::{
    after_last_return, drops_line, filter_gradle_build, filter_gradle_test, filter_output,
    has_console_flag, inject_quiet_flags, is_java_compile_error, render, strip_gradle_noise,
    GradleCommand, GradlePatterns, LineFacts,
};

#[test]
fn test_filter_gradle_build_strips_progress_and_configure_lines() {
    let input = "\
Starting a Gradle Daemon
Configure project :app
<2/10 tasks> 20% EXECUTING
> Task :compileJava
> Task :compileJava UP-TO-DATE
BUILD SUCCESSFUL in 12s
";
    let out = filter_gradle_build(input);
    assert!(!out.contains("Starting a Gradle Daemon"));
    assert!(!out.contains("Configure project"));
    assert!(!out.contains("20% EXECUTING"));
    assert!(!out.contains("<2/10 tasks>"));
    assert!(!out.contains("> Task :compileJava"));
    assert!(out.contains("BUILD SUCCESSFUL"));
}

#[test]
fn test_filter_gradle_test_preserves_failure_markers_and_task_failed() {
    let input = "\
> Task :test
> Task :test FAILED

FAILURE: Build failed with an exception.

* Where:
Build file '/app/build.gradle'

* What went wrong:
Execution failed for task ':test'.

* Try:
> Run with --stacktrace

BUILD FAILED in 5s
";
    let out = filter_gradle_test(input);
    assert!(out.contains("> Task :test FAILED"));
    assert!(out.contains("FAILURE: Build failed"));
    assert!(out.contains("Where:"));
    assert!(out.contains("What went wrong:"));
    assert!(out.contains("Try:"));
    assert!(out.contains("BUILD FAILED"));
    assert!(!out.contains("> Task :test\n"));
}

#[test]
fn test_filter_gradle_build_strips_jansi_warnings() {
    let input = "\
WARNING: A restricted method in java.lang.System has been called
WARNING: java.lang.System::load has been called by net.rubygrapefruit.platform.internal.NativeLibraryLoader
WARNING: Use --enable-native-access=ALL-UNNAMED to avoid a warning
WARNING: Restricted methods will be blocked in a future release
BUILD SUCCESSFUL in 3s
";
    let out = filter_gradle_build(input);
    assert!(!out.contains("restricted method"));
    assert!(!out.contains("rubygrapefruit"));
    assert!(!out.contains("enable-native-access"));
    assert!(!out.contains("Restricted methods will be blocked"));
    assert!(out.contains("BUILD SUCCESSFUL"));
}

#[test]
fn test_filter_gradle_build_empty_falls_back_to_ok() {
    let input = "Starting a Gradle Daemon\nConfigure project :app\n";
    assert_eq!(filter_gradle_build(input), "gradle build: ok");
}

#[test]
fn test_filter_gradle_test_preserves_deprecation_and_compile_errors() {
    let input = "\
Deprecated Gradle features were used in this build, making it incompatible with Gradle 9.0
/src/main/java/Foo.java:42: error: cannot find symbol
BUILD FAILED in 2s
";
    let out = filter_gradle_test(input);
    assert!(out.contains("Deprecated Gradle features were used"));
    assert!(out.contains("Foo.java:42"));
    assert!(out.contains("BUILD FAILED"));
    assert!(is_java_compile_error(
        "/src/main/java/Foo.java:42: error: cannot find symbol"
    ));
}

#[test]
fn test_gradle_command_as_task_and_label() {
    assert_eq!(GradleCommand::Build.as_task(), "build");
    assert_eq!(GradleCommand::BootRun.as_task(), "bootRun");
    assert_eq!(GradleCommand::Test.label(), "gradle test");
    assert_eq!(GradleCommand::Clean.tee_label(), "gradle_clean");
}

fn owned(args: &[&str]) -> Vec<String> {
    args.iter().map(|a| a.to_string()).collect()
}

#[test]
fn what_a_line_is_decides_whether_it_is_dropped() {
    for bits in 0..16u8 {
        let marker = bits & 1 != 0;
        let task = bits & 2 != 0;
        let task_failed = bits & 4 != 0;
        let noise = bits & 8 != 0;
        let expected = if marker {
            false
        } else if task {
            !task_failed
        } else {
            noise
        };
        assert_eq!(drops_line(LineFacts { marker, task, task_failed, noise }), expected);
    }
}

#[test]
fn patterns_tell_lines_apart() {
    let patterns = GradlePatterns::new();
    let facts = patterns.facts("> Task :app:test FAILED");
    assert!(facts.task && facts.task_failed && !facts.marker && !facts.noise);
    assert!(!patterns.should_strip_line("> Task :app:test FAILED"));
    assert!(patterns.should_strip_line("> Task :app:test"));
    assert!(patterns.should_strip_line("<3/9 tasks> 33% EXECUTING [2s]"));
    assert!(!patterns.should_strip_line("BUILD FAILED in 2s (50% EXECUTING)"));
    assert!(!patterns.should_strip_line("  BUILD FAILED"));
    assert!(!patterns.should_strip_line("App started in 2 seconds"));
}

#[test]
fn the_last_progress_frame_counts() {
    assert_eq!(after_last_return("10% EXECUTING\r50% EXECUTING\rdone"), "done");
    assert_eq!(after_last_return("plain"), "plain");
    assert_eq!(after_last_return("gone\r"), "");
    assert_eq!(
        strip_gradle_noise("10% EXECUTING\r> Task :a FAILED  \nok\r\nlost\r"),
        ["> Task :a FAILED", "ok"]
    );
}

#[test]
fn a_quiet_build_says_so() {
    let all = [
        (GradleCommand::Build, "build", "gradle build", "gradle_build", "gradle build: ok"),
        (GradleCommand::Test, "test", "gradle test", "gradle_test", "gradle test: ok"),
        (
            GradleCommand::Assemble,
            "assemble",
            "gradle assemble",
            "gradle_assemble",
            "gradle assemble: ok",
        ),
        (GradleCommand::Clean, "clean", "gradle clean", "gradle_clean", "gradle clean: ok"),
        (GradleCommand::Check, "check", "gradle check", "gradle_check", "gradle check: ok"),
        (
            GradleCommand::BootRun,
            "bootRun",
            "gradle bootRun",
            "gradle_bootrun",
            "gradle bootRun: started",
        ),
    ];
    for (cmd, task, label, tee, message) in all {
        assert_eq!(filter_output(cmd, "Welcome to Gradle 8.5!\n"), message);
        assert_eq!(filter_output(cmd, "hello\n"), "hello");
        assert_eq!(cmd.as_task(), task);
        assert_eq!(cmd.label(), label);
        assert_eq!(cmd.tee_label(), tee);
    }
}

#[test]
fn gradle_lines_are_cut_at_their_own_width() {
    let lines = vec!["y".repeat(200), "z".repeat(201)];
    assert_eq!(
        render(&lines, "nothing"),
        format!("{}\n{}...", "y".repeat(200), "z".repeat(197))
    );
    assert_eq!(render(&[], "nothing"), "nothing");
}

#[test]
fn live_progress_is_turned_off_unless_chosen() {
    assert_eq!(inject_quiet_flags(&owned(&["--info"])), ["--console=plain"]);
    assert_eq!(inject_quiet_flags(&[]), ["--console=plain"]);
    assert!(inject_quiet_flags(&owned(&["--console", "rich"])).is_empty());
    assert!(inject_quiet_flags(&owned(&["x", "--console=auto"])).is_empty());
    assert!(!has_console_flag(&owned(&["--consoles"])));
}

#[test]
fn compile_errors_name_a_file_and_a_line() {
    assert!(is_java_compile_error("Foo.kt:7: error"));
    assert!(!is_java_compile_error("Foo.kt: error"));
}

#[test]
fn a_flood_of_traces_leaves_the_failure_markers() {
    let mut raw = String::from("> Task :app:compileJava UP-TO-DATE\n");
    for _ in 0..40 {
        raw.push_str("java.lang.IllegalStateException: bad class\n");
        raw.push_str("    at edu.umd.cs.findbugs.Main.run(Main.java:1)\n");
        raw.push_str("    at sun.reflect.A.a(A.java:1)\n");
        raw.push_str("    at sun.reflect.B.b(B.java:1)\n");
        raw.push_str("    at sun.reflect.C.c(C.java:1)\n");
        raw.push_str("    at edu.umd.cs.findbugs.Main.main(Main.java:9)\n\n");
    }
    raw.push_str("> Task :app:test FAILED\n  note\nnote\n\tnote\nBUILD FAILED in 3s\n");
    assert_eq!(
        filter_gradle_test(&raw),
        "java.lang.IllegalStateException: bad class\n    at edu.umd.cs.findbugs.Main.run(Main.java:1)\n    at sun.reflect.A.a(A.java:1)\n(... 2 frames omitted ...)\n    at edu.umd.cs.findbugs.Main.main(Main.java:9)\n(... repeated 39 more times ...)\n> Task :app:test FAILED\n  note\n(... repeated 2 more times ...)\nBUILD FAILED in 3s"
    );
}

#[test]
fn warnings_about_jansi_slf4j_and_the_native_platform_are_dropped() {
    let patterns = GradlePatterns::new();
    for line in [
        "WARNING: java.lang.System::load has been called by org.fusesource.jansi.internal.JansiLoader in an unnamed module",
        "WARNING: java.lang.System::load has been called by net.rubygrapefruit.platform.internal.X",
        "SLF4J: Class path contains multiple SLF4J bindings.",
        "SLF4J(W): No SLF4J providers were found.",
    ] {
        assert!(patterns.facts(line).noise, "{}", line);
        assert!(patterns.should_strip_line(line), "{}", line);
    }
    for line in [
        "WARNING: something else",
        "WARNING: java.lang.System::load has been called by com.sun.jna.Native in an unnamed module",
        "WARNING: java.lang.System::loadLibrary has been called by org.fusesource.jansi.X",
        "SLF4J(E): broken",
        "see SLF4J: docs",
    ] {
        assert!(!patterns.should_strip_line(line), "{}", line);
    }
}
