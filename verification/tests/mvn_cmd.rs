use rtk::jvm::mvn_cmd::{
    filter_for, filter_mvn_build, filter_mvn_test, filter_terminal_output, MvnCommand, MvnPatterns,
};

#[test]
fn test_filter_mvn_build_strips_noise_keeps_errors_and_banner() {
    let output = "\
Scanning for projects...
[INFO] ----------------------< com.example:app >----------------------
[INFO] Building app 1.0-SNAPSHOT
[INFO] Reactor Build Order:
Downloading from central: https://repo.maven.apache.org/foo.jar
Downloaded from central: https://repo.maven.apache.org/foo.jar (12 kB at 4 kB/s)
Progress (1): 4/12 kB
[INFO]
[INFO] --- maven-compiler-plugin:3.11.0:compile ---
[ERROR] /src/main/java/Main.java:[10,5] cannot find symbol
  symbol: method foo()
[INFO] BUILD FAILURE
[INFO] Total time: 2.543 s
";
    let filtered = filter_mvn_build(output);
    assert!(
        filtered.contains("[ERROR] /src/main/java/Main.java:[10,5] cannot find symbol"),
        "expected ERROR preserved, got:\n{}",
        filtered
    );
    assert!(filtered.contains("BUILD FAILURE"), "expected BUILD banner");
    assert!(!filtered.contains("Scanning for projects"));
    assert!(!filtered.contains("Downloading from"));
    assert!(!filtered.contains("Downloaded from"));
    assert!(!filtered.contains("Progress ("));
    assert!(!filtered.contains("Reactor Build Order"));
}

#[test]
fn test_filter_mvn_build_strips_jdk_restricted_warnings() {
    let output = "\
WARNING: A restricted method in java.lang.System has been called
WARNING: java.lang.System::load has been called by org.fusesource.jansi
WARNING: Use --enable-native-access=ALL-UNNAMED to avoid
WARNING: Restricted methods will be blocked in a future release
[WARNING] This is a real compiler warning
[INFO] BUILD SUCCESS
";
    let filtered = filter_mvn_build(output);
    assert!(
        filtered.contains("[WARNING] This is a real compiler warning"),
        "compiler warnings must survive, got:\n{}",
        filtered
    );
    assert!(filtered.contains("BUILD SUCCESS"));
    assert!(!filtered.contains("restricted method in java.lang.System"));
    assert!(!filtered.contains("java.lang.System::load"));
    assert!(!filtered.contains("--enable-native-access"));
    assert!(!filtered.contains("Restricted methods will be blocked"));
}

#[test]
fn test_filter_mvn_build_empty_returns_ok() {
    assert_eq!(filter_mvn_build(""), "mvn: ok");
    assert_eq!(
        filter_mvn_build("[INFO] \n[INFO] Reactor Build Order:\n"),
        "mvn: ok"
    );
}

#[test]
fn test_filter_mvn_test_preserves_tests_run_summary() {
    let output = "\
[INFO] Scanning for projects...
Downloading from central: foo.jar
[INFO] -------------------------------------------------------
[INFO] T E S T S
[INFO] -------------------------------------------------------
Tests run: 42, Failures: 1, Errors: 0, Skipped: 0
[ERROR] Failures:
[ERROR]   com.example.FooTest.shouldWork:15 expected:<true> but was:<false>
[INFO] BUILD FAILURE
";
    let filtered = filter_mvn_test(output);
    assert!(
        filtered.contains("Tests run: 42, Failures: 1"),
        "test summary must survive, got:\n{}",
        filtered
    );
    assert!(filtered.contains("shouldWork:15 expected:<true>"));
    assert!(filtered.contains("BUILD FAILURE"));
    assert!(!filtered.contains("Downloading from"));
    assert!(!filtered.contains("Scanning for projects"));
}

#[test]
fn test_mvn_command_goal_maps_build_to_compile() {
    assert_eq!(MvnCommand::Build.goal(), "compile");
    assert_eq!(MvnCommand::Package.goal(), "package");
    assert_eq!(MvnCommand::Clean.goal(), "clean");
    assert_eq!(MvnCommand::Install.goal(), "install");
    assert_eq!(MvnCommand::Test.goal(), "test");
    assert_eq!(MvnCommand::Verify.goal(), "verify");
}

#[test]
fn mvn_lines_keep_their_order_and_lose_trailing_blanks() {
    let output = "b  \n[INFO] Building app\na\t\n\n[INFO] BUILD SUCCESS\r\n";
    assert_eq!(filter_mvn_build(output), "b\na\n[INFO] BUILD SUCCESS");
}

#[test]
fn mvn_preserved_lines_are_never_noise() {
    let patterns = MvnPatterns::new();
    assert!(patterns.is_mvn_noise("[INFO] Reactor Summary:"));
    assert!(patterns.is_mvn_noise("[INFO] ------------"));
    assert!(!patterns.is_mvn_noise("   [ERROR] Downloading from central"));
    assert!(!patterns.is_mvn_noise("[WARNING] x"));
    assert!(!patterns.is_mvn_noise("Tests run: 1"));
    assert!(!patterns.is_mvn_noise("[INFO] BUILD FAILURE"));
}

#[test]
fn mvn_long_lines_are_cut() {
    let fits = "x".repeat(240);
    assert_eq!(filter_mvn_build(&fits), fits);
    let long = "x".repeat(241);
    assert_eq!(filter_mvn_build(&long), format!("{}...", "x".repeat(237)));
}

#[test]
fn mvn_repeated_traces_are_collapsed() {
    let trace = "java.lang.RuntimeException: Boom\n    at com.foo.Bar.run(Bar.java:42)\n";
    let output = format!("{}{}[INFO] BUILD FAILURE\n", trace, trace);
    assert_eq!(
        filter_mvn_test(&output),
        "java.lang.RuntimeException: Boom\n    at com.foo.Bar.run(Bar.java:42)\n(... repeated 1 more times ...)\n[INFO] BUILD FAILURE"
    );
}

#[test]
fn mvn_filters_agree_for_all_goals() {
    let raw = "\u{1b}[1;31m[ERROR]\u{1b}[0m boom\nDownloading: x\n";
    let all = [
        (MvnCommand::Build, "compile", "mvn compile", "mvn_build"),
        (MvnCommand::Package, "package", "mvn package", "mvn_package"),
        (MvnCommand::Clean, "clean", "mvn clean", "mvn_clean"),
        (MvnCommand::Install, "install", "mvn install", "mvn_install"),
        (MvnCommand::Test, "test", "mvn test", "mvn_test"),
        (MvnCommand::Verify, "verify", "mvn verify", "mvn_verify"),
    ];
    for (cmd, goal, label, tee) in all {
        assert_eq!(filter_terminal_output(cmd, raw), "[ERROR] boom");
        assert_eq!(filter_for(cmd, "Downloading: x\n"), "mvn: ok");
        assert_eq!(cmd.goal(), goal);
        assert_eq!(cmd.label(), label);
        assert_eq!(cmd.tee_label(), tee);
    }
}
