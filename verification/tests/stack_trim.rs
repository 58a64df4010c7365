use rtk::jvm::stack_dedup::{AT_FRAME, CAUSED_BY, EXCEPTION_HEADER, MORE_FRAMES};
use rtk::jvm::stack_trim::{
    trim_stack_noise, trim_trace, trim_traces, FrameLine, StackPatterns, NOISE_PATTERNS,
};
use rtk::pattern::Pattern;

#[test]
fn ten_groovy_frames_collapse_user_frame_preserved() {
    let input = "\
java.lang.RuntimeException: Compile failed
    at com.example.MyTask.run(MyTask.java:42)
    at groovyjarjarasm.asm.ClassReader.<init>(ClassReader.java:200)
    at groovyjarjarasm.asm.ClassReader.accept(ClassReader.java:425)
    at groovyjarjarasm.asm.ClassReader.readClass(ClassReader.java:600)
    at org.codehaus.groovy.ast.ClassNode.<init>(ClassNode.java:85)
    at org.codehaus.groovy.ast.ClassNode.parse(ClassNode.java:120)
    at sun.reflect.GeneratedMethodAccessor47.invoke(Unknown Source)
    at sun.reflect.DelegatingMethodAccessorImpl.invoke(DelegatingMethodAccessorImpl.java:43)
    at java.lang.reflect.Method.invoke(Method.java:498)
    at org.junit.platform.engine.support.hierarchical.NodeTestTask.execute(NodeTestTask.java:1)
    at org.gradle.api.internal.tasks.testing.junit.JUnitTestClassExecutor.execute(JUnitTestClassExecutor.java:1)
    at com.example.Main.main(Main.java:12)
";
    let out = trim_stack_noise(input);
    assert!(out.contains("java.lang.RuntimeException: Compile failed"));
    assert!(out.contains("at com.example.MyTask.run(MyTask.java:42)"));
    assert!(out.contains("at groovyjarjarasm.asm.ClassReader.<init>"));
    assert!(out.contains("frames omitted"), "expected omit marker:\n{}", out);
    assert!(out.contains("at com.example.Main.main(Main.java:12)"));
    assert!(!out.contains("at sun.reflect.DelegatingMethodAccessorImpl"));
}

#[test]
fn two_noise_frames_pass_through_unchanged() {
    let input = "\
java.lang.RuntimeException: Err
    at com.example.Foo.bar(Foo.java:1)
    at sun.reflect.GeneratedMethodAccessor47.invoke(Unknown Source)
    at sun.reflect.DelegatingMethodAccessorImpl.invoke(DelegatingMethodAccessorImpl.java:43)
    at com.example.Foo.main(Foo.java:99)
";
    let out = trim_stack_noise(input);
    assert!(!out.contains("frames omitted"), "should not collapse 2 noise frames:\n{}", out);
    assert!(out.contains("at sun.reflect.GeneratedMethodAccessor47.invoke"));
    assert!(out.contains("at sun.reflect.DelegatingMethodAccessorImpl.invoke"));
}

#[test]
fn zero_noise_frames_unchanged() {
    let input = "\
java.lang.RuntimeException: Clean
    at com.example.A.a(A.java:1)
    at com.example.B.b(B.java:2)
    at com.example.C.c(C.java:3)
";
    let out = trim_stack_noise(input);
    assert_eq!(out, input);
}

#[test]
fn caused_by_chain_each_level_processed() {
    let input = "\
java.lang.RuntimeException: Outer
    at com.example.Outer.run(Outer.java:10)
    at groovyjarjarasm.asm.ClassReader.<init>(ClassReader.java:200)
    at groovyjarjarasm.asm.ClassReader.accept(ClassReader.java:425)
    at groovyjarjarasm.asm.ClassReader.readClass(ClassReader.java:600)
    at org.codehaus.groovy.ast.ClassNode.<init>(ClassNode.java:85)
    at com.example.Outer.end(Outer.java:99)
Caused by: java.io.IOException: Middle
    at com.example.Middle.call(Middle.java:5)
    at org.codehaus.groovy.ast.ClassNode.<init>(ClassNode.java:85)
    at org.codehaus.groovy.ast.ClassNode.parse(ClassNode.java:120)
    at sun.reflect.GeneratedMethodAccessor47.invoke(Unknown Source)
    at sun.reflect.DelegatingMethodAccessorImpl.invoke(DelegatingMethodAccessorImpl.java:43)
    at com.example.Middle.end(Middle.java:50)
Caused by: java.lang.IllegalStateException: Inner
    at com.example.Inner.go(Inner.java:1)
    at com.example.Inner.done(Inner.java:99)
";
    let out = trim_stack_noise(input);
    assert!(out.contains("java.lang.RuntimeException: Outer"));
    assert!(out.contains("Caused by: java.io.IOException: Middle"));
    assert!(out.contains("Caused by: java.lang.IllegalStateException: Inner"));
    assert!(out.contains("frames omitted"));
    assert!(out.contains("at com.example.Inner.go(Inner.java:1)"));
    assert!(out.contains("at com.example.Inner.done(Inner.java:99)"));
}

#[test]
fn plain_text_passes_through() {
    let input = "[INFO] Building foo 1.0\n[INFO] BUILD SUCCESS\nTotal time: 5s\n";
    let out = trim_stack_noise(input);
    assert_eq!(out, input);
}

fn frame(text: &str, noise: bool) -> FrameLine {
    FrameLine { text: text.to_string(), header: false, frame: true, noise }
}

fn trace(noise: &[bool]) -> Vec<FrameLine> {
    let mut lines = vec![FrameLine {
        text: "H".to_string(),
        header: true,
        frame: false,
        noise: false,
    }];
    for (i, n) in noise.iter().enumerate() {
        lines.push(frame(&format!("f{}", i), *n));
    }
    lines
}

#[test]
fn two_noise_frames_stay_and_three_become_a_marker() {
    assert_eq!(
        trim_trace(&trace(&[false, true, true, false])),
        ["H", "f0", "f1", "f2", "f3"]
    );
    assert_eq!(
        trim_trace(&trace(&[false, true, true, true, false])),
        ["H", "f0", "f1", "(... 2 frames omitted ...)", "f4"]
    );
}

#[test]
fn the_first_and_the_last_frame_stay() {
    assert_eq!(
        trim_trace(&trace(&[true, true, true, true, true])),
        ["H", "f0", "f1", "(... 2 frames omitted ...)", "f4"]
    );
    assert_eq!(trim_trace(&trace(&[])), ["H"]);
    assert!(trim_trace(&[]).is_empty());
}

#[test]
fn each_trace_is_trimmed_by_itself() {
    let mut lines = trace(&[true, true]);
    lines.extend(trace(&[true, true]));
    assert_eq!(trim_traces(&lines), ["H", "f0", "f1", "H", "f0", "f1"]);
    let loose = vec![frame("a", true), frame("b", true), frame("c", true), frame("d", true)];
    assert_eq!(trim_traces(&loose), ["a", "b", "c", "d"]);
}

#[test]
fn frames_are_told_by_patterns() {
    let patterns = StackPatterns::new();
    assert!(patterns.is_noise("    at jdk.proxy2.Foo.bar(Unknown Source)"));
    assert!(!patterns.is_noise("    at com.example.sun.reflect.X"));
    assert!(patterns.is_frame("    ... 3 more"));
    assert!(patterns.is_trace_header("  Caused by: y"));
    assert_eq!(trim_stack_noise(""), "");
}

#[test]
fn trimming_twice_is_trimming_once() {
    let noise = "    at sun.reflect.A.a(A.java:1)\n";
    for n in 0..8 {
        let input = format!(
            "java.lang.Exception: x\n{}    at u.V.w(V.java:1)\n{}    at u.V.x(V.java:2)\n",
            noise.repeat(n),
            noise.repeat(n + 2)
        );
        let once = trim_stack_noise(&input);
        assert_eq!(trim_stack_noise(&once), once);
        assert!(once.contains("frames omitted") == (n >= 1), "{}", once);
    }
}

#[test]
fn no_pattern_takes_a_line_that_starts_with_a_bracket() {
    let mut sources = vec![AT_FRAME, CAUSED_BY, EXCEPTION_HEADER, MORE_FRAMES];
    sources.extend(NOISE_PATTERNS);
    for source in sources {
        let pattern = Pattern::new(source);
        for text in [
            "(... repeated 3 more times ...)",
            "(... 3 frames omitted ...)",
            "( at sun.reflect.A.a(A.java:1)",
            "(Caused by: x",
            "(java.lang.Error: y",
            "( ... 3 more",
        ] {
            assert!(!pattern.is_match(text), "{} {}", source, text);
            assert!(!pattern.is_match(&format!(" \t{}", text)), "{} {}", source, text);
        }
    }
}
