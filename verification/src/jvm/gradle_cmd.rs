//! Filters Gradle output: build, test, assemble, clean, check and bootRun.
//!
//! Drops progress lines, daemon and configuration chatter, and the warnings about
//! jansi, SLF4J and the native platform: those of the JDK about restricted
//! methods and about libraries that jansi or the native platform loads, and those
//! of SLF4J itself. Keeps failure markers, deprecation warnings, test failures,
//! compiler errors and the final `BUILD SUCCESSFUL` or `BUILD FAILED`.
use crate::jvm::line_dedup::{dedupe_repeated_lines, deduped_lines, lemma_text_key_survives};
use crate::jvm::marker::bracketed;
use crate::jvm::report::{keep_lines, kept_lines, lemma_kept, render_lines, rendered};
use crate::jvm::stack_dedup::{dedupe_stack_traces, deduped_traces, AT_FRAME, MORE_FRAMES};
use crate::jvm::stack_trim::{trim_stack_noise, trimmed_stacks, NOISE_PATTERNS};
use crate::lines::{
    body_lines, ends_with_newline, lemma_split_last, lemma_without_return, lines, lines_of,
    without_return,
};
use crate::pattern::{any_matched, matched, Pattern, PatternSet};
use crate::text::{
    blank, has_prefix, is_white, lemma_first_word, lemma_trim_commutes, lemma_trim_end_again,
    lemma_trim_start_push, lemma_trimmed_blank, same, starts_with, strs, texts, trim_end, trimmed,
    trimmed_end, trimmed_start,
};
use vstd::prelude::*;
use vstd::string::*;

verus! {

/// The tasks whose output is filtered.
#[derive(Debug, Clone, Copy, PartialEq, Eq)]
pub enum GradleCommand {
    Build,
    Test,
    Assemble,
    Clean,
    Check,
    BootRun,
}

impl GradleCommand {
    /// The task that Gradle is given.
    pub fn as_task(self) -> (r: &'static str)
        ensures
            r@ == (match self {
                GradleCommand::Build => "build"@,
                GradleCommand::Test => "test"@,
                GradleCommand::Assemble => "assemble"@,
                GradleCommand::Clean => "clean"@,
                GradleCommand::Check => "check"@,
                GradleCommand::BootRun => "bootRun"@,
            }),
    {
        match self {
            GradleCommand::Build => "build",
            GradleCommand::Test => "test",
            GradleCommand::Assemble => "assemble",
            GradleCommand::Clean => "clean",
            GradleCommand::Check => "check",
            GradleCommand::BootRun => "bootRun",
        }
    }

    /// How the command is called in messages.
    pub fn label(self) -> (r: &'static str)
        ensures
            r@ == (match self {
                GradleCommand::Build => "gradle build"@,
                GradleCommand::Test => "gradle test"@,
                GradleCommand::Assemble => "gradle assemble"@,
                GradleCommand::Clean => "gradle clean"@,
                GradleCommand::Check => "gradle check"@,
                GradleCommand::BootRun => "gradle bootRun"@,
            }),
    {
        match self {
            GradleCommand::Build => "gradle build",
            GradleCommand::Test => "gradle test",
            GradleCommand::Assemble => "gradle assemble",
            GradleCommand::Clean => "gradle clean",
            GradleCommand::Check => "gradle check",
            GradleCommand::BootRun => "gradle bootRun",
        }
    }

    /// The name under which the raw output is saved.
    pub fn tee_label(self) -> (r: &'static str)
        ensures
            r@ == (match self {
                GradleCommand::Build => "gradle_build"@,
                GradleCommand::Test => "gradle_test"@,
                GradleCommand::Assemble => "gradle_assemble"@,
                GradleCommand::Clean => "gradle_clean"@,
                GradleCommand::Check => "gradle_check"@,
                GradleCommand::BootRun => "gradle_bootrun"@,
            }),
    {
        match self {
            GradleCommand::Build => "gradle_build",
            GradleCommand::Test => "gradle_test",
            GradleCommand::Assemble => "gradle_assemble",
            GradleCommand::Clean => "gradle_clean",
            GradleCommand::Check => "gradle_check",
            GradleCommand::BootRun => "gradle_bootrun",
        }
    }
}

/// Lines that are always kept.
pub const MARKERS: [&'static str; 6] = [
    r"^FAILURE:",
    r"^BUILD (SUCCESSFUL|FAILED)",
    r"Deprecated Gradle features were used",
    r"^Where:",
    r"^\* What went wrong:|^What went wrong:",
    r"^\* Try:|^Try:",
];

/// A line that announces a task.
pub const TASK_ANNOUNCE: &'static str = r"^> Task :";

/// A line that announces that a task failed.
pub const TASK_FAILED: &'static str = r"^> Task :.*\bFAILED\b";

/// Lines that are noise.
pub const NOISE: [&'static str; 15] = [
    // Progress
    r"<\d+/\d+\s+tasks>",
    r"\b\d+%\s+EXECUTING",
    r"\b\d+%\s+CONFIGURING",
    r"\b\d+%\s+INITIALIZING",
    r"\b\d+%\s+WAITING",
    // Configuration, daemon and welcome chatter
    r"^Configure project",
    r"^Configuration on demand",
    r"^Welcome to Gradle",
    r"^Daemon will be stopped",
    r"^Starting a Gradle Daemon",
    // Warnings of the JDK about native access by jansi or the native platform
    r"^WARNING: A restricted method",
    r"^WARNING: java\.lang\.System::load has been called by (?:net\.rubygrapefruit\.platform|org\.fusesource\.jansi)",
    r"^WARNING: Use --enable-native-access",
    r"^WARNING: Restricted methods will be blocked",
    // Warnings of SLF4J, in the form of either major version
    r"^SLF4J(?:\(W\))?:",
];

/// An error of a compiler with its file and line.
pub const COMPILE_ERROR: &'static str = r"\.(java|kt|groovy|scala):\d+";

/// What is known of a line.
pub struct LineFacts {
    /// It is one of those that are always kept.
    pub marker: bool,
    /// It announces a task.
    pub task: bool,
    /// It announces that a task failed.
    pub task_failed: bool,
    /// It is noise.
    pub noise: bool,
}

/// What the patterns tell of `line`.
pub open spec fn line_facts(line: Seq<char>) -> LineFacts {
    LineFacts {
        marker: any_matched(strs(MARKERS@), line),
        task: matched(TASK_ANNOUNCE@, line),
        task_failed: matched(TASK_FAILED@, line),
        noise: any_matched(strs(NOISE@), line),
    }
}

/// Whether a line with these facts is dropped. A marker is kept, and a task
/// only if it failed.
pub open spec fn drops(facts: LineFacts) -> bool {
    !facts.marker && (if facts.task {
        !facts.task_failed
    } else {
        facts.noise
    })
}

/// What follows the last carriage return of `line`.
pub open spec fn last_segment(line: Seq<char>) -> Seq<char>
    decreases line.len(),
{
    if line.len() == 0 || line.last() == '\r' {
        Seq::empty()
    } else {
        last_segment(line.drop_last()).push(line.last())
    }
}

/// `line` as it stands on the screen in the end, without trailing whitespace.
pub open spec fn settled(line: Seq<char>) -> Seq<char> {
    trimmed_end(last_segment(line))
}

/// `output` with repeated traces, noise frames and repeated lines collapsed.
pub open spec fn compacted(output: Seq<char>) -> Seq<char> {
    deduped_lines(trimmed_stacks(deduped_traces(output)))
}

/// The lines of the compacted `output` as they stand on the screen.
pub open spec fn settled_lines(output: Seq<char>) -> Seq<Seq<char>> {
    lines_of(compacted(output)).map_values(|line: Seq<char>| settled(line))
}

/// The lines of `output` that are kept.
pub open spec fn shown_lines(output: Seq<char>) -> Seq<Seq<char>> {
    let all = settled_lines(output);
    kept_lines(all, all.map_values(|line: Seq<char>| drops(line_facts(line))))
}

/// What is shown of `output`.
pub open spec fn filtered(output: Seq<char>, when_empty: Seq<char>) -> Seq<char> {
    rendered(shown_lines(output), 200, when_empty)
}

/// What is shown of the output of the task `cmd` if nothing is kept.
pub open spec fn when_empty(cmd: GradleCommand) -> Seq<char> {
    match cmd {
        GradleCommand::Build => "gradle build: ok"@,
        GradleCommand::Test => "gradle test: ok"@,
        GradleCommand::Assemble => "gradle assemble: ok"@,
        GradleCommand::Clean => "gradle clean: ok"@,
        GradleCommand::Check => "gradle check: ok"@,
        GradleCommand::BootRun => "gradle bootRun: started"@,
    }
}

/// Whether `args` choose how Gradle writes to the console.
pub open spec fn chooses_console(args: Seq<Seq<char>>) -> bool {
    exists|i: int|
        0 <= i < args.len() && (#[trigger] args[i] == "--console"@ || starts_with(
            args[i],
            "--console="@,
        ))
}

/// The arguments that come first: those that turn live progress off, unless
/// `args` choose something themselves.
pub open spec fn quiet_flags(args: Seq<Seq<char>>) -> Seq<Seq<char>> {
    if chooses_console(args) {
        Seq::empty()
    } else {
        seq!["--console=plain"@]
    }
}

/// Every settled line that is not blank is shown if a pattern of markers matches it,
/// if it is a task that failed, or if it is no task and no pattern of noise matches
/// it.
pub proof fn lemma_shown(output: Seq<char>, i: int)
    requires
        0 <= i < settled_lines(output).len(),
        !blank(settled_lines(output)[i]),
        ({
            let line = settled_lines(output)[i];
            ||| any_matched(strs(MARKERS@), line)
            ||| matched(TASK_ANNOUNCE@, line) && matched(TASK_FAILED@, line)
            ||| !matched(TASK_ANNOUNCE@, line) && !any_matched(strs(NOISE@), line)
        }),
    ensures
        shown_lines(output).contains(settled_lines(output)[i]),
{
    let all = settled_lines(output);
    lemma_kept(all, all.map_values(|line: Seq<char>| drops(line_facts(line))), i);
}

/// Whether `line` may be left out of a stack trace: a pattern of noise matches it,
/// and one of frames, and it does not start with a bracket.
pub open spec fn noise_frame(line: Seq<char>) -> bool {
    &&& !bracketed(line)
    &&& any_matched(strs(NOISE_PATTERNS@), line)
    &&& matched(AT_FRAME@, line) || matched(MORE_FRAMES@, line)
}

/// The collapsing passes lose no line that is neither blank nor a noise frame:
/// one is left that reads the same, leading whitespace aside.
pub proof fn lemma_compacted(output: Seq<char>, i: int)
    requires
        0 <= i < body_lines(output).len(),
        !blank(body_lines(output)[i]),
        !noise_frame(body_lines(output)[i]),
    ensures
        exists|j: int|
            0 <= j < body_lines(compacted(output)).len() && trimmed_start(
                #[trigger] body_lines(compacted(output))[j],
            ) == trimmed_start(body_lines(output)[i]),
{
    let line = body_lines(output)[i];
    let unique = deduped_traces(output);
    let short = trimmed_stacks(unique);
    crate::jvm::stack_dedup::lemma_text_line_survives(output, i);
    let first = body_lines(unique);
    let i1 = choose|i1: int| 0 <= i1 < first.len() && first[i1] == line;
    crate::jvm::stack_trim::lemma_text_line_survives(unique, i1);
    let second = body_lines(short);
    let i2 = choose|i2: int| 0 <= i2 < second.len() && second[i2] == line;
    lemma_text_key_survives(short, i2);
    let third = body_lines(compacted(output));
    let j = choose|j: int|
        0 <= j < third.len() && trimmed_start(#[trigger] third[j]) == trimmed_start(second[i2]);
    assert(trimmed_start(third[j]) == trimmed_start(line));
}

/// The collapsing passes keep a newline at the end, and add none.
pub proof fn lemma_compacted_newline(output: Seq<char>)
    ensures
        ends_with_newline(compacted(output)) == ends_with_newline(output),
{
    crate::jvm::stack_dedup::lemma_trailing_newline(output);
    crate::jvm::stack_trim::lemma_trailing_newline(deduped_traces(output));
    crate::jvm::line_dedup::lemma_trailing_newline(trimmed_stacks(deduped_traces(output)));
}

/// Carriage returns in front of a text change nothing but its leading
/// whitespace.
proof fn lemma_last_segment(line: Seq<char>)
    requires
        !trimmed_start(line).contains('\r'),
    ensures
        trimmed_start(last_segment(line)) == trimmed_start(line),
    decreases line.len(),
{
    if line.len() > 0 {
        let shorter = line.drop_last();
        let c = line.last();
        assert(line =~= shorter.push(c));
        lemma_trim_start_push(shorter, c);
        let rest = trimmed_start(shorter);
        if rest.len() > 0 || !is_white(c) {
            let whole = trimmed_start(line);
            assert(whole[rest.len() as int] == c);
            assert forall|k: int| 0 <= k < rest.len() implies rest[k] != '\r' by {
                assert(whole[k] == rest[k]);
            }
        }
        lemma_last_segment(shorter);
        if c != '\r' {
            lemma_trim_start_push(last_segment(shorter), c);
        }
    }
}

/// Nothing but noise is lost. A line that is neither blank nor a noise frame, and
/// that no whitespace around it would make the patterns drop, is shown, with
/// other whitespace around it at most. It holds no carriage return, but for one
/// before the newline if the output ends with a newline.
pub proof fn lemma_line_shown(output: Seq<char>, i: int)
    requires
        0 <= i < body_lines(output).len(),
        !blank(body_lines(output)[i]),
        !noise_frame(body_lines(output)[i]),
        !body_lines(output)[i].contains('\r') || (ends_with_newline(output) && !without_return(
            body_lines(output)[i],
        ).contains('\r')),
        forall|text: Seq<char>| #[trigger]
            trimmed(text) == trimmed(body_lines(output)[i]) ==> any_matched(strs(MARKERS@), text)
                || (if matched(TASK_ANNOUNCE@, text) {
                matched(TASK_FAILED@, text)
            } else {
                !any_matched(strs(NOISE@), text)
            }),
    ensures
        exists|j: int|
            0 <= j < shown_lines(output).len() && trimmed(#[trigger] shown_lines(output)[j])
                == trimmed(body_lines(output)[i]),
{
    let line = body_lines(output)[i];
    let plain = without_return(line);
    let compact = compacted(output);
    let pieces = body_lines(compact);
    lemma_compacted(output, i);
    lemma_compacted_newline(output);
    let j = choose|j: int|
        0 <= j < pieces.len() && trimmed_start(#[trigger] pieces[j]) == trimmed_start(line);
    lemma_without_return(line);
    lemma_trimmed_blank(line);
    lemma_trimmed_blank(plain);
    lemma_split_last(compact);
    let seen = lines_of(compact)[j];
    assert(trimmed_start(seen) == trimmed_start(plain)) by {
        lemma_same_start(line, pieces[j]);
    }
    let rest = trimmed_start(plain);
    lemma_first_word(plain);
    assert forall|k: int| 0 <= k < rest.len() implies rest[k] != '\r' by {
        assert(rest[k] == plain[plain.len() - rest.len() + k]);
    }
    let end = settled(seen);
    lemma_last_segment(seen);
    lemma_trim_end_again(last_segment(seen));
    lemma_trim_commutes(last_segment(seen));
    lemma_trim_commutes(plain);
    assert(trimmed(end) == trimmed(line));
    lemma_trimmed_blank(end);
    assert(settled_lines(output)[j] == end);
    lemma_kept(
        settled_lines(output),
        settled_lines(output).map_values(|l: Seq<char>| drops(line_facts(l))),
        j,
    );
    let all = shown_lines(output);
    let m = choose|m: int| 0 <= m < all.len() && all[m] == end;
    assert(trimmed(all[m]) == trimmed(line));
}

/// Lines that read the same, leading whitespace aside, still do without a
/// carriage return at the end.
proof fn lemma_same_start(a: Seq<char>, b: Seq<char>)
    requires
        trimmed_start(a) == trimmed_start(b),
        !blank(a),
    ensures
        trimmed_start(without_return(a)) == trimmed_start(without_return(b)),
        !a.contains('\r') ==> without_return(a) == a && without_return(b) == b,
{
    lemma_trimmed_blank(a);
    lemma_first_word(a);
    lemma_first_word(b);
    assert(a.last() == trimmed_start(a).last() && b.last() == trimmed_start(b).last());
    assert(a[a.len() - 1] == a.last());
    if a.last() == '\r' {
        lemma_trimmed_blank(without_return(a));
        lemma_without_return(a);
        lemma_trim_start_push(a.drop_last(), '\r');
        lemma_trim_start_push(b.drop_last(), '\r');
        assert(a =~= a.drop_last().push('\r'));
        assert(b =~= b.drop_last().push('\r'));
        assert(trimmed_start(a).drop_last() =~= trimmed_start(a.drop_last()));
        assert(trimmed_start(b).drop_last() =~= trimmed_start(b.drop_last()));
    }
}

/// The patterns that tell the lines apart.
pub struct GradlePatterns {
    markers: PatternSet,
    task: Pattern,
    task_failed: Pattern,
    noise: PatternSet,
}

impl GradlePatterns {
    /// Whether the patterns are those that they are named after.
    #[verifier::type_invariant]
    pub closed spec fn wf(self) -> bool {
        &&& self.markers@ == strs(MARKERS@)
        &&& self.task@ == TASK_ANNOUNCE@
        &&& self.task_failed@ == TASK_FAILED@
        &&& self.noise@ == strs(NOISE@)
    }

    /// Compiles the patterns.
    pub fn new() -> (r: GradlePatterns)
        ensures
            r.wf(),
    {
        GradlePatterns {
            markers: PatternSet::new(&MARKERS),
            task: Pattern::new(TASK_ANNOUNCE),
            task_failed: Pattern::new(TASK_FAILED),
            noise: PatternSet::new(&NOISE),
        }
    }

    /// What the patterns tell of `line`.
    pub fn facts(&self, line: &str) -> (r: LineFacts)
        ensures
            r == line_facts(line@),
    {
        proof {
            use_type_invariant(self);
        }
        LineFacts {
            marker: self.markers.any_match(line),
            task: self.task.is_match(line),
            task_failed: self.task_failed.is_match(line),
            noise: self.noise.any_match(line),
        }
    }

    /// Whether `line` is dropped.
    pub fn should_strip_line(&self, line: &str) -> (r: bool)
        ensures
            r == drops(line_facts(line@)),
    {
        drops_line(self.facts(line))
    }
}

/// Whether a line with these facts is dropped.
pub fn drops_line(facts: LineFacts) -> (r: bool)
    ensures
        r == drops(facts),
{
    if facts.marker {
        return false;
    }
    if facts.task {
        return !facts.task_failed;
    }
    facts.noise
}

/// Whether `line` names a source file and a line in it, as the errors of a
/// compiler do.
pub fn is_java_compile_error(line: &str) -> (r: bool)
    ensures
        r == matched(COMPILE_ERROR@, line@),
{
    Pattern::new(COMPILE_ERROR).is_match(line)
}

/// What follows the last carriage return of `line`.
pub fn after_last_return(line: &str) -> (r: &str)
    ensures
        r@ == last_segment(line@),
{
    let n: usize = line.unicode_len();
    let mut start: usize = 0;
    let mut at: usize = 0;
    assert(line@.subrange(0, 0) =~= Seq::empty());
    for c in it: line.chars()
        invariant
            it.seq() == line@,
            n == line@.len(),
            start <= at,
            at == it.index(),
            line@.subrange(start as int, at as int) == last_segment(line@.take(at as int)),
    {
        assert(line@.take(at + 1).drop_last() =~= line@.take(at as int));
        assert(line@.subrange(start as int, at + 1) =~= line@.subrange(
            start as int,
            at as int,
        ).push(line@[at as int]));
        at = at + 1;
        if c == '\r' {
            start = at;
            assert(line@.subrange(start as int, at as int) =~= Seq::empty());
        }
    }
    assert(line@.take(n as int) =~= line@);
    line.substring_char(start, n)
}

/// The lines of `output` that are kept: repeats and noise frames are collapsed
/// first, so that the patterns see a compact text.
pub fn strip_gradle_noise(output: &str) -> (r: Vec<String>)
    ensures
        texts(r@) == shown_lines(output@),
{
    let unique = dedupe_stack_traces(output);
    let short = trim_stack_noise(unique.as_str());
    let compact = dedupe_repeated_lines(short.as_str());
    let all = lines(compact.as_str());
    let patterns = GradlePatterns::new();
    let n: usize = all.len();
    let mut seen: Vec<String> = Vec::new();
    let mut dropped: Vec<bool> = Vec::new();
    for i in 0..n
        invariant
            n == all@.len(),
            seen@.len() == i,
            dropped@.len() == i,
            forall|k: int| 0 <= k < i ==> (#[trigger] seen@[k])@ == settled(all@[k]@),
            forall|k: int| 0 <= k < i ==> #[trigger] dropped@[k] == drops(line_facts(seen@[k]@)),
    {
        let line = trim_end(after_last_return(all[i].as_str())).to_owned();
        dropped.push(patterns.should_strip_line(line.as_str()));
        seen.push(line);
    }
    assert(texts(all@) == lines_of(compacted(output@)));
    assert(texts(seen@) =~= settled_lines(output@));
    assert(dropped@ =~= texts(seen@).map_values(|line: Seq<char>| drops(line_facts(line))));
    keep_lines(seen.as_slice(), dropped.as_slice())
}

/// The lines, each cut to the width of the report, or `empty_msg` if there are
/// none.
pub fn render(lines: &[String], empty_msg: &str) -> (r: String)
    ensures
        r@ == rendered(texts(lines@), 200, empty_msg@),
{
    render_lines(lines, 200, empty_msg)
}

/// Filters the output of `gradle build`.
pub fn filter_gradle_build(output: &str) -> (r: String)
    ensures
        r@ == filtered(output@, "gradle build: ok"@),
{
    let kept = strip_gradle_noise(output);
    render(kept.as_slice(), "gradle build: ok")
}

/// Filters the output of `gradle test`.
pub fn filter_gradle_test(output: &str) -> (r: String)
    ensures
        r@ == filtered(output@, "gradle test: ok"@),
{
    let kept = strip_gradle_noise(output);
    render(kept.as_slice(), "gradle test: ok")
}

/// Filters the output of `gradle assemble`.
pub fn filter_gradle_assemble(output: &str) -> (r: String)
    ensures
        r@ == filtered(output@, "gradle assemble: ok"@),
{
    let kept = strip_gradle_noise(output);
    render(kept.as_slice(), "gradle assemble: ok")
}

/// Filters the output of `gradle clean`.
pub fn filter_gradle_clean(output: &str) -> (r: String)
    ensures
        r@ == filtered(output@, "gradle clean: ok"@),
{
    let kept = strip_gradle_noise(output);
    render(kept.as_slice(), "gradle clean: ok")
}

/// Filters the output of `gradle check`.
pub fn filter_gradle_check(output: &str) -> (r: String)
    ensures
        r@ == filtered(output@, "gradle check: ok"@),
{
    let kept = strip_gradle_noise(output);
    render(kept.as_slice(), "gradle check: ok")
}

/// Filters the output of `gradle bootRun`. The log of the application is left
/// alone: none of it is noise.
pub fn filter_gradle_bootrun(output: &str) -> (r: String)
    ensures
        r@ == filtered(output@, "gradle bootRun: started"@),
{
    let kept = strip_gradle_noise(output);
    render(kept.as_slice(), "gradle bootRun: started")
}

/// Filters the output of the task `cmd`.
pub fn filter_output(cmd: GradleCommand, output: &str) -> (r: String)
    ensures
        r@ == filtered(output@, when_empty(cmd)),
{
    match cmd {
        GradleCommand::Build => filter_gradle_build(output),
        GradleCommand::Test => filter_gradle_test(output),
        GradleCommand::Assemble => filter_gradle_assemble(output),
        GradleCommand::Clean => filter_gradle_clean(output),
        GradleCommand::Check => filter_gradle_check(output),
        GradleCommand::BootRun => filter_gradle_bootrun(output),
    }
}

/// Whether `args` choose how Gradle writes to the console.
pub fn has_console_flag(args: &[String]) -> (r: bool)
    ensures
        r == chooses_console(texts(args@)),
{
    let n: usize = args.len();
    for i in 0..n
        invariant
            n == args@.len(),
            forall|k: int|
                0 <= k < i ==> #[trigger] texts(args@)[k] != "--console"@ && !starts_with(
                    texts(args@)[k],
                    "--console="@,
                ),
    {
        if same(args[i].as_str(), "--console") || has_prefix(args[i].as_str(), "--console=") {
            assert(texts(args@)[i as int] == args@[i as int]@);
            return true;
        }
    }
    false
}

/// The arguments that turn live progress off, unless `args` choose something
/// themselves.
pub fn inject_quiet_flags(args: &[String]) -> (r: Vec<String>)
    ensures
        texts(r@) == quiet_flags(texts(args@)),
{
    let mut flags: Vec<String> = Vec::new();
    if !has_console_flag(args) {
        flags.push("--console=plain".to_owned());
    }
    assert(texts(flags@) =~= quiet_flags(texts(args@)));
    flags
}

} // verus!
