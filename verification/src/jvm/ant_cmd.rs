//! Filters Apache Ant (`ant`) output: drops target labels, task chatter and
//! the location of the build file, keeps compile errors, `BUILD SUCCESSFUL` or
//! `BUILD FAILED`, and the total time.
use crate::jvm::report::{
    drops, drops_line, ends_trimmed, kept_lines, lemma_kept, rendered, report,
};
use crate::lines::{lines, lines_of};
use crate::pattern::{any_matched, PatternSet};
use crate::text::{blank, strs, texts, trimmed_end};
use crate::utils::{strip_ansi, without_ansi};
use vstd::prelude::*;

verus! {

/// The targets whose output is filtered.
#[derive(Debug, Clone, Copy, PartialEq, Eq)]
pub enum AntCommand {
    Build,
    Clean,
    Test,
    Compile,
    Package,
    Install,
}

impl AntCommand {
    /// The target that Ant is given.
    pub fn target(self) -> (r: &'static str)
        ensures
            r@ == (match self {
                AntCommand::Build => "build"@,
                AntCommand::Clean => "clean"@,
                AntCommand::Test => "test"@,
                AntCommand::Compile => "compile"@,
                AntCommand::Package => "package"@,
                AntCommand::Install => "install"@,
            }),
    {
        match self {
            AntCommand::Build => "build",
            AntCommand::Clean => "clean",
            AntCommand::Test => "test",
            AntCommand::Compile => "compile",
            AntCommand::Package => "package",
            AntCommand::Install => "install",
        }
    }

    /// How the command is called in messages.
    pub fn label(self) -> (r: &'static str)
        ensures
            r@ == (match self {
                AntCommand::Build => "ant build"@,
                AntCommand::Clean => "ant clean"@,
                AntCommand::Test => "ant test"@,
                AntCommand::Compile => "ant compile"@,
                AntCommand::Package => "ant package"@,
                AntCommand::Install => "ant install"@,
            }),
    {
        match self {
            AntCommand::Build => "ant build",
            AntCommand::Clean => "ant clean",
            AntCommand::Test => "ant test",
            AntCommand::Compile => "ant compile",
            AntCommand::Package => "ant package",
            AntCommand::Install => "ant install",
        }
    }

    /// The name under which the raw output is saved.
    pub fn tee_label(self) -> (r: &'static str)
        ensures
            r@ == (match self {
                AntCommand::Build => "ant_build"@,
                AntCommand::Clean => "ant_clean"@,
                AntCommand::Test => "ant_test"@,
                AntCommand::Compile => "ant_compile"@,
                AntCommand::Package => "ant_package"@,
                AntCommand::Install => "ant_install"@,
            }),
    {
        match self {
            AntCommand::Build => "ant_build",
            AntCommand::Clean => "ant_clean",
            AntCommand::Test => "ant_test",
            AntCommand::Compile => "ant_compile",
            AntCommand::Package => "ant_package",
            AntCommand::Install => "ant_install",
        }
    }
}

/// Lines that are always kept: the result, the total time, `[javac]` lines
/// with a file and line number, and whatever speaks of errors or failures.
pub const KEEP_PATTERNS: [&'static str; 5] = [
    r"^BUILD (SUCCESSFUL|FAILED)",
    r"^Total time:",
    r"^\s+\[javac\].*:\d+",
    r"(?i)error:",
    r"(?i)failed:?",
];

/// Lines that are noise: the build file, target labels, harmless tasks, and
/// what `[javac]` says without a diagnosis. Its other lines are the context of
/// an error and are kept.
pub const STRIP_PATTERNS: [&'static str; 4] = [
    r"^Buildfile:",
    r"^[a-z][a-zA-Z0-9_-]+:$",
    r"^\s+\[(echo|delete|mkdir|copy|move|propertyfile|fixcrlf)\]",
    r"^\s+\[javac\]\s+(?:Compiling\b|Note:|Compiled\b|warning:\s*\[options\])",
];

/// Whether `line` is one of those that are always kept.
pub open spec fn preserved(line: Seq<char>) -> bool {
    any_matched(strs(KEEP_PATTERNS@), line)
}

/// Whether `line` is noise: what is always kept is none.
pub open spec fn is_noise(line: Seq<char>) -> bool {
    drops(preserved(line), any_matched(strs(STRIP_PATTERNS@), line))
}

/// The lines of `output` that are kept.
pub open spec fn shown_lines(output: Seq<char>) -> Seq<Seq<char>> {
    let all = lines_of(output);
    ends_trimmed(kept_lines(all, all.map_values(|line: Seq<char>| is_noise(line))))
}

/// What is shown of `output`.
pub open spec fn filtered(output: Seq<char>) -> Seq<char> {
    rendered(shown_lines(output), 240, "ant: ok"@)
}

/// A line that is not blank is shown if one of the patterns of lines to keep matches
/// it, or if no pattern of noise does.
pub proof fn lemma_preserved(output: Seq<char>, i: int)
    requires
        0 <= i < lines_of(output).len(),
        !blank(lines_of(output)[i]),
        any_matched(strs(KEEP_PATTERNS@), lines_of(output)[i]) || !any_matched(
            strs(STRIP_PATTERNS@),
            lines_of(output)[i],
        ),
    ensures
        shown_lines(output).contains(trimmed_end(lines_of(output)[i])),
{
    let all = lines_of(output);
    let dropped = all.map_values(|line: Seq<char>| is_noise(line));
    let kept = kept_lines(all, dropped);
    lemma_kept(all, dropped, i);
    let j = choose|j: int| 0 <= j < kept.len() && kept[j] == all[i];
    assert(shown_lines(output)[j] == trimmed_end(all[i]));
}

/// The patterns that tell noise from what is kept.
pub struct AntPatterns {
    keep: PatternSet,
    strip: PatternSet,
}

impl AntPatterns {
    /// Whether the patterns are those that they are named after.
    #[verifier::type_invariant]
    pub closed spec fn wf(self) -> bool {
        self.keep@ == strs(KEEP_PATTERNS@) && self.strip@ == strs(STRIP_PATTERNS@)
    }

    /// Compiles the patterns.
    pub fn new() -> (r: AntPatterns)
        ensures
            r.wf(),
    {
        AntPatterns {
            keep: PatternSet::new(&KEEP_PATTERNS),
            strip: PatternSet::new(&STRIP_PATTERNS),
        }
    }

    /// Whether `line` is noise.
    pub fn is_ant_noise(&self, line: &str) -> (r: bool)
        ensures
            r == is_noise(line@),
    {
        proof {
            use_type_invariant(self);
        }
        drops_line(self.keep.any_match(line), self.strip.any_match(line))
    }
}

/// Filters the output of a build, compile, clean, package or install target.
pub fn filter_ant_build(output: &str) -> (r: String)
    ensures
        r@ == filtered(output@),
{
    let all = lines(output);
    let patterns = AntPatterns::new();
    let mut dropped: Vec<bool> = Vec::new();
    let n: usize = all.len();
    for i in 0..n
        invariant
            n == all@.len(),
            dropped@.len() == i,
            forall|k: int| 0 <= k < i ==> #[trigger] dropped@[k] == is_noise(all@[k]@),
    {
        dropped.push(patterns.is_ant_noise(all[i].as_str()));
    }
    assert(dropped@ =~= texts(all@).map_values(|line: Seq<char>| is_noise(line)));
    report(all.as_slice(), dropped.as_slice(), 240, "ant: ok")
}

/// Filters the output of a test target, which has the same structure.
pub fn filter_ant_test(output: &str) -> (r: String)
    ensures
        r@ == filtered(output@),
{
    filter_ant_build(output)
}

/// Filters the output of the target `cmd` as the terminal gets it.
pub fn filter_terminal_output(cmd: AntCommand, raw: &str) -> (r: String)
    ensures
        r@ == filtered(without_ansi(raw@)),
{
    let plain = strip_ansi(raw);
    match cmd {
        AntCommand::Test => filter_ant_test(plain.as_str()),
        _ => filter_ant_build(plain.as_str()),
    }
}

} // verus!
