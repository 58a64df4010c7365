//! Filters Maven (`mvn`) output: collapses repeated stack traces, drops scanning,
//! download and progress noise, keeps errors, warnings, test results and the
//! final `BUILD` banner.
use crate::jvm::report::{
    drops, drops_line, ends_trimmed, kept_lines, lemma_kept, rendered, report,
};
use crate::jvm::stack_dedup::{dedupe_stack_traces, deduped_traces, lemma_text_line_survives};
use crate::lines::{
    body_lines, lemma_split_last, lemma_without_return, lines, lines_of, without_return,
};
use crate::pattern::{any_matched, PatternSet};
use crate::text::{
    blank, lemma_trimmed_blank, strs, texts, trim_start, trimmed_end, trimmed_start,
};
use crate::utils::{strip_ansi, without_ansi};
use vstd::prelude::*;

verus! {

/// The goals whose output is filtered.
#[derive(Debug, Clone, Copy, PartialEq, Eq)]
pub enum MvnCommand {
    Build,
    Package,
    Clean,
    Install,
    Test,
    Verify,
}

impl MvnCommand {
    /// The goal that Maven is given. It has no `build`, which stands for
    /// `compile`.
    pub fn goal(self) -> (r: &'static str)
        ensures
            r@ == (match self {
                MvnCommand::Build => "compile"@,
                MvnCommand::Package => "package"@,
                MvnCommand::Clean => "clean"@,
                MvnCommand::Install => "install"@,
                MvnCommand::Test => "test"@,
                MvnCommand::Verify => "verify"@,
            }),
    {
        match self {
            MvnCommand::Build => "compile",
            MvnCommand::Package => "package",
            MvnCommand::Clean => "clean",
            MvnCommand::Install => "install",
            MvnCommand::Test => "test",
            MvnCommand::Verify => "verify",
        }
    }

    /// How the command is called in messages.
    pub fn label(self) -> (r: &'static str)
        ensures
            r@ == (match self {
                MvnCommand::Build => "mvn compile"@,
                MvnCommand::Package => "mvn package"@,
                MvnCommand::Clean => "mvn clean"@,
                MvnCommand::Install => "mvn install"@,
                MvnCommand::Test => "mvn test"@,
                MvnCommand::Verify => "mvn verify"@,
            }),
    {
        match self {
            MvnCommand::Build => "mvn compile",
            MvnCommand::Package => "mvn package",
            MvnCommand::Clean => "mvn clean",
            MvnCommand::Install => "mvn install",
            MvnCommand::Test => "mvn test",
            MvnCommand::Verify => "mvn verify",
        }
    }

    /// The name under which the raw output is saved.
    pub fn tee_label(self) -> (r: &'static str)
        ensures
            r@ == (match self {
                MvnCommand::Build => "mvn_build"@,
                MvnCommand::Package => "mvn_package"@,
                MvnCommand::Clean => "mvn_clean"@,
                MvnCommand::Install => "mvn_install"@,
                MvnCommand::Test => "mvn_test"@,
                MvnCommand::Verify => "mvn_verify"@,
            }),
    {
        match self {
            MvnCommand::Build => "mvn_build",
            MvnCommand::Package => "mvn_package",
            MvnCommand::Clean => "mvn_clean",
            MvnCommand::Install => "mvn_install",
            MvnCommand::Test => "mvn_test",
            MvnCommand::Verify => "mvn_verify",
        }
    }
}

/// Lines that are always kept, leading whitespace aside.
pub const KEEP_PATTERNS: [&'static str; 4] = [
    r"^\[ERROR\]",
    r"^\[WARNING\]",
    r"^Tests run:",
    r"^(?:\[INFO\] )?BUILD (?:SUCCESS|FAILURE)",
];

/// Lines that are noise.
pub const NOISE_PATTERNS: [&'static str; 21] = [
    // Initial scan and reactor announcements
    r"^Scanning for projects",
    r"^\[INFO\] Scanning for projects",
    r"^\[INFO\] Reactor",
    r"^\[INFO\] -+$",
    r"^\[INFO\] =+$",
    r"^\[INFO\] $",
    r"^\[INFO\]\s*$",
    r"^\[INFO\] ---",
    r"^\[INFO\] Building\s",
    // Dependency downloads
    r"^Downloading from\s",
    r"^Downloaded from\s",
    r"^\[INFO\] Downloading\s",
    r"^\[INFO\] Downloaded\s",
    r"^Downloading:",
    r"^Downloaded:",
    r"^Progress \(\d+\)",
    r"^Progress ",
    // Warnings of the JDK about restricted methods
    r"^WARNING: A restricted method",
    r"^WARNING: java\.lang\.System::load",
    r"^WARNING: Use --enable-native-access",
    r"^WARNING: Restricted methods will be blocked",
];

/// Whether `line` is one of those that are always kept.
pub open spec fn preserved(line: Seq<char>) -> bool {
    any_matched(strs(KEEP_PATTERNS@), trimmed_start(line))
}

/// Whether `line` is noise: what is always kept is none.
pub open spec fn is_noise(line: Seq<char>) -> bool {
    drops(preserved(line), any_matched(strs(NOISE_PATTERNS@), line))
}

/// The lines of `output` that are kept, after repeated stack traces have been
/// collapsed.
pub open spec fn shown_lines(output: Seq<char>) -> Seq<Seq<char>> {
    let all = lines_of(deduped_traces(output));
    ends_trimmed(kept_lines(all, all.map_values(|line: Seq<char>| is_noise(line))))
}

/// What is shown of `output`.
pub open spec fn filtered(output: Seq<char>) -> Seq<char> {
    rendered(shown_lines(output), 240, "mvn: ok"@)
}

/// Whether one of the patterns of lines to keep matches `line`, leading whitespace
/// aside, or no pattern of noise does.
pub open spec fn shows(line: Seq<char>) -> bool {
    any_matched(strs(KEEP_PATTERNS@), trimmed_start(line)) || !any_matched(
        strs(NOISE_PATTERNS@),
        line,
    )
}

/// A line that is always kept is shown, and so is every line that is neither
/// noise nor blank. Of a repeated stack trace the first one is shown. A carriage
/// return at the end of the line does not count.
pub proof fn lemma_line_shown(output: Seq<char>, i: int)
    requires
        0 <= i < body_lines(output).len(),
        !blank(body_lines(output)[i]),
        shows(body_lines(output)[i]) && shows(without_return(body_lines(output)[i])),
    ensures
        shown_lines(output).contains(trimmed_end(body_lines(output)[i])),
{
    let line = body_lines(output)[i];
    let unique = deduped_traces(output);
    let all = lines_of(unique);
    let dropped = all.map_values(|l: Seq<char>| is_noise(l));
    let kept = kept_lines(all, dropped);
    lemma_text_line_survives(output, i);
    lemma_split_last(unique);
    let pieces = body_lines(unique);
    let k = choose|k: int| 0 <= k < pieces.len() && pieces[k] == line;
    assert(all[k] == line || all[k] == without_return(line));
    lemma_without_return(line);
    lemma_trimmed_blank(line);
    lemma_trimmed_blank(without_return(line));
    lemma_kept(all, dropped, k);
    let j = choose|j: int| 0 <= j < kept.len() && kept[j] == all[k];
    assert(shown_lines(output)[j] == trimmed_end(line));
}

/// The patterns that tell noise from what is kept.
pub struct MvnPatterns {
    keep: PatternSet,
    noise: PatternSet,
}

impl MvnPatterns {
    /// Whether the patterns are those that they are named after.
    #[verifier::type_invariant]
    pub closed spec fn wf(self) -> bool {
        self.keep@ == strs(KEEP_PATTERNS@) && self.noise@ == strs(NOISE_PATTERNS@)
    }

    /// Compiles the patterns.
    pub fn new() -> (r: MvnPatterns)
        ensures
            r.wf(),
    {
        MvnPatterns {
            keep: PatternSet::new(&KEEP_PATTERNS),
            noise: PatternSet::new(&NOISE_PATTERNS),
        }
    }

    /// Whether `line` is noise.
    pub fn is_mvn_noise(&self, line: &str) -> (r: bool)
        ensures
            r == is_noise(line@),
    {
        proof {
            use_type_invariant(self);
        }
        drops_line(self.keep.any_match(trim_start(line)), self.noise.any_match(line))
    }
}

/// Filters the output of a compile, package, install or clean goal.
pub fn filter_mvn_build(output: &str) -> (r: String)
    ensures
        r@ == filtered(output@),
{
    let unique = dedupe_stack_traces(output);
    let all = lines(unique.as_str());
    let patterns = MvnPatterns::new();
    let mut dropped: Vec<bool> = Vec::new();
    let n: usize = all.len();
    for i in 0..n
        invariant
            n == all@.len(),
            dropped@.len() == i,
            forall|k: int| 0 <= k < i ==> #[trigger] dropped@[k] == is_noise(all@[k]@),
    {
        dropped.push(patterns.is_mvn_noise(all[i].as_str()));
    }
    assert(dropped@ =~= texts(all@).map_values(|line: Seq<char>| is_noise(line)));
    report(all.as_slice(), dropped.as_slice(), 240, "mvn: ok")
}

/// Filters the output of a test or verify goal. What the build filter keeps
/// holds the test summary and the failures too.
pub fn filter_mvn_test(output: &str) -> (r: String)
    ensures
        r@ == filtered(output@),
{
    filter_mvn_build(output)
}

/// Filters the output of the goal `cmd`.
pub fn filter_for(cmd: MvnCommand, raw: &str) -> (r: String)
    ensures
        r@ == filtered(raw@),
{
    match cmd {
        MvnCommand::Test | MvnCommand::Verify => filter_mvn_test(raw),
        _ => filter_mvn_build(raw),
    }
}

/// Filters the output of the goal `cmd` as the terminal gets it.
pub fn filter_terminal_output(cmd: MvnCommand, raw: &str) -> (r: String)
    ensures
        r@ == filtered(without_ansi(raw@)),
{
    let plain = strip_ansi(raw);
    filter_for(cmd, plain.as_str())
}

} // verus!
