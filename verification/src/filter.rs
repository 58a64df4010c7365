//! Shortening source code to a number of lines.
use crate::decimal::{decimal, decimal_text};
use crate::lines::{join, joined, lines, lines_of};
use crate::pattern::{matched, Pattern};
use crate::text::{has_prefix, same, starts_with, texts, trim, trimmed};
use vstd::prelude::*;
use vstd::string::*;

verus! {

/// The language of a source file.
#[derive(Debug, Clone, Copy, PartialEq, Eq)]
pub enum Language {
    Rust,
    Python,
    JavaScript,
    TypeScript,
    Go,
    C,
    Cpp,
    Java,
    Ruby,
    Shell,
    Unknown,
}

/// The language of files with the extension `ext`.
pub open spec fn language_of(ext: Seq<char>) -> Language {
    if ext == "rs"@ {
        Language::Rust
    } else if ext == "py"@ || ext == "pyw"@ {
        Language::Python
    } else if ext == "js"@ || ext == "mjs"@ || ext == "cjs"@ {
        Language::JavaScript
    } else if ext == "ts"@ || ext == "tsx"@ {
        Language::TypeScript
    } else if ext == "go"@ {
        Language::Go
    } else if ext == "c"@ || ext == "h"@ {
        Language::C
    } else if ext == "cpp"@ || ext == "cc"@ || ext == "cxx"@ || ext == "hpp"@ || ext == "hh"@ {
        Language::Cpp
    } else if ext == "java"@ {
        Language::Java
    } else if ext == "rb"@ {
        Language::Ruby
    } else if ext == "sh"@ || ext == "bash"@ || ext == "zsh"@ {
        Language::Shell
    } else {
        Language::Unknown
    }
}

impl Language {
    /// The language of files with the extension `ext`.
    pub fn from_extension(ext: &str) -> (r: Language)
        ensures
            r == language_of(ext@),
    {
        if same(ext, "rs") {
            Language::Rust
        } else if same(ext, "py") || same(ext, "pyw") {
            Language::Python
        } else if same(ext, "js") || same(ext, "mjs") || same(ext, "cjs") {
            Language::JavaScript
        } else if same(ext, "ts") || same(ext, "tsx") {
            Language::TypeScript
        } else if same(ext, "go") {
            Language::Go
        } else if same(ext, "c") || same(ext, "h") {
            Language::C
        } else if same(ext, "cpp") || same(ext, "cc") || same(ext, "cxx") || same(ext, "hpp")
            || same(ext, "hh") {
            Language::Cpp
        } else if same(ext, "java") {
            Language::Java
        } else if same(ext, "rb") {
            Language::Ruby
        } else if same(ext, "sh") || same(ext, "bash") || same(ext, "zsh") {
            Language::Shell
        } else {
            Language::Unknown
        }
    }
}

/// The first line of a definition.
pub const DEFINITION: &'static str =
    r"^(pub\s+)?(async\s+)?(fn|def|function|func|class|struct|enum|trait|interface|type)\s+\w+";

/// A line that imports something.
pub const IMPORT: &'static str = r"^(use |import |from |require\(|#include)";

/// Whether `line` says what a source file is made of.
pub open spec fn important(line: Seq<char>) -> bool {
    let text = trimmed(line);
    ||| matched(DEFINITION@, text)
    ||| matched(IMPORT@, text)
    ||| starts_with(text, "pub "@)
    ||| starts_with(text, "export "@)
    ||| text == "}"@
    ||| text == "{"@
}

/// How many of the first `i` lines are kept: the important ones, and any line
/// as long as few have been kept.
pub open spec fn kept_before(flags: Seq<bool>, max: nat, i: int) -> nat
    decreases i,
{
    if i <= 0 {
        0
    } else {
        let before = kept_before(flags, max, i - 1);
        if flags[i - 1] || before < max / 2 {
            before + 1
        } else {
            before
        }
    }
}

/// Whether the `i`th line is kept.
pub open spec fn keeps(flags: Seq<bool>, max: nat, i: int) -> bool {
    flags[i] || kept_before(flags, max, i) < max / 2
}

/// Whether enough is kept of the first `i` lines.
pub open spec fn enough(flags: Seq<bool>, max: nat, i: int) -> bool {
    kept_before(flags, max, i) + 1 >= max
}

/// How many lines are looked at, of which `i` have been: no more once enough
/// are kept.
pub open spec fn scanned(flags: Seq<bool>, max: nat, i: int) -> int
    decreases flags.len() - i,
{
    if i >= flags.len() || (i > 0 && enough(flags, max, i)) {
        i
    } else {
        scanned(flags, max, i + 1)
    }
}

/// The mark for lines that were left out, with the number of lines not yet
/// kept.
pub open spec fn gap_mark(left: nat) -> Seq<char> {
    "    // ... "@ + decimal(left) + " lines omitted"@
}

/// The mark at the end.
pub open spec fn end_mark(left: nat, total: nat) -> Seq<char> {
    "// ... "@ + decimal(left) + " more lines (total: "@ + decimal(total) + ")"@
}

/// What is shown of the first `i` lines: those that are kept, and a mark before
/// the first one after a gap.
pub open spec fn shown_before(
    lines: Seq<Seq<char>>,
    flags: Seq<bool>,
    max: nat,
    i: int,
) -> Seq<Seq<char>>
    decreases i,
{
    if i <= 0 {
        Seq::empty()
    } else {
        let before = shown_before(lines, flags, max, i - 1);
        let left = (lines.len() - kept_before(flags, max, i - 1)) as nat;
        if !keeps(flags, max, i - 1) {
            before
        } else if i > 1 && !keeps(flags, max, i - 2) {
            before.push(gap_mark(left)).push(lines[i - 1])
        } else {
            before.push(lines[i - 1])
        }
    }
}

/// What is shown of `lines` if there are more than `max`.
pub open spec fn shortened(
    lines: Seq<Seq<char>>,
    flags: Seq<bool>,
    max: nat,
) -> Seq<Seq<char>> {
    let end = scanned(flags, max, 0);
    let kept = kept_before(flags, max, end);
    let shown = shown_before(lines, flags, max, end);
    if kept < lines.len() {
        shown.push(end_mark((lines.len() - kept) as nat, lines.len()))
    } else {
        shown
    }
}

/// `content` shortened to about `max` lines.
pub open spec fn smart_truncated(content: Seq<char>, max: nat) -> Seq<char> {
    let all = lines_of(content);
    if all.len() <= max {
        content
    } else {
        joined(shortened(all, all.map_values(|line: Seq<char>| important(line)), max), "\n"@)
    }
}

/// Before the last line that is looked at there are not enough lines kept.
proof fn lemma_scanned(flags: Seq<bool>, max: nat, from: int, i: int)
    requires
        0 <= from <= i < scanned(flags, max, from),
    ensures
        i > 0 ==> !enough(flags, max, i),
    decreases i - from,
{
    if from < i {
        lemma_scanned(flags, max, from + 1, i);
    }
}

proof fn lemma_kept_before(flags: Seq<bool>, max: nat, i: int)
    requires
        0 <= i <= scanned(flags, max, 0),
    ensures
        kept_before(flags, max, i) <= i,
        kept_before(flags, max, i) <= 1 || kept_before(flags, max, i) < max,
    decreases i,
{
    if i > 0 {
        lemma_kept_before(flags, max, i - 1);
        lemma_scanned(flags, max, 0, i - 1);
    }
}

proof fn lemma_scanned_bound(flags: Seq<bool>, max: nat, i: int)
    requires
        0 <= i <= flags.len(),
    ensures
        i <= scanned(flags, max, i) <= flags.len(),
    decreases flags.len() - i,
{
    if i < flags.len() && !(i > 0 && enough(flags, max, i)) {
        lemma_scanned_bound(flags, max, i + 1);
    }
}

/// Fewer than `max` lines are kept, so that there is room for the mark at the
/// end; one may be kept even if `max` leaves no room for any.
pub proof fn lemma_kept_bound(flags: Seq<bool>, max: nat)
    ensures
        0 <= scanned(flags, max, 0) <= flags.len(),
        kept_before(flags, max, scanned(flags, max, 0)) <= 1 || kept_before(
            flags,
            max,
            scanned(flags, max, 0),
        ) < max,
{
    lemma_scanned_bound(flags, max, 0);
    lemma_kept_before(flags, max, scanned(flags, max, 0));
}

/// The patterns of lines that say what a source file is made of.
pub struct SourcePatterns {
    definition: Pattern,
    import: Pattern,
}

impl SourcePatterns {
    /// Whether the patterns are those that they are named after.
    #[verifier::type_invariant]
    pub closed spec fn wf(self) -> bool {
        self.definition@ == DEFINITION@ && self.import@ == IMPORT@
    }

    /// Compiles the patterns.
    pub fn new() -> (r: SourcePatterns)
        ensures
            r.wf(),
    {
        SourcePatterns { definition: Pattern::new(DEFINITION), import: Pattern::new(IMPORT) }
    }

    /// Whether `line` says what a source file is made of.
    pub fn is_important(&self, line: &str) -> (r: bool)
        ensures
            r == important(line@),
    {
        proof {
            use_type_invariant(self);
        }
        let text = trim(line);
        self.definition.is_match(text) || self.import.is_match(text) || has_prefix(text, "pub ")
            || has_prefix(text, "export ") || same(text, "}") || same(text, "{")
    }
}

/// The mark for lines that were left out.
fn gap_line(left: usize) -> (r: String)
    ensures
        r@ == gap_mark(left as nat),
{
    let mut out = "    // ... ".to_owned();
    out.append(decimal_text(left).as_str());
    out.append(" lines omitted");
    out
}

/// The mark at the end.
fn end_line(left: usize, total: usize) -> (r: String)
    ensures
        r@ == end_mark(left as nat, total as nat),
{
    let mut out = "// ... ".to_owned();
    out.append(decimal_text(left).as_str());
    out.append(" more lines (total: ");
    out.append(decimal_text(total).as_str());
    out.append(")");
    out
}

/// What is shown of `lines` if there are more than `max`; `flags` tell which of
/// them are important.
pub fn shorten(lines: &[String], flags: &[bool], max: usize) -> (r: Vec<String>)
    requires
        lines@.len() == flags@.len(),
    ensures
        texts(r@) == shortened(texts(lines@), flags@, max as nat),
{
    let n: usize = lines.len();
    let ghost all = texts(lines@);
    let mut out: Vec<String> = Vec::new();
    let mut kept: usize = 0;
    let mut gap = false;
    let mut i: usize = 0;
    assert(texts(out@) =~= shown_before(all, flags@, max as nat, 0));
    while i < n && (i == 0 || kept + 1 < max)
        invariant
            n == lines@.len(),
            n == flags@.len(),
            all == texts(lines@),
            i <= n,
            kept <= i,
            kept == kept_before(flags@, max as nat, i as int),
            gap == (i > 0 && !keeps(flags@, max as nat, i - 1)),
            texts(out@) == shown_before(all, flags@, max as nat, i as int),
            scanned(flags@, max as nat, 0) == scanned(flags@, max as nat, i as int),
        decreases n - i,
    {
        let ghost was = texts(out@);
        if flags[i] || kept < max / 2 {
            if gap {
                let mark = gap_line(n - kept);
                let ghost text = mark@;
                out.push(mark);
                assert(texts(out@) =~= was.push(text));
                gap = false;
            }
            let ghost now = texts(out@);
            out.push(lines[i].clone());
            assert(texts(out@) =~= now.push(all[i as int]));
            kept = kept + 1;
        } else {
            gap = true;
        }
        i = i + 1;
    }
    if kept < n {
        let mark = end_line(n - kept, n);
        let ghost was = texts(out@);
        let ghost text = mark@;
        out.push(mark);
        assert(texts(out@) =~= was.push(text));
    }
    out
}

/// `content` shortened to about `max` lines: the first lines and the important
/// ones are kept, whatever the language.
pub fn smart_truncate(content: &str, max: usize, _lang: &Language) -> (r: String)
    ensures
        r@ == smart_truncated(content@, max as nat),
{
    let all = lines(content);
    let n: usize = all.len();
    assert(texts(all@).len() == n);
    if n <= max {
        return content.to_owned();
    }
    let patterns = SourcePatterns::new();
    let mut flags: Vec<bool> = Vec::new();
    for i in 0..n
        invariant
            n == all@.len(),
            flags@.len() == i,
            forall|k: int| 0 <= k < i ==> #[trigger] flags@[k] == important(all@[k]@),
    {
        flags.push(patterns.is_important(all[i].as_str()));
    }
    assert(flags@ =~= texts(all@).map_values(|line: Seq<char>| important(line)));
    let out = shorten(all.as_slice(), flags.as_slice(), max);
    join(out.as_slice(), "\n")
}

} // verus!
