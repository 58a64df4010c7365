//! Shortening source code: which lines stay, and what tells of the others.
use crate::decimal::decimal;
use crate::filter::{
    enough, gap_mark, important, keeps, kept_before, language_of, scanned, shortened, shown_before,
    smart_truncated, Language, DEFINITION, IMPORT,
};
use crate::lines::{joined, lines_of};
use crate::pattern::matched;
use crate::text::{starts_with, trimmed};
use vstd::prelude::*;
use vstd::string::*;

verus! {

/// Definitions, imports, what is exported and single braces are important, however
/// far they are indented.
pub proof fn lemma_important(line: Seq<char>)
    ensures
        matched(DEFINITION@, trimmed(line)) ==> important(line),
        matched(IMPORT@, trimmed(line)) ==> important(line),
        starts_with(trimmed(line), "pub "@) ==> important(line),
        starts_with(trimmed(line), "export "@) ==> important(line),
        trimmed(line) == "{"@ || trimmed(line) == "}"@ ==> important(line),
        !matched(DEFINITION@, trimmed(line)) && !matched(IMPORT@, trimmed(line)) && !starts_with(
            trimmed(line),
            "pub "@,
        ) && !starts_with(trimmed(line), "export "@) && trimmed(line) != "{"@ && trimmed(line)
            != "}"@ ==> !important(line),
{
}

/// Whether `idx` are the lines that are kept of the first `end`: those that are
/// important, and the first `half` in any case.
pub open spec fn are_kept(flags: Seq<bool>, half: int, end: int, idx: Seq<int>) -> bool {
    &&& forall|j: int|
        0 <= j < idx.len() ==> 0 <= #[trigger] idx[j] < end && (flags[idx[j]] || j < half)
    &&& forall|j: int, k: int| 0 <= j < k < idx.len() ==> #[trigger] idx[j] < #[trigger] idx[k]
    &&& forall|i: int|
        0 <= i < end && !idx.contains(i) ==> !(#[trigger] flags[i]) && half <= idx.len() && forall|
            j: int,
        |
            0 <= j < half ==> #[trigger] idx[j] < i
}

/// Whether `rows` shows the `j`th of the lines `idx` at `pos[j]`, behind the one before
/// it, with a mark between them where lines were left out.
pub open spec fn shows_at(
    lines: Seq<Seq<char>>,
    idx: Seq<int>,
    pos: Seq<int>,
    rows: Seq<Seq<char>>,
    j: int,
) -> bool {
    let next = if j == 0 {
        0
    } else {
        pos[j - 1] + 1
    };
    let due = if j == 0 {
        0
    } else {
        idx[j - 1] + 1
    };
    &&& 0 <= next <= pos[j] < rows.len()
    &&& rows[pos[j]] == lines[idx[j]]
    &&& idx[j] == due ==> pos[j] == next
    &&& idx[j] != due ==> pos[j] == next + 1 && rows[next] == "    // ... "@ + decimal(
        (lines.len() - j) as nat,
    ) + " lines omitted"@
}

/// Whether `rows` shows the lines `idx`, and nothing else but marks.
pub open spec fn shows_kept(
    lines: Seq<Seq<char>>,
    idx: Seq<int>,
    pos: Seq<int>,
    rows: Seq<Seq<char>>,
) -> bool {
    &&& pos.len() == idx.len()
    &&& idx.len() == 0 ==> rows.len() == 0
    &&& idx.len() > 0 ==> rows.len() == pos.last() + 1
    &&& forall|j: int| 0 <= j < idx.len() ==> #[trigger] shows_at(lines, idx, pos, rows, j)
}

proof fn lemma_keep(flags: Seq<bool>, half: int, i: int, was: Seq<int>)
    requires
        0 <= i < flags.len(),
        are_kept(flags, half, i, was),
        flags[i] || was.len() < half,
    ensures
        are_kept(flags, half, i + 1, was.push(i)),
{
    let idx = was.push(i);
    assert forall|j: int| 0 <= j < idx.len() implies 0 <= #[trigger] idx[j] < i + 1 && (
    flags[idx[j]] || j < half) by {
        if j < was.len() {
            assert(idx[j] == was[j]);
        }
    }
    assert forall|k: int| 0 <= k < i + 1 && !idx.contains(k) implies !(#[trigger] flags[k])
        && half <= idx.len() && forall|j: int| 0 <= j < half ==> #[trigger] idx[j] < k by {
        if k == i {
            assert(idx[idx.len() - 1] == i);
        }
        if was.contains(k) {
            let j = choose|j: int| 0 <= j < was.len() && was[j] == k;
            assert(idx[j] == k);
        }
        assert(!flags[k] && half <= was.len());
        assert forall|j: int| 0 <= j < half implies #[trigger] idx[j] < k by {
            assert(idx[j] == was[j]);
        }
    }
}

proof fn lemma_skip(flags: Seq<bool>, half: int, i: int, was: Seq<int>)
    requires
        0 <= i < flags.len(),
        are_kept(flags, half, i, was),
        !flags[i] && was.len() >= half,
    ensures
        are_kept(flags, half, i + 1, was),
{
}

proof fn lemma_show(
    lines: Seq<Seq<char>>,
    was: Seq<int>,
    at: Seq<int>,
    before: Seq<Seq<char>>,
    i: int,
)
    requires
        shows_kept(lines, was, at, before),
    ensures
        ({
            let due = if was.len() == 0 {
                0
            } else {
                was.last() + 1
            };
            let mark = gap_mark((lines.len() - was.len()) as nat);
            let n = before.len() as int;
            &&& i == due ==> shows_kept(lines, was.push(i), at.push(n), before.push(lines[i]))
            &&& i != due ==> shows_kept(
                lines,
                was.push(i),
                at.push(n + 1),
                before.push(mark).push(lines[i]),
            )
        }),
{
    let due = if was.len() == 0 {
        0
    } else {
        was.last() + 1
    };
    let mark = gap_mark((lines.len() - was.len()) as nat);
    let n = before.len() as int;
    let idx = was.push(i);
    let (pos, rows) = if i == due {
        (at.push(n), before.push(lines[i]))
    } else {
        (at.push(n + 1), before.push(mark).push(lines[i]))
    };
    assert forall|j: int| 0 <= j < idx.len() implies #[trigger] shows_at(
        lines,
        idx,
        pos,
        rows,
        j,
    ) by {
        if j < was.len() {
            assert(shows_at(lines, was, at, before, j));
            assert(pos[j] == at[j] && idx[j] == was[j]);
        }
        if j > 0 {
            assert(pos[j - 1] == at[j - 1] && idx[j - 1] == was[j - 1]);
        }
    }
}

proof fn lemma_shown(
    lines: Seq<Seq<char>>,
    flags: Seq<bool>,
    max: nat,
    end: int,
) -> (r: (Seq<int>, Seq<int>))
    requires
        0 <= end <= flags.len(),
        lines.len() == flags.len(),
    ensures
        are_kept(flags, max as int / 2, end, r.0),
        shows_kept(lines, r.0, r.1, shown_before(lines, flags, max, end)),
        r.0.len() == kept_before(flags, max, end),
        r.0.len() > 0 && r.0.last() == end - 1 <==> end > 0 && keeps(flags, max, end - 1),
    decreases end,
{
    let half = max as int / 2;
    if end == 0 {
        (Seq::empty(), Seq::empty())
    } else {
        let i = end - 1;
        let (was, at) = lemma_shown(lines, flags, max, i);
        let before = shown_before(lines, flags, max, i);
        if keeps(flags, max, i) {
            lemma_keep(flags, half, i, was);
            lemma_show(lines, was, at, before, i);
            let n = before.len() as int;
            if i > 0 && !keeps(flags, max, i - 1) {
                (was.push(i), at.push(n + 1))
            } else {
                (was.push(i), at.push(n))
            }
        } else {
            lemma_skip(flags, half, i, was);
            if was.len() > 0 {
                assert(was[was.len() - 1] < i);
            }
            (was, at)
        }
    }
}

proof fn lemma_scan(flags: Seq<bool>, max: nat, i: int)
    requires
        0 <= i <= flags.len(),
    ensures
        ({
            let end = scanned(flags, max, i);
            &&& i <= end <= flags.len()
            &&& end < flags.len() ==> end > 0 && enough(flags, max, end)
            &&& forall|k: int| i <= k < end && k > 0 ==> !#[trigger] enough(flags, max, k)
        }),
    decreases flags.len() - i,
{
    if i < flags.len() && !(i > 0 && enough(flags, max, i)) {
        lemma_scan(flags, max, i + 1);
    }
}

/// Of a content that is too long the first half of `max` lines and the important ones
/// are shown, in order, until `max` less one are kept; between them marks tell that
/// lines are missing, and a mark at the end tells how many.
pub proof fn lemma_shortened(lines: Seq<Seq<char>>, flags: Seq<bool>, max: nat) -> (r: (
    int,
    Seq<int>,
    Seq<int>,
    Seq<Seq<char>>,
))
    requires
        lines.len() == flags.len(),
    ensures
        ({
            let (end, idx, pos, rows) = r;
            let n = idx.len();
            &&& 0 <= end <= lines.len()
            &&& are_kept(flags, max as int / 2, end, idx)
            &&& shows_kept(lines, idx, pos, rows)
            &&& end < lines.len() ==> n + 1 >= max && end > 0
            &&& end > 1 ==> n + 1 < max || (n > 0 && idx.last() == end - 1 && n < max)
            &&& n == lines.len() ==> shortened(lines, flags, max) == rows
            &&& n < lines.len() ==> shortened(lines, flags, max) == rows.push(
                "// ... "@ + decimal((lines.len() - n) as nat) + " more lines (total: "@ + decimal(
                    lines.len(),
                ) + ")"@,
            )
        }),
{
    let end = scanned(flags, max, 0);
    lemma_scan(flags, max, 0);
    let (idx, pos) = lemma_shown(lines, flags, max, end);
    let rows = shown_before(lines, flags, max, end);
    if end > 1 {
        assert(!enough(flags, max, end - 1));
    }
    lemma_kept_count(flags, max, end);
    (end, idx, pos, rows)
}

proof fn lemma_kept_count(flags: Seq<bool>, max: nat, i: int)
    requires
        0 <= i,
    ensures
        kept_before(flags, max, i) <= i,
    decreases i,
{
    if i > 0 {
        lemma_kept_count(flags, max, i - 1);
    }
}

/// A content that is short enough is unchanged; of another one the lines are
/// shortened, by which of them are important.
pub proof fn lemma_smart_truncated(content: Seq<char>, max: nat) -> (flags: Seq<bool>)
    ensures
        flags.len() == lines_of(content).len(),
        forall|i: int|
            0 <= i < flags.len() ==> #[trigger] flags[i] == important(lines_of(content)[i]),
        lines_of(content).len() <= max ==> smart_truncated(content, max) == content,
        lines_of(content).len() > max ==> smart_truncated(content, max) == joined(
            shortened(lines_of(content), flags, max),
            "\n"@,
        ),
{
    lines_of(content).map_values(|line: Seq<char>| important(line))
}

/// The extension alone tells the language.
pub proof fn lemma_language(ext: Seq<char>)
    ensures
        ext == "rs"@ ==> language_of(ext) == Language::Rust,
        ext == "py"@ || ext == "pyw"@ ==> language_of(ext) == Language::Python,
        ext == "js"@ || ext == "mjs"@ || ext == "cjs"@ ==> language_of(ext)
            == Language::JavaScript,
        ext == "ts"@ || ext == "tsx"@ ==> language_of(ext) == Language::TypeScript,
        ext == "go"@ ==> language_of(ext) == Language::Go,
        ext == "c"@ || ext == "h"@ ==> language_of(ext) == Language::C,
        ext == "cpp"@ || ext == "cc"@ || ext == "cxx"@ || ext == "hpp"@ || ext == "hh"@
            ==> language_of(ext) == Language::Cpp,
        ext == "java"@ ==> language_of(ext) == Language::Java,
        ext == "rb"@ ==> language_of(ext) == Language::Ruby,
        ext == "sh"@ || ext == "bash"@ || ext == "zsh"@ ==> language_of(ext) == Language::Shell,
        !seq![
            "rs"@,
            "py"@,
            "pyw"@,
            "js"@,
            "mjs"@,
            "cjs"@,
            "ts"@,
            "tsx"@,
            "go"@,
            "c"@,
            "h"@,
            "cpp"@,
            "cc"@,
            "cxx"@,
            "hpp"@,
            "hh"@,
            "java"@,
            "rb"@,
            "sh"@,
            "bash"@,
            "zsh"@,
        ].contains(ext) ==> language_of(ext) == Language::Unknown,
{
    let known = seq![
        "rs"@,
        "py"@,
        "pyw"@,
        "js"@,
        "mjs"@,
        "cjs"@,
        "ts"@,
        "tsx"@,
        "go"@,
        "c"@,
        "h"@,
        "cpp"@,
        "cc"@,
        "cxx"@,
        "hpp"@,
        "hh"@,
        "java"@,
        "rb"@,
        "sh"@,
        "bash"@,
        "zsh"@,
    ];
    assert(known[0] == "rs"@ && known[1] == "py"@ && known[2] == "pyw"@ && known[3] == "js"@);
    assert(known[4] == "mjs"@ && known[5] == "cjs"@ && known[6] == "ts"@ && known[7] == "tsx"@);
    assert(known[8] == "go"@ && known[9] == "c"@ && known[10] == "h"@ && known[11] == "cpp"@);
    assert(known[12] == "cc"@ && known[13] == "cxx"@ && known[14] == "hpp"@ && known[15] == "hh"@);
    assert(known[16] == "java"@ && known[17] == "rb"@ && known[18] == "sh"@ && known[19] == "bash"@);
    assert(known[20] == "zsh"@);
    reveal_strlit("rs");
    reveal_strlit("py");
    reveal_strlit("pyw");
    reveal_strlit("js");
    reveal_strlit("mjs");
    reveal_strlit("cjs");
    reveal_strlit("ts");
    reveal_strlit("tsx");
    reveal_strlit("go");
    reveal_strlit("c");
    reveal_strlit("h");
    reveal_strlit("cpp");
    reveal_strlit("cc");
    reveal_strlit("cxx");
    reveal_strlit("hpp");
    reveal_strlit("hh");
    reveal_strlit("java");
    reveal_strlit("rb");
    reveal_strlit("sh");
    reveal_strlit("bash");
    reveal_strlit("zsh");
    assert("rs"@.len() == 2 && "rs"@[0] == 'r' && "rs"@[1] == 's');
    assert("py"@.len() == 2 && "py"@[0] == 'p' && "py"@[1] == 'y');
    assert("pyw"@.len() == 3 && "pyw"@[0] == 'p' && "pyw"@[1] == 'y' && "pyw"@[2] == 'w');
    assert("js"@.len() == 2 && "js"@[0] == 'j' && "js"@[1] == 's');
    assert("mjs"@.len() == 3 && "mjs"@[0] == 'm' && "mjs"@[1] == 'j' && "mjs"@[2] == 's');
    assert("cjs"@.len() == 3 && "cjs"@[0] == 'c' && "cjs"@[1] == 'j' && "cjs"@[2] == 's');
    assert("ts"@.len() == 2 && "ts"@[0] == 't' && "ts"@[1] == 's');
    assert("tsx"@.len() == 3 && "tsx"@[0] == 't' && "tsx"@[1] == 's' && "tsx"@[2] == 'x');
    assert("go"@.len() == 2 && "go"@[0] == 'g' && "go"@[1] == 'o');
    assert("c"@.len() == 1 && "c"@[0] == 'c');
    assert("h"@.len() == 1 && "h"@[0] == 'h');
    assert("cpp"@.len() == 3 && "cpp"@[0] == 'c' && "cpp"@[1] == 'p' && "cpp"@[2] == 'p');
    assert("cc"@.len() == 2 && "cc"@[0] == 'c' && "cc"@[1] == 'c');
    assert("cxx"@.len() == 3 && "cxx"@[0] == 'c' && "cxx"@[1] == 'x' && "cxx"@[2] == 'x');
    assert("hpp"@.len() == 3 && "hpp"@[0] == 'h' && "hpp"@[1] == 'p' && "hpp"@[2] == 'p');
    assert("hh"@.len() == 2 && "hh"@[0] == 'h' && "hh"@[1] == 'h');
    assert("java"@.len() == 4 && "java"@[0] == 'j' && "java"@[1] == 'a');
    assert("java"@[2] == 'v' && "java"@[3] == 'a');
    assert("rb"@.len() == 2 && "rb"@[0] == 'r' && "rb"@[1] == 'b');
    assert("sh"@.len() == 2 && "sh"@[0] == 's' && "sh"@[1] == 'h');
    assert("bash"@.len() == 4 && "bash"@[0] == 'b' && "bash"@[1] == 'a');
    assert("bash"@[2] == 's' && "bash"@[3] == 'h');
    assert("zsh"@.len() == 3 && "zsh"@[0] == 'z' && "zsh"@[1] == 's' && "zsh"@[2] == 'h');
}

} // verus!
