//! What the build filters have in common: drop some lines, show the others.
use crate::lines::{join, joined};
use crate::text::{blank, is_blank, texts, trim_end, trimmed_end};
use crate::utils::{truncate, truncated};
use vstd::prelude::*;

verus! {

/// The lines that are neither dropped nor blank, in order.
pub open spec fn kept_lines(lines: Seq<Seq<char>>, dropped: Seq<bool>) -> Seq<Seq<char>>
    decreases lines.len(),
{
    if lines.len() == 0 {
        Seq::empty()
    } else {
        let before = kept_lines(lines.drop_last(), dropped.drop_last());
        if dropped.last() || blank(lines.last()) {
            before
        } else {
            before.push(lines.last())
        }
    }
}

/// The lines without their trailing whitespace.
pub open spec fn ends_trimmed(lines: Seq<Seq<char>>) -> Seq<Seq<char>> {
    lines.map_values(|line: Seq<char>| trimmed_end(line))
}

/// The lines cut to `width` characters, one below the other; `when_empty` if
/// there are none.
pub open spec fn rendered(
    lines: Seq<Seq<char>>,
    width: nat,
    when_empty: Seq<char>,
) -> Seq<char> {
    if lines.len() == 0 {
        when_empty
    } else {
        joined(lines.map_values(|line: Seq<char>| truncated(line, width)), "\n"@)
    }
}

/// Whether a line is dropped: noise is, unless it is one of the lines that are
/// always kept.
pub open spec fn drops(preserved: bool, noise: bool) -> bool {
    !preserved && noise
}

/// What is shown of `lines`: those that are neither dropped nor blank, without
/// trailing whitespace.
pub open spec fn reported(
    lines: Seq<Seq<char>>,
    dropped: Seq<bool>,
    width: nat,
    when_empty: Seq<char>,
) -> Seq<char> {
    rendered(ends_trimmed(kept_lines(lines, dropped)), width, when_empty)
}

/// A line that is neither dropped nor blank is kept.
pub proof fn lemma_kept(lines: Seq<Seq<char>>, dropped: Seq<bool>, i: int)
    requires
        lines.len() == dropped.len(),
        0 <= i < lines.len(),
        !dropped[i],
        !blank(lines[i]),
    ensures
        kept_lines(lines, dropped).contains(lines[i]),
    decreases lines.len(),
{
    let before = kept_lines(lines.drop_last(), dropped.drop_last());
    let now = kept_lines(lines, dropped);
    if i == lines.len() - 1 {
        assert(now[now.len() - 1] == lines[i]);
    } else {
        lemma_kept(lines.drop_last(), dropped.drop_last(), i);
        let j = choose|j: int| 0 <= j < before.len() && before[j] == lines[i];
        assert(now[j] == lines[i]);
    }
}

/// What is kept is a line that was neither dropped nor blank.
pub proof fn lemma_kept_source(lines: Seq<Seq<char>>, dropped: Seq<bool>, j: int)
    requires
        lines.len() == dropped.len(),
        0 <= j < kept_lines(lines, dropped).len(),
    ensures
        exists|i: int|
            0 <= i < lines.len() && !dropped[i] && !blank(lines[i]) && kept_lines(lines, dropped)[j]
                == #[trigger] lines[i],
    decreases lines.len(),
{
    let before = kept_lines(lines.drop_last(), dropped.drop_last());
    let n = lines.len() - 1;
    if j < before.len() {
        lemma_kept_source(lines.drop_last(), dropped.drop_last(), j);
        let i = choose|i: int|
            0 <= i < n && !dropped.drop_last()[i] && !blank(lines.drop_last()[i]) && before[j]
                == #[trigger] lines.drop_last()[i];
        assert(kept_lines(lines, dropped)[j] == lines[i]);
    } else {
        assert(kept_lines(lines, dropped)[j] == lines[n]);
    }
}

/// The lines that are neither dropped nor blank, in order.
pub fn keep_lines(lines: &[String], dropped: &[bool]) -> (r: Vec<String>)
    requires
        lines@.len() == dropped@.len(),
    ensures
        texts(r@) == kept_lines(texts(lines@), dropped@),
{
    let n: usize = lines.len();
    let mut out: Vec<String> = Vec::new();
    assert(texts(out@) =~= Seq::empty());
    for i in 0..n
        invariant
            n == lines@.len(),
            n == dropped@.len(),
            texts(out@) == kept_lines(texts(lines@).take(i as int), dropped@.take(i as int)),
    {
        assert(texts(lines@).take(i + 1).drop_last() =~= texts(lines@).take(i as int));
        assert(dropped@.take(i + 1).drop_last() =~= dropped@.take(i as int));
        let ghost before = texts(out@);
        if !dropped[i] && !is_blank(lines[i].as_str()) {
            out.push(lines[i].clone());
            assert(texts(out@) =~= before.push(texts(lines@)[i as int]));
        }
    }
    assert(texts(lines@).take(n as int) =~= texts(lines@));
    assert(dropped@.take(n as int) =~= dropped@);
    out
}

/// The lines without their trailing whitespace.
pub fn trim_ends(lines: &[String]) -> (r: Vec<String>)
    ensures
        texts(r@) == ends_trimmed(texts(lines@)),
{
    let n: usize = lines.len();
    let mut out: Vec<String> = Vec::new();
    for i in 0..n
        invariant
            n == lines@.len(),
            out@.len() == i,
            forall|k: int| 0 <= k < i ==> (#[trigger] out@[k])@ == trimmed_end(lines@[k]@),
    {
        out.push(trim_end(lines[i].as_str()).to_owned());
    }
    assert(texts(out@) =~= ends_trimmed(texts(lines@)));
    out
}

/// The lines cut to `width` characters, one below the other; `when_empty` if
/// there are none.
pub fn render_lines(lines: &[String], width: usize, when_empty: &str) -> (r: String)
    ensures
        r@ == rendered(texts(lines@), width as nat, when_empty@),
{
    let n: usize = lines.len();
    if n == 0 {
        return when_empty.to_owned();
    }
    let mut cut: Vec<String> = Vec::new();
    for i in 0..n
        invariant
            n == lines@.len(),
            cut@.len() == i,
            forall|k: int| 0 <= k < i ==> (#[trigger] cut@[k])@ == truncated(
                lines@[k]@,
                width as nat,
            ),
    {
        cut.push(truncate(lines[i].as_str(), width));
    }
    assert(texts(cut@) =~= texts(lines@).map_values(
        |line: Seq<char>| truncated(line, width as nat),
    ));
    join(cut.as_slice(), "\n")
}

/// Whether a line is dropped.
pub fn drops_line(preserved: bool, noise: bool) -> (r: bool)
    ensures
        r == drops(preserved, noise),
{
    !preserved && noise
}

/// What is shown of `lines`.
pub fn report(lines: &[String], dropped: &[bool], width: usize, when_empty: &str) -> (r: String)
    requires
        lines@.len() == dropped@.len(),
    ensures
        r@ == reported(texts(lines@), dropped@, width as nat, when_empty@),
{
    let kept = keep_lines(lines, dropped);
    let shown = trim_ends(kept.as_slice());
    render_lines(shown.as_slice(), width, when_empty)
}

} // verus!
