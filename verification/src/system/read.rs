//! Showing a file: a window of its lines, and their numbers.
use crate::decimal::{decimal, decimal_text};
use crate::filter::{smart_truncate, smart_truncated, Language};
use crate::lines::{
    body_lines, ends_with_newline, joined, lemma_lines_plain, lemma_rejoin_body,
    lemma_split_joined, lemma_split_last, lines, lines_of, rejoin, rejoined, split_newlines,
    without_return,
};
use crate::text::{blank, is_blank, texts};
use vstd::prelude::*;
use vstd::string::*;

verus! {

/// Where the last `tail` of `n` lines start.
pub open spec fn tail_start(n: nat, tail: nat) -> int {
    if tail <= n {
        n - tail
    } else {
        0
    }
}

/// The last `tail` lines of `content`.
pub open spec fn tail_text(content: Seq<char>, tail: nat) -> Seq<char> {
    let all = lines_of(content);
    if tail == 0 {
        Seq::empty()
    } else {
        rejoined(all.skip(tail_start(all.len(), tail)), ends_with_newline(content))
    }
}

/// The number of the first of the last `tail` lines of `content`.
pub open spec fn tail_number(content: Seq<char>, tail: nat) -> int {
    if tail == 0 {
        1
    } else {
        tail_start(lines_of(content).len(), tail) + 1
    }
}

/// The part of `content` that is asked for. The end of it goes before a number
/// of lines, and without either it is all of it.
pub open spec fn window_text(
    content: Seq<char>,
    max_lines: Option<usize>,
    tail_lines: Option<usize>,
) -> Seq<char> {
    match (tail_lines, max_lines) {
        (Some(tail), _) => tail_text(content, tail as nat),
        (None, Some(max)) => smart_truncated(content, max as nat),
        (None, None) => content,
    }
}

/// The number of the first line of the part that is asked for.
pub open spec fn window_start(content: Seq<char>, tail_lines: Option<usize>) -> int {
    match tail_lines {
        Some(tail) => tail_number(content, tail as nat),
        None => 1,
    }
}

/// `text` with blanks in front of it, so that it is `width` characters long.
pub open spec fn padded(text: Seq<char>, width: nat) -> Seq<char> {
    if text.len() < width {
        Seq::new((width - text.len()) as nat, |i: int| ' ') + text
    } else {
        text
    }
}

/// How many characters the numbers of `n` lines take, the first of which is
/// `start`.
pub open spec fn gutter_width(n: nat, start: nat) -> nat {
    let last = if n > 0 {
        start + n - 1
    } else {
        start as int
    };
    if last > 1 {
        decimal(last as nat).len()
    } else {
        decimal(1).len()
    }
}

/// A line with its number in front of it.
pub open spec fn numbered_line(line: Seq<char>, number: nat, width: nat) -> Seq<char> {
    padded(decimal(number), width) + " │ "@ + line + "\n"@
}

/// The first `n` lines with their numbers.
pub open spec fn numbered_lines(
    lines: Seq<Seq<char>>,
    start: nat,
    width: nat,
    n: int,
) -> Seq<char>
    decreases n,
{
    if n <= 0 {
        Seq::empty()
    } else {
        numbered_lines(lines, start, width, n - 1) + numbered_line(
            lines[n - 1],
            (start + n - 1) as nat,
            width,
        )
    }
}

/// `content` with the number of each line in front of it.
pub open spec fn numbered(content: Seq<char>, start: nat) -> Seq<char> {
    let all = lines_of(content);
    numbered_lines(all, start, gutter_width(all.len(), start), all.len() as int)
}

/// What is shown of `content`.
pub open spec fn shown(
    content: Seq<char>,
    max_lines: Option<usize>,
    tail_lines: Option<usize>,
    line_numbers: bool,
) -> Seq<char> {
    let text = window_text(content, max_lines, tail_lines);
    if line_numbers {
        numbered(text, window_start(content, tail_lines) as nat)
    } else {
        text
    }
}

/// Whether no line of `s` ends with a carriage return.
pub open spec fn no_stray_returns(s: Seq<char>) -> bool {
    forall|i: int|
        0 <= i < lines_of(s).len() ==> without_return(#[trigger] lines_of(s)[i]) == lines_of(s)[i]
}

/// The last `tail` lines are as many lines, whatever stands in them.
pub proof fn lemma_tail_count(content: Seq<char>, tail: nat)
    requires
        tail > 0,
    ensures
        lines_of(tail_text(content, tail)).len() == lines_of(content).len() - tail_start(
            lines_of(content).len(),
            tail,
        ),
{
    lemma_tail_pieces(content, tail);
}

/// The last `tail` lines, taken apart at newlines.
pub proof fn lemma_tail_pieces(content: Seq<char>, tail: nat)
    requires
        tail > 0,
    ensures
        ({
            let all = lines_of(content);
            let part = all.skip(tail_start(all.len(), tail));
            let text = tail_text(content, tail);
            if ends_with_newline(content) {
                split_newlines(text) == part.push(Seq::empty())
            } else if content.len() == 0 {
                part.len() == 0 && text.len() == 0
            } else {
                split_newlines(text) == part && part.last().len() > 0
            }
        }),
{
    reveal_strlit("\n");
    let all = lines_of(content);
    let start = tail_start(all.len(), tail);
    let part = all.skip(start);
    let text = tail_text(content, tail);
    lemma_lines_plain(content);
    lemma_split_last(content);
    assert forall|i: int| 0 <= i < part.len() implies !(#[trigger] part[i]).contains('\n') by {
        assert(part[i] == all[start + i]);
    }
    if content.len() == 0 {
        assert(part =~= Seq::empty());
    } else {
        assert(all.len() > 0) by {
            if ends_with_newline(content) {
                assert(content =~= content.drop_last().push('\n'));
                lemma_split_last(content.drop_last());
            }
        }
        assert(part.len() > 0);
        lemma_split_joined(part);
        if ends_with_newline(content) {
            assert(text.drop_last() =~= joined(part, "\n"@));
        }
    }
}

/// The lines of the last `tail` lines are the last lines of the whole: each line
/// has the number, counted from the first one's, that it has in the whole.
pub proof fn lemma_tail_lines(content: Seq<char>, tail: nat)
    requires
        tail > 0,
        no_stray_returns(content),
    ensures
        lines_of(tail_text(content, tail)) == lines_of(content).skip(
            tail_number(content, tail) - 1,
        ),
{
    let all = lines_of(content);
    let start = tail_start(all.len(), tail);
    let part = all.skip(start);
    let text = tail_text(content, tail);
    lemma_tail_pieces(content, tail);
    assert forall|i: int| 0 <= i < part.len() implies without_return(#[trigger] part[i])
        == part[i] by {
        assert(part[i] == all[start + i]);
    }
    if ends_with_newline(content) {
        assert(split_newlines(text).drop_last() =~= part);
        assert(lines_of(text) =~= part);
    } else if content.len() == 0 {
        assert(text =~= Seq::empty());
        assert(lines_of(text) =~= part);
    } else {
        assert(lines_of(text) =~= part);
    }
}

/// More lines than there are give the whole, unless it holds carriage returns.
pub proof fn lemma_tail_whole(content: Seq<char>, tail: nat)
    requires
        tail > 0,
        tail >= lines_of(content).len(),
        !content.contains('\r'),
    ensures
        tail_text(content, tail) == content,
        tail_number(content, tail) == 1,
{
    let all = lines_of(content);
    let pieces = split_newlines(content);
    lemma_split_last(content);
    assert forall|i: int| 0 <= i < pieces.len() implies without_return(#[trigger] pieces[i])
        == pieces[i] by {
        if pieces[i].len() > 0 && pieces[i].last() == '\r' {
            lemma_piece_char(content, i, pieces[i].len() - 1);
        }
    }
    assert(all =~= body_lines(content));
    assert(all.skip(0) =~= all);
    if content.len() > 0 {
        lemma_rejoin_body(content);
    } else {
        assert(content =~= Seq::empty());
        assert(all =~= Seq::empty());
    }
}

/// The characters of a piece are characters of the text.
proof fn lemma_piece_char(s: Seq<char>, i: int, k: int)
    requires
        0 <= i < split_newlines(s).len(),
        0 <= k < split_newlines(s)[i].len(),
    ensures
        s.contains(split_newlines(s)[i][k]),
    decreases s.len(),
{
    if s.len() > 0 {
        let shorter = s.drop_last();
        let before = split_newlines(shorter);
        let c = split_newlines(s)[i][k];
        lemma_split_last(shorter);
        if i < before.len() && k < before[i].len() {
            lemma_piece_char(shorter, i, k);
            let at = choose|at: int| 0 <= at < shorter.len() && shorter[at] == before[i][k];
            assert(s[at] == c);
        } else {
            assert(s[s.len() - 1] == c);
        }
    }
}

proof fn lemma_decimal_length(a: nat, b: nat)
    requires
        a <= b,
    ensures
        decimal(a).len() <= decimal(b).len(),
    decreases b,
{
    if b >= 10 {
        lemma_decimal_length(a / 10, b / 10);
    }
}

/// The numbers of all lines are equally wide, so that the lines stand one below
/// the other.
pub proof fn lemma_gutter(n: nat, start: nat, i: int)
    requires
        0 <= i < n,
    ensures
        padded(decimal((start + i) as nat), gutter_width(n, start)).len() == gutter_width(n, start),
{
    let last = start + n - 1;
    if last > 1 {
        lemma_decimal_length((start + i) as nat, last as nat);
    } else {
        lemma_decimal_length((start + i) as nat, 1);
    }
}

/// Whether the last character of `s` is a newline.
fn has_final_newline(s: &str) -> (r: bool)
    ensures
        r == ends_with_newline(s@),
{
    let n: usize = s.unicode_len();
    n > 0 && s.get_char(n - 1) == '\n'
}

/// The part of `content` that is asked for, and the number of its first line.
/// The last `tail_lines` lines go before the first `max_lines`.
pub fn apply_line_window(
    content: &str,
    max_lines: Option<usize>,
    tail_lines: Option<usize>,
    lang: &Language,
) -> (r: (String, usize))
    ensures
        r.0@ == window_text(content@, max_lines, tail_lines),
        r.1 == window_start(content@, tail_lines),
{
    if let Some(tail) = tail_lines {
        if tail == 0 {
            return (String::new(), 1);
        }
        let all = lines(content);
        let n: usize = all.len();
        assert(texts(all@).len() == n);
        let start: usize = if tail <= n {
            n - tail
        } else {
            0
        };
        let mut part: Vec<String> = Vec::new();
        assert(texts(part@) =~= texts(all@).subrange(start as int, start as int));
        for i in start..n
            invariant
                start <= n,
                n == all@.len(),
                texts(part@) == texts(all@).subrange(start as int, i as int),
        {
            let ghost before = texts(part@);
            part.push(all[i].clone());
            assert(texts(part@) =~= before.push(texts(all@)[i as int]));
            assert(texts(all@).subrange(start as int, i + 1) =~= texts(all@).subrange(
                start as int,
                i as int,
            ).push(texts(all@)[i as int]));
        }
        assert(texts(part@) =~= texts(all@).skip(start as int));
        return (rejoin(part.as_slice(), has_final_newline(content)), start + 1);
    }
    if let Some(max) = max_lines {
        return (smart_truncate(content, max, lang), 1);
    }
    (content.to_owned(), 1)
}

/// `text` with blanks in front of it, so that it is `width` characters long.
pub fn pad_left(text: &str, width: usize) -> (r: String)
    ensures
        r@ == padded(text@, width as nat),
{
    let n: usize = text.unicode_len();
    let mut out = String::new();
    let missing: usize = if n < width {
        width - n
    } else {
        0
    };
    for i in 0..missing
        invariant
            out@ == Seq::new(i as nat, |k: int| ' '),
    {
        out.push(' ');
        assert(out@ =~= Seq::new((i + 1) as nat, |k: int| ' '));
    }
    out.append(text);
    assert(out@ =~= padded(text@, width as nat));
    out
}

/// `content` with the number of each line in front of it. The first line has
/// the number `start`.
pub fn format_with_line_numbers(content: &str, start: usize) -> (r: String)
    requires
        start + lines_of(content@).len() <= usize::MAX + 1,
    ensures
        r@ == numbered(content@, start as nat),
{
    let all = lines(content);
    let n: usize = all.len();
    assert(texts(all@).len() == n);
    let last: usize = if n > 0 {
        start + (n - 1)
    } else {
        start
    };
    let widest: usize = if last > 1 {
        last
    } else {
        1
    };
    let width: usize = decimal_text(widest).as_str().unicode_len();
    let mut out = String::new();
    for i in 0..n
        invariant
            n == all@.len(),
            start + n <= usize::MAX + 1,
            texts(all@) == lines_of(content@),
            out@ == numbered_lines(lines_of(content@), start as nat, width as nat, i as int),
    {
        let ghost before = out@;
        let number = decimal_text(start + i);
        let gutter = pad_left(number.as_str(), width);
        out.append(gutter.as_str());
        out.append(" │ ");
        out.append(all[i].as_str());
        out.append("\n");
        assert(all@[i as int]@ == lines_of(content@)[i as int]);
        assert(out@ =~= before + numbered_line(
            lines_of(content@)[i as int],
            (start + i) as nat,
            width as nat,
        ));
    }
    out
}

/// What is shown of `content`: the part that is asked for, with the number that
/// each line has in the whole if numbers are asked for.
pub fn show(
    content: &str,
    max_lines: Option<usize>,
    tail_lines: Option<usize>,
    line_numbers: bool,
    lang: &Language,
) -> (r: String)
    ensures
        r@ == shown(content@, max_lines, tail_lines, line_numbers),
{
    let (text, start) = apply_line_window(content, max_lines, tail_lines, lang);
    if !line_numbers {
        return text;
    }
    // Neither text has more lines than can be counted.
    let count: usize = lines(text.as_str()).len();
    let total: usize = lines(content).len();
    proof {
        assert(lines_of(text@).len() == count);
        assert(lines_of(content@).len() == total);
        if let Some(tail) = tail_lines {
            if tail > 0 {
                lemma_tail_count(content@, tail as nat);
            }
        }
    }
    format_with_line_numbers(text.as_str(), start)
}

/// Whether a filter left nothing of `content`, which is then shown as it is.
pub fn falls_back(content: &str, filtered: &str) -> (r: bool)
    ensures
        r == (blank(filtered@) && !blank(content@)),
{
    is_blank(filtered) && !is_blank(content)
}

/// What a filter made of `content`, or `content` itself where the filter left
/// nothing of it.
pub fn visible(content: &str, filtered: &str) -> (r: String)
    ensures
        r@ == (if blank(filtered@) && !blank(content@) {
            content@
        } else {
            filtered@
        }),
{
    if falls_back(content, filtered) {
        content.to_owned()
    } else {
        filtered.to_owned()
    }
}

} // verus!
