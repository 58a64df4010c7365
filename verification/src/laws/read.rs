//! Showing a file: which of its lines, and with which numbers.
use crate::decimal::{decimal, is_digit, lemma_decimal_value};
use crate::filter::smart_truncated;
use crate::lines::{
    ends_with_newline, lemma_lines_plain, lemma_split_add, lemma_split_plain, lines_of,
    split_newlines,
};
use crate::system::read::{
    gutter_width, lemma_gutter, lemma_tail_pieces, numbered, numbered_line, numbered_lines, padded,
    shown, tail_text,
};
use vstd::prelude::*;
use vstd::string::*;

verus! {

/// Without numbers: the last lines where they are asked for; else the content,
/// shortened where a number of lines is given.
pub proof fn lemma_window(content: Seq<char>, max: usize, tail: usize, max_lines: Option<usize>)
    ensures
        shown(content, None, None, false) == content,
        shown(content, Some(max), None, false) == smart_truncated(content, max as nat),
        shown(content, max_lines, Some(0), false).len() == 0,
        shown(content, max_lines, Some(tail), false) == tail_text(content, tail as nat),
{
}

/// The last `tail` lines are those of the content, from the one that as many follow
/// as are missing, and end with a newline if the content does.
pub proof fn lemma_tail(content: Seq<char>, tail: nat)
    requires
        tail > 0,
    ensures
        content.len() == 0 ==> tail_text(content, tail).len() == 0,
        content.len() > 0 ==> ({
            let all = lines_of(content);
            let start = if all.len() > tail {
                all.len() - tail
            } else {
                0
            };
            let pieces = split_newlines(tail_text(content, tail));
            &&& ends_with_newline(content) ==> pieces == all.skip(start).push(Seq::empty())
            &&& !ends_with_newline(content) ==> pieces == all.skip(start)
        }),
{
    lemma_tail_pieces(content, tail);
}

/// With numbers the same lines are shown, each with the number that it has in the
/// whole content.
pub proof fn lemma_shown_numbers(
    content: Seq<char>,
    max_lines: Option<usize>,
    tail_lines: Option<usize>,
)
    ensures
        ({
            let n = lines_of(content).len();
            let first = match tail_lines {
                Some(tail) => if 0 < tail < n {
                    n - tail + 1
                } else {
                    1
                },
                None => 1,
            };
            shown(content, max_lines, tail_lines, true) == numbered(
                shown(content, max_lines, tail_lines, false),
                first as nat,
            )
        }),
{
}

proof fn lemma_row(line: Seq<char>, number: nat, width: nat)
    requires
        !line.contains('\n'),
    ensures
        !(padded(decimal(number), width) + " │ "@ + line).contains('\n'),
{
    reveal_strlit(" │ ");
    lemma_decimal_value(number);
    let digits = decimal(number);
    let pad = padded(digits, width);
    let row = pad + " │ "@ + line;
    if row.contains('\n') {
        let k = choose|k: int| 0 <= k < row.len() && row[k] == '\n';
        if k < pad.len() {
            let gap = pad.len() - digits.len();
            if k >= gap {
                assert(is_digit(digits[k - gap]));
            }
        } else if k >= pad.len() + 3 {
            assert(line[k - pad.len() - 3] == '\n');
        }
    }
}

proof fn lemma_rows(lines: Seq<Seq<char>>, start: nat, width: nat, n: int) -> (rows: Seq<
    Seq<char>,
>)
    requires
        0 <= n <= lines.len(),
        forall|i: int| 0 <= i < lines.len() ==> !(#[trigger] lines[i]).contains('\n'),
    ensures
        rows.len() == n,
        split_newlines(numbered_lines(lines, start, width, n)) == rows.push(Seq::empty()),
        forall|i: int|
            0 <= i < n ==> #[trigger] rows[i] == padded(decimal((start + i) as nat), width)
                + " │ "@ + lines[i],
    decreases n,
{
    if n == 0 {
        assert(split_newlines(Seq::<char>::empty()) =~= seq![Seq::<char>::empty()]);
        assert(Seq::<Seq<char>>::empty().push(Seq::empty()) =~= seq![Seq::<char>::empty()]);
        Seq::empty()
    } else {
        reveal_strlit("\n");
        let before = lemma_rows(lines, start, width, n - 1);
        let number = (start + n - 1) as nat;
        let row = padded(decimal(number), width) + " │ "@ + lines[n - 1];
        lemma_row(lines[n - 1], number, width);
        let text = numbered_lines(lines, start, width, n - 1);
        let whole = numbered_lines(lines, start, width, n);
        assert(numbered_line(lines[n - 1], number, width) == row + "\n"@);
        let pair = seq![row, Seq::<char>::empty()];
        assert(split_newlines(row + "\n"@) =~= pair) by {
            lemma_split_plain(row);
            assert((row + "\n"@).drop_last() =~= row);
        }
        let rows = before.push(row);
        if n == 1 {
            assert(whole =~= row + "\n"@);
            assert(rows.push(Seq::empty()) =~= pair);
        } else {
            lemma_ended(text, before);
            let front = text.drop_last();
            assert(whole =~= front + "\n"@ + (row + "\n"@));
            lemma_split_add(front, row + "\n"@);
            assert(split_newlines(whole) =~= rows.push(Seq::empty()));
        }
        rows
    }
}

/// A text of which the last piece is empty, and not the only one, ends with a
/// newline.
proof fn lemma_ended(text: Seq<char>, rows: Seq<Seq<char>>)
    requires
        split_newlines(text) == rows.push(Seq::empty()),
        rows.len() > 0,
    ensures
        text.len() > 0,
        text.last() == '\n',
        split_newlines(text.drop_last()) == rows,
        text == text.drop_last() + "\n"@,
{
    reveal_strlit("\n");
    assert(rows.push(Seq::empty()).len() >= 2);
    assert(text.len() > 0);
    let last = rows.push(Seq::empty()).last();
    if text.last() == '\n' {
        assert(split_newlines(text).drop_last() =~= rows);
        assert(split_newlines(text).drop_last() =~= split_newlines(text.drop_last()));
        assert(text =~= text.drop_last() + "\n"@);
    } else {
        assert(split_newlines(text).last().len() > 0);
        assert(last.len() == 0);
    }
}

/// Whether the blanks `gap` make `number` as wide as `largest`.
pub open spec fn fills(gap: Seq<char>, number: nat, largest: nat) -> bool {
    &&& forall|k: int| 0 <= k < gap.len() ==> gap[k] == ' '
    &&& gap.len() + decimal(number).len() == decimal(largest).len()
}

/// Whether `row` shows `line` with its number, as wide as the number `largest`.
pub open spec fn is_row(row: Seq<char>, number: nat, largest: nat, line: Seq<char>) -> bool {
    exists|gap: Seq<char>| #[trigger]
        fills(gap, number, largest) && row == gap + decimal(number) + " │ "@ + line
}

/// With numbers there is a row for each line: blanks, the number of the line, a bar
/// and the line. What stands before the bar is as wide in all rows as the largest
/// number.
pub proof fn lemma_numbered(content: Seq<char>, start: nat) -> (rows: Seq<Seq<char>>)
    requires
        start > 0,
    ensures
        rows.len() == lines_of(content).len(),
        split_newlines(numbered(content, start)) == rows.push(Seq::empty()),
        forall|i: int|
            0 <= i < rows.len() ==> is_row(
                #[trigger] rows[i],
                (start + i) as nat,
                (start + rows.len() - 1) as nat,
                lines_of(content)[i],
            ),
{
    let all = lines_of(content);
    let width = gutter_width(all.len(), start);
    lemma_lines_plain(content);
    let rows = lemma_rows(all, start, width, all.len() as int);
    assert forall|i: int| 0 <= i < rows.len() implies is_row(
        #[trigger] rows[i],
        (start + i) as nat,
        (start + rows.len() - 1) as nat,
        all[i],
    ) by {
        let digits = decimal((start + i) as nat);
        lemma_gutter(all.len(), start, i);
        let missing = width - digits.len();
        let gap = Seq::new(missing as nat, |k: int| ' ');
        assert(padded(digits, width) =~= gap + digits);
        assert(fills(gap, (start + i) as nat, (start + rows.len() - 1) as nat));
        assert(rows[i] == gap + digits + " │ "@ + all[i]);
    }
    rows
}

} // verus!
