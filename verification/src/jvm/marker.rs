//! The lines that stand for what a filter left out.
use crate::decimal::{decimal, decimal_text, is_digit, lemma_decimal_value};
use crate::text::{blank, trim_start, trimmed_start};
use vstd::prelude::*;
use vstd::string::*;

verus! {

/// The line that stands for `n` repeats.
pub open spec fn repeat_marker(n: nat) -> Seq<char> {
    "(... repeated "@ + decimal(n) + " more times ...)"@
}

/// The line that stands for `n` frames.
pub open spec fn omission_marker(n: nat) -> Seq<char> {
    "(... "@ + decimal(n) + " frames omitted ...)"@
}

/// Whether `line` starts with a bracket, leading whitespace aside, as markers do.
pub open spec fn bracketed(line: Seq<char>) -> bool {
    let text = trimmed_start(line);
    text.len() > 0 && text[0] == '('
}

/// A marker ends with a closing bracket, so not with a newline.
pub proof fn lemma_marker_last(n: nat)
    ensures
        repeat_marker(n).len() > 0,
        repeat_marker(n).last() == ')',
{
    reveal_strlit(" more times ...)");
}

/// A number between two texts without a newline makes a text without one.
proof fn lemma_number_plain(front: Seq<char>, n: nat, back: Seq<char>)
    requires
        !front.contains('\n'),
        !back.contains('\n'),
    ensures
        !(front + decimal(n) + back).contains('\n'),
{
    lemma_decimal_value(n);
    let whole = front + decimal(n) + back;
    let digits = decimal(n);
    assert forall|k: int| 0 <= k < whole.len() implies whole[k] != '\n' by {
        if k < front.len() {
            assert(front[k] != '\n');
        } else if k < front.len() + digits.len() {
            assert(is_digit(digits[k - front.len()]));
        } else {
            assert(back[k - front.len() - digits.len()] != '\n');
        }
    }
}

/// A marker for repeats is a single line that starts with a bracket.
pub proof fn lemma_marker_plain(n: nat)
    ensures
        repeat_marker(n).len() > 0,
        !repeat_marker(n).contains('\n'),
        trimmed_start(repeat_marker(n)) == repeat_marker(n),
        bracketed(repeat_marker(n)),
        !blank(repeat_marker(n)),
{
    reveal_strlit("(... repeated ");
    reveal_strlit(" more times ...)");
    lemma_number_plain("(... repeated "@, n, " more times ...)"@);
    assert(repeat_marker(n)[0] == '(');
}

/// A marker for frames is a single line that starts with a bracket.
pub proof fn lemma_omission_plain(n: nat)
    ensures
        !omission_marker(n).contains('\n'),
        bracketed(omission_marker(n)),
{
    reveal_strlit("(... ");
    reveal_strlit(" frames omitted ...)");
    lemma_number_plain("(... "@, n, " frames omitted ...)"@);
    assert(omission_marker(n)[0] == '(');
}

/// Whether `line` starts with a bracket, leading whitespace aside.
pub fn is_bracketed(line: &str) -> (r: bool)
    ensures
        r == bracketed(line@),
{
    let text = trim_start(line);
    text.unicode_len() > 0 && text.get_char(0) == '('
}

/// The line that stands for `n` repeats.
pub fn repeat_line(n: usize) -> (r: String)
    ensures
        r@ == repeat_marker(n as nat),
{
    "(... repeated ".to_owned().concat(decimal_text(n).as_str()).concat(" more times ...)")
}

/// The line that stands for `n` frames.
pub fn omission_line(n: usize) -> (r: String)
    ensures
        r@ == omission_marker(n as nat),
{
    "(... ".to_owned().concat(decimal_text(n).as_str()).concat(" frames omitted ...)")
}

} // verus!
