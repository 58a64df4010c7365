//! Helpers that several filters share.
use crate::pattern::{replaced, Pattern};
use vstd::prelude::*;
use vstd::string::*;

verus! {

/// A terminal escape sequence for colours and cursor movement.
pub const ANSI_ESCAPE: &'static str = r"\x1b\[[0-9;]*[a-zA-Z]";

/// `s` cut to at most `max` characters, of which the last three are dots if
/// something was cut off.
pub open spec fn truncated(s: Seq<char>, max: nat) -> Seq<char> {
    if s.len() <= max {
        s
    } else if max < 3 {
        "..."@
    } else {
        s.take(max - 3) + "..."@
    }
}

/// `s` without terminal escape sequences.
pub open spec fn without_ansi(s: Seq<char>) -> Seq<char> {
    replaced(ANSI_ESCAPE@, s, ""@)
}

/// What was cut has the length it was cut to.
pub proof fn lemma_truncated_length(s: Seq<char>, max: nat)
    requires
        max >= 3,
    ensures
        truncated(s, max).len() <= max,
        s.len() > max ==> truncated(s, max).len() == max,
{
    reveal_strlit("...");
}

/// `s` cut to at most `max` characters, of which the last three are dots if
/// something was cut off.
pub fn truncate(s: &str, max: usize) -> (r: String)
    ensures
        r@ == truncated(s@, max as nat),
{
    if s.unicode_len() <= max {
        s.to_owned()
    } else if max < 3 {
        "...".to_owned()
    } else {
        assert(s@.subrange(0, max - 3) =~= s@.take(max - 3));
        s.substring_char(0, max - 3).to_owned().concat("...")
    }
}

/// `text` without terminal escape sequences.
pub fn strip_ansi(text: &str) -> (r: String)
    ensures
        r@ == without_ansi(text@),
{
    Pattern::new(ANSI_ESCAPE).replace_all(text, "")
}

} // verus!
