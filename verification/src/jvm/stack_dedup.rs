//! Collapses repeated stack traces.
//!
//! JVM tools print the same trace over and over. A block is a header line (an
//! exception, or `Caused by:`) and the continuation lines that follow it
//! (frames, `... N more`, `Caused by:`), among them at least one frame: a
//! header alone is no block. Blocks of the same text that follow
//! each other, with nothing but blank lines between them, are collapsed into
//! the first one and a marker that says how many more there were. Everything
//! else is preserved as it stands.
use crate::jvm::marker::{
    bracketed, is_bracketed, lemma_marker_last, lemma_marker_plain, repeat_line, repeat_marker,
};
use crate::lines::{
    body_lines, ends_with_newline, join, joined, lemma_body_last, lemma_body_plain,
    lemma_body_rejoined, lemma_joined_add, lemma_joined_last, lemma_joined_pieces,
    lemma_rejoin_body, lemma_rejoined_newline, lemma_rejoined_pieces, lemma_split_join,
    lemma_split_last, lemma_split_plain, rejoin, rejoined, split_body, split_newlines,
};
use crate::pattern::{matched, Pattern};
use crate::text::{blank, is_blank, same, texts, trim_start, trimmed_start};
use vstd::prelude::*;

verus! {

/// An exception or error header, such as `java.lang.RuntimeException: Boom`:
/// at least one dotted segment, and a class name that ends in `Exception`,
/// `Error` or `Throwable`, which may be the whole of it.
pub const EXCEPTION_HEADER: &'static str =
    r"^(?:[A-Za-z_][\w$]*\.)+(?:[A-Za-z_][\w$]*)?(?:Exception|Error|Throwable)(?::.*)?$";

/// The start of a nested cause.
pub const CAUSED_BY: &'static str = r"^Caused by:\s";

/// A stack frame.
pub const AT_FRAME: &'static str = r"^\s+at\s";

/// The line that stands for frames the JVM left out.
pub const MORE_FRAMES: &'static str = r"^\s+\.\.\.\s+\d+\s+more\s*$";

/// Whether `line` can start a block. No pattern of a trace takes a line that
/// starts with a bracket, as markers do.
pub open spec fn opens_block(line: Seq<char>) -> bool {
    !bracketed(line) && (matched(EXCEPTION_HEADER@, trimmed_start(line)) || matched(
        CAUSED_BY@,
        trimmed_start(line),
    ))
}

/// Whether `line` can continue a block.
pub open spec fn continues_block(line: Seq<char>) -> bool {
    !bracketed(line) && (matched(AT_FRAME@, line) || matched(MORE_FRAMES@, line) || matched(
        CAUSED_BY@,
        trimmed_start(line),
    ))
}

/// Whether `line` is a stack frame.
pub open spec fn at_frame(line: Seq<char>) -> bool {
    !bracketed(line) && matched(AT_FRAME@, line)
}

/// A line and what it can be part of.
pub struct BlockLine {
    pub text: Seq<char>,
    pub header: bool,
    pub continuation: bool,
    pub frame: bool,
}

/// A line, whether it can start or continue a block, and whether it is a frame.
pub struct TraceLine {
    pub text: String,
    pub header: bool,
    pub continuation: bool,
    pub frame: bool,
}

impl View for TraceLine {
    type V = BlockLine;

    open spec fn view(&self) -> BlockLine {
        BlockLine {
            text: self.text@,
            header: self.header,
            continuation: self.continuation,
            frame: self.frame,
        }
    }
}

/// The views of `lines`.
pub open spec fn block_lines(lines: Seq<TraceLine>) -> Seq<BlockLine> {
    Seq::new(lines.len(), |i: int| lines[i]@)
}

/// The texts of `lines`.
pub open spec fn line_texts(lines: Seq<BlockLine>) -> Seq<Seq<char>> {
    Seq::new(lines.len(), |i: int| lines[i].text)
}

/// The line `text` with what it can be part of.
pub open spec fn classified(text: Seq<char>) -> BlockLine {
    BlockLine {
        text,
        header: opens_block(text),
        continuation: continues_block(text),
        frame: at_frame(text),
    }
}

/// How many lines at the head of `lines` continue a block.
pub open spec fn continuation_count(lines: Seq<BlockLine>) -> nat
    decreases lines.len(),
{
    if lines.len() > 0 && lines[0].continuation {
        1 + continuation_count(lines.skip(1))
    } else {
        0
    }
}

/// How many lines the block has that starts with the first of `lines`.
pub open spec fn block_length(lines: Seq<BlockLine>) -> nat {
    1 + continuation_count(lines.skip(1))
}

/// Whether a block starts with the first of `lines`: a header, and at least one
/// frame among the lines that continue it.
pub open spec fn starts_block(lines: Seq<BlockLine>) -> bool {
    lines.len() > 0 && lines[0].header && exists|k: int|
        1 <= k < block_length(lines) && (#[trigger] lines[k]).frame
}

/// The text of the block that starts with the first of `lines`.
pub open spec fn block_text(lines: Seq<BlockLine>) -> Seq<char> {
    joined(line_texts(lines.take(block_length(lines) as int)), "\n"@)
}

/// How many blank lines stand at the head of `lines`.
pub open spec fn blank_count(lines: Seq<BlockLine>) -> nat
    decreases lines.len(),
{
    if lines.len() > 0 && blank(lines[0].text) && !lines[0].header {
        1 + blank_count(lines.skip(1))
    } else {
        0
    }
}

/// Whether a block of the text `block` comes next in `lines`, blank lines
/// aside.
pub open spec fn repeats(lines: Seq<BlockLine>, block: Seq<char>) -> bool {
    let b = blank_count(lines) as int;
    b < lines.len() && starts_block(lines.skip(b)) && block_text(lines.skip(b)) == block
}

/// Where the block ends that comes next in `lines`, blank lines aside.
pub open spec fn next_end(lines: Seq<BlockLine>) -> nat {
    let b = blank_count(lines);
    b + block_length(lines.skip(b as int))
}

/// How many blocks of the text `block` follow each other at the head of
/// `lines`, blank lines aside.
pub open spec fn repeat_count(lines: Seq<BlockLine>, block: Seq<char>) -> nat
    decreases lines.len(),
{
    if repeats(lines, block) {
        proof {
            lemma_next_end(lines);
        }
        1 + repeat_count(lines.skip(next_end(lines) as int), block)
    } else {
        0
    }
}

/// Where the last of those blocks ends.
pub open spec fn repeats_end(lines: Seq<BlockLine>, block: Seq<char>) -> nat
    decreases lines.len(),
{
    if repeats(lines, block) {
        proof {
            lemma_next_end(lines);
        }
        next_end(lines) + repeats_end(lines.skip(next_end(lines) as int), block)
    } else {
        0
    }
}

/// The marker for `n` repeats, if there are any.
pub open spec fn repeat_note(n: nat) -> Seq<Seq<char>> {
    if n > 0 {
        seq![repeat_marker(n)]
    } else {
        Seq::empty()
    }
}

/// `lines` with each block in one piece and its repeats collapsed.
pub open spec fn collapsed_blocks(lines: Seq<BlockLine>) -> Seq<Seq<char>>
    decreases lines.len(),
{
    if lines.len() == 0 {
        Seq::empty()
    } else if starts_block(lines) {
        let block = block_text(lines);
        let rest = lines.skip(block_length(lines) as int);
        proof {
            lemma_block_length(lines);
            lemma_repeats_end(rest, block);
        }
        seq![block] + repeat_note(repeat_count(rest, block)) + collapsed_blocks(
            rest.skip(repeats_end(rest, block) as int),
        )
    } else {
        seq![lines[0].text] + collapsed_blocks(lines.skip(1))
    }
}

/// `s` with its repeated stack traces collapsed.
pub open spec fn deduped_traces(s: Seq<char>) -> Seq<char> {
    if s.len() == 0 {
        Seq::empty()
    } else {
        rejoined(
            collapsed_blocks(body_lines(s).map_values(|line: Seq<char>| classified(line))),
            ends_with_newline(s),
        )
    }
}

/// No more lines continue a block than there are.
pub proof fn lemma_continuation_count(lines: Seq<BlockLine>)
    ensures
        continuation_count(lines) <= lines.len(),
    decreases lines.len(),
{
    if lines.len() > 0 && lines[0].continuation {
        lemma_continuation_count(lines.skip(1));
    }
}

/// A block lies within the lines.
pub proof fn lemma_block_length(lines: Seq<BlockLine>)
    requires
        lines.len() > 0,
    ensures
        1 <= block_length(lines) <= lines.len(),
{
    lemma_continuation_count(lines.skip(1));
}

/// No more lines are blank than there are.
pub proof fn lemma_blank_count(lines: Seq<BlockLine>)
    ensures
        blank_count(lines) <= lines.len(),
    decreases lines.len(),
{
    if lines.len() > 0 && blank(lines[0].text) && !lines[0].header {
        lemma_blank_count(lines.skip(1));
    }
}

/// The next block lies within the lines, after the blank ones.
pub proof fn lemma_next_end(lines: Seq<BlockLine>)
    requires
        blank_count(lines) < lines.len(),
    ensures
        blank_count(lines) < next_end(lines) <= lines.len(),
{
    lemma_block_length(lines.skip(blank_count(lines) as int));
}

/// Repeats lie within the lines.
pub proof fn lemma_repeats_end(lines: Seq<BlockLine>, block: Seq<char>)
    ensures
        repeats_end(lines, block) <= lines.len(),
    decreases lines.len(),
{
    if repeats(lines, block) {
        lemma_next_end(lines);
        lemma_repeats_end(lines.skip(next_end(lines) as int), block);
    }
}

/// Whether no block of `lines` is followed by a repeat of itself.
pub open spec fn unrepeated(lines: Seq<BlockLine>) -> bool
    decreases lines.len(),
{
    if lines.len() == 0 {
        true
    } else if starts_block(lines) {
        let rest = lines.skip(block_length(lines) as int);
        proof {
            lemma_block_length(lines);
        }
        !repeats(rest, block_text(lines)) && unrepeated(rest)
    } else {
        unrepeated(lines.skip(1))
    }
}

/// Joining a first part to a rest, where the part is itself joined from lines.
proof fn lemma_joined_first(
    head: Seq<Seq<char>>,
    rest: Seq<Seq<char>>,
    parts: Seq<Seq<char>>,
)
    requires
        head.len() > 0,
        parts.len() == 0 <==> rest.len() == 0,
        joined(parts, "\n"@) == joined(rest, "\n"@),
    ensures
        joined(seq![joined(head, "\n"@)] + parts, "\n"@) == joined(head + rest, "\n"@),
{
    let first = seq![joined(head, "\n"@)];
    if rest.len() > 0 {
        lemma_joined_add(first, parts, "\n"@);
        lemma_joined_add(head, rest, "\n"@);
    } else {
        assert(first + parts =~= first);
        assert(head + rest =~= head);
    }
}

#[verifier::spinoff_prover]
proof fn lemma_unrepeated(lines: Seq<BlockLine>)
    requires
        unrepeated(lines),
    ensures
        collapsed_blocks(lines).len() == 0 <==> lines.len() == 0,
        joined(collapsed_blocks(lines), "\n"@) == joined(line_texts(lines), "\n"@),
    decreases lines.len(),
{
    if lines.len() > 0 {
        let n = if starts_block(lines) {
            block_length(lines) as int
        } else {
            1
        };
        let head = line_texts(lines.take(n));
        let rest = lines.skip(n);
        lemma_block_length(lines);
        if starts_block(lines) {
            let block = block_text(lines);
            assert(repeats_end(rest, block) == 0 && repeat_count(rest, block) == 0);
            assert(rest.skip(0) =~= rest);
        }
        assert(collapsed_blocks(lines) =~= seq![joined(head, "\n"@)] + collapsed_blocks(rest));
        assert(line_texts(lines) =~= head + line_texts(rest));
        lemma_unrepeated(rest);
        lemma_joined_first(head, line_texts(rest), collapsed_blocks(rest));
    }
}

/// A text in which no block is followed by a repeat of itself is passed
/// through unchanged.
pub proof fn lemma_unrepeated_unchanged(s: Seq<char>)
    requires
        unrepeated(body_lines(s).map_values(|line: Seq<char>| classified(line))),
    ensures
        deduped_traces(s) == s,
{
    if s.len() > 0 {
        let lines = body_lines(s).map_values(|line: Seq<char>| classified(line));
        lemma_unrepeated(lines);
        assert(line_texts(lines) =~= body_lines(s));
        lemma_rejoin_body(s);
    } else {
        assert(s =~= Seq::empty());
    }
}

proof fn lemma_headless(lines: Seq<BlockLine>)
    requires
        forall|i: int| 0 <= i < lines.len() ==> !(#[trigger] lines[i]).header,
    ensures
        unrepeated(lines),
    decreases lines.len(),
{
    if lines.len() > 0 {
        assert(!lines[0].header);
        let rest = lines.skip(1);
        assert forall|i: int| 0 <= i < rest.len() implies !(#[trigger] rest[i]).header by {
            assert(rest[i] == lines[i + 1]);
        }
        lemma_headless(rest);
    }
}

/// A text without a line that can start a block is passed through unchanged.
pub proof fn lemma_plain_text_unchanged(s: Seq<char>)
    requires
        forall|i: int|
            0 <= i < body_lines(s).len() ==> !opens_block(#[trigger] body_lines(s)[i]),
    ensures
        deduped_traces(s) == s,
{
    let lines = body_lines(s).map_values(|line: Seq<char>| classified(line));
    assert forall|i: int| 0 <= i < lines.len() implies !(#[trigger] lines[i]).header by {
        assert(!opens_block(body_lines(s)[i]));
    }
    lemma_headless(lines);
    lemma_unrepeated_unchanged(s);
}

/// The line that stands for `n` repeats: it neither starts nor continues a
/// block.
pub open spec fn note_line(n: nat) -> BlockLine {
    BlockLine { text: repeat_marker(n), header: false, continuation: false, frame: false }
}

/// The lines that are left of `lines` when repeats are collapsed.
pub open spec fn lines_left(lines: Seq<BlockLine>) -> Seq<BlockLine>
    decreases lines.len(),
{
    if lines.len() == 0 {
        Seq::empty()
    } else if starts_block(lines) {
        let n = block_length(lines) as int;
        let block = block_text(lines);
        let rest = lines.skip(n);
        proof {
            lemma_block_length(lines);
            lemma_repeats_end(rest, block);
        }
        let tail = lines_left(rest.skip(repeats_end(rest, block) as int));
        if repeat_count(rest, block) > 0 {
            lines.take(n) + (seq![note_line(repeat_count(rest, block))] + tail)
        } else {
            lines.take(n) + tail
        }
    } else {
        seq![lines[0]] + lines_left(lines.skip(1))
    }
}

/// No repeats are skipped where none are counted.
proof fn lemma_no_repeats(lines: Seq<BlockLine>, block: Seq<char>)
    ensures
        repeat_count(lines, block) == 0 ==> !repeats(lines, block) && repeats_end(lines, block)
            == 0,
{
}

/// What is left, joined, is what the collapsed parts are, joined. It starts as the
/// lines do.
pub proof fn lemma_left_joined(lines: Seq<BlockLine>)
    ensures
        collapsed_blocks(lines).len() == 0 <==> lines_left(lines).len() == 0,
        joined(collapsed_blocks(lines), "\n"@) == joined(line_texts(lines_left(lines)), "\n"@),
        lines.len() > 0 ==> lines_left(lines).len() > 0 && lines_left(lines)[0] == lines[0],
    decreases lines.len(),
{
    if lines.len() > 0 {
        if starts_block(lines) {
            let n = block_length(lines) as int;
            let block = block_text(lines);
            let rest = lines.skip(n);
            let count = repeat_count(rest, block);
            let after = rest.skip(repeats_end(rest, block) as int);
            let head = line_texts(lines.take(n));
            let tail = lines_left(after);
            lemma_block_length(lines);
            lemma_repeats_end(rest, block);
            lemma_left_joined(after);
            if count > 0 {
                let note = seq![repeat_marker(count)];
                lemma_joined_first(note, line_texts(tail), collapsed_blocks(after));
                assert(joined(note, "\n"@) == repeat_marker(count));
                lemma_joined_first(
                    head,
                    note + line_texts(tail),
                    note + collapsed_blocks(after),
                );
                assert(collapsed_blocks(lines) =~= seq![block] + (note + collapsed_blocks(
                    after,
                )));
                assert(line_texts(lines_left(lines)) =~= head + (note + line_texts(tail)));
            } else {
                lemma_joined_first(head, line_texts(tail), collapsed_blocks(after));
                assert(collapsed_blocks(lines) =~= seq![block] + collapsed_blocks(after));
                assert(line_texts(lines_left(lines)) =~= head + line_texts(tail));
            }
        } else {
            let rest = lines.skip(1);
            let head = seq![lines[0].text];
            lemma_left_joined(rest);
            lemma_joined_first(head, line_texts(lines_left(rest)), collapsed_blocks(rest));
            assert(joined(head, "\n"@) == lines[0].text);
            assert(line_texts(lines_left(lines)) =~= head + line_texts(lines_left(rest)));
        }
    }
}

/// Continuation lines in front are counted, up to a line that is none.
pub proof fn lemma_continuation_front(front: Seq<BlockLine>, back: Seq<BlockLine>)
    requires
        forall|k: int| 0 <= k < front.len() ==> (#[trigger] front[k]).continuation,
        back.len() > 0 ==> !back[0].continuation,
    ensures
        continuation_count(front + back) == front.len(),
    decreases front.len(),
{
    if front.len() > 0 {
        let rest = front.skip(1);
        assert forall|k: int| 0 <= k < rest.len() implies (#[trigger] rest[k]).continuation by {
            assert(rest[k] == front[k + 1]);
        }
        lemma_continuation_front(rest, back);
        assert((front + back)[0] == front[0]);
        assert((front + back).skip(1) =~= rest + back);
    } else {
        assert(front + back =~= back);
    }
}

/// The lines that are counted continue a block, and the one behind them does
/// not.
pub proof fn lemma_continuations(lines: Seq<BlockLine>)
    ensures
        continuation_count(lines) <= lines.len(),
        forall|k: int| 0 <= k < continuation_count(lines) ==> (#[trigger] lines[k]).continuation,
        continuation_count(lines) < lines.len() ==> !lines[continuation_count(
            lines,
        ) as int].continuation,
    decreases lines.len(),
{
    if lines.len() > 0 && lines[0].continuation {
        let rest = lines.skip(1);
        lemma_continuations(rest);
        assert forall|k: int| 0 <= k < continuation_count(lines) implies (
        #[trigger] lines[k]).continuation by {
            if k > 0 {
                assert(lines[k] == rest[k - 1]);
            }
        }
    }
}

/// What is left of a block and what follows it: the block, then a line that does
/// not continue it.
proof fn lemma_left_block(lines: Seq<BlockLine>) -> (back: Seq<BlockLine>)
    requires
        starts_block(lines),
    ensures
        block_length(lines) <= lines.len(),
        lines_left(lines) == lines.take(block_length(lines) as int) + back,
        back.len() > 0 ==> !back[0].continuation,
        forall|k: int|
            1 <= k < block_length(lines) ==> (#[trigger] lines[k]).continuation,
{
    let n = block_length(lines) as int;
    let block = block_text(lines);
    let rest = lines.skip(n);
    let count = repeat_count(rest, block);
    let after = rest.skip(repeats_end(rest, block) as int);
    let tail = lines_left(after);
    lemma_block_length(lines);
    lemma_continuations(lines.skip(1));
    assert forall|k: int| 1 <= k < n implies (#[trigger] lines[k]).continuation by {
        assert(lines.skip(1)[k - 1] == lines[k]);
    }
    if count > 0 {
        seq![note_line(count)] + tail
    } else {
        lemma_no_repeats(rest, block);
        assert(after =~= rest);
        if rest.len() > 0 {
            lemma_left_joined(rest);
            assert(lines.skip(1)[n - 1] == rest[0]);
        }
        tail
    }
}

/// As many lines in front continue a block as did before, and they are the same.
proof fn lemma_left_continuations(lines: Seq<BlockLine>)
    ensures
        continuation_count(lines_left(lines)) == continuation_count(lines),
        continuation_count(lines) <= lines_left(lines).len(),
        lines_left(lines).take(continuation_count(lines) as int) == lines.take(
            continuation_count(lines) as int,
        ),
    decreases lines.len(),
{
    let left = lines_left(lines);
    let c = continuation_count(lines) as int;
    lemma_continuations(lines);
    lemma_left_joined(lines);
    if c == 0 {
        assert(left.take(0) =~= lines.take(0));
    } else if starts_block(lines) {
        let n = block_length(lines) as int;
        let back = lemma_left_block(lines);
        let front = lines.take(n);
        assert forall|k: int| 0 <= k < front.len() implies (#[trigger] front[k]).continuation by {
            if k > 0 {
                assert(front[k] == lines[k]);
            }
        }
        lemma_continuation_front(front, back);
        assert(c == n);
        assert(left.take(n) =~= front);
    } else {
        let rest = lines.skip(1);
        lemma_left_continuations(rest);
        assert(left.skip(1) =~= lines_left(rest));
        assert(left.take(c) =~= lines.take(c)) by {
            assert forall|k: int| 0 <= k < c implies left[k] == lines[k] by {
                if k > 0 {
                    assert(left[k] == lines_left(rest)[k - 1]);
                    assert(lines_left(rest).take(c - 1)[k - 1] == rest.take(c - 1)[k - 1]);
                }
            }
        }
    }
}

/// A block starts where one did, and it is the same.
#[verifier::spinoff_prover]
proof fn lemma_left_starts(lines: Seq<BlockLine>)
    requires
        lines.len() > 0,
    ensures
        block_length(lines_left(lines)) == block_length(lines),
        starts_block(lines_left(lines)) == starts_block(lines),
        block_text(lines_left(lines)) == block_text(lines),
{
    let left = lines_left(lines);
    let n = block_length(lines) as int;
    lemma_block_length(lines);
    lemma_left_joined(lines);
    if starts_block(lines) {
        let back = lemma_left_block(lines);
        let front = lines.take(n).skip(1);
        assert forall|k: int| 0 <= k < front.len() implies (#[trigger] front[k]).continuation by {
            assert(front[k] == lines[k + 1]);
        }
        lemma_continuation_front(front, back);
        assert(left.skip(1) =~= front + back);
    } else {
        let rest = lines.skip(1);
        lemma_left_continuations(rest);
        assert(left.skip(1) =~= lines_left(rest));
        assert forall|k: int| 0 <= k < n implies left[k] == lines[k] by {
            if k > 0 {
                assert(left[k] == lines_left(rest)[k - 1]);
                assert(lines_left(rest).take(n - 1)[k - 1] == rest.take(n - 1)[k - 1]);
            }
        }
    }
    lemma_block_length(left);
    assert(left.take(n) =~= lines.take(n));
    assert forall|k: int| 0 <= k < n implies left[k] == lines[k] by {
        assert(left.take(n)[k] == lines.take(n)[k]);
    }
    if starts_block(lines) {
        let k = choose|k: int| 1 <= k < n && (#[trigger] lines[k]).frame;
        assert(left[k].frame);
    }
    if starts_block(left) {
        let k = choose|k: int| 1 <= k < n && (#[trigger] left[k]).frame;
        assert(lines[k].frame);
    }
}

/// As many blank lines stand in front as did before.
proof fn lemma_left_blanks(lines: Seq<BlockLine>)
    ensures
        blank_count(lines) <= lines.len(),
        blank_count(lines_left(lines)) == blank_count(lines),
        blank_count(lines) <= lines_left(lines).len(),
        lines_left(lines).skip(blank_count(lines) as int) == lines_left(
            lines.skip(blank_count(lines) as int),
        ),
    decreases lines.len(),
{
    let left = lines_left(lines);
    let b = blank_count(lines) as int;
    lemma_left_joined(lines);
    if b > 0 {
        let rest = lines.skip(1);
        assert(!starts_block(lines));
        lemma_left_blanks(rest);
        assert(left.skip(1) =~= lines_left(rest));
        assert(left.skip(b) =~= left.skip(1).skip(b - 1));
        assert(lines.skip(b) =~= rest.skip(b - 1));
    } else {
        assert(left.skip(0) =~= left);
        assert(lines.skip(0) =~= lines);
    }
}

/// A repeat comes next exactly where one did.
proof fn lemma_left_repeats(lines: Seq<BlockLine>, block: Seq<char>)
    ensures
        repeats(lines_left(lines), block) == repeats(lines, block),
{
    let b = blank_count(lines) as int;
    lemma_left_blanks(lines);
    if b < lines.len() {
        lemma_left_joined(lines.skip(b));
        lemma_left_starts(lines.skip(b));
        assert(b < lines_left(lines).len());
    } else {
        assert(lines.skip(b) =~= Seq::empty());
    }
}

/// No block that is left is followed by a repeat of itself.
pub proof fn lemma_left_unrepeated(lines: Seq<BlockLine>)
    ensures
        unrepeated(lines_left(lines)),
    decreases lines.len(),
{
    if lines.len() > 0 {
        let left = lines_left(lines);
        lemma_left_joined(lines);
        lemma_left_starts(lines);
        if starts_block(lines) {
            let n = block_length(lines) as int;
            let block = block_text(lines);
            let rest = lines.skip(n);
            let count = repeat_count(rest, block);
            let after = rest.skip(repeats_end(rest, block) as int);
            let tail = lines_left(after);
            lemma_block_length(lines);
            lemma_repeats_end(rest, block);
            lemma_left_unrepeated(after);
            if count > 0 {
                let note = seq![note_line(count)] + tail;
                assert(left.skip(n) =~= note);
                lemma_marker_plain(count);
                assert(note[0] == note_line(count));
                assert(blank_count(note) == 0);
                assert(note.skip(0) =~= note);
                assert(note.skip(1) =~= tail);
                assert(!starts_block(note));
                assert(unrepeated(note));
            } else {
                lemma_no_repeats(rest, block);
                assert(after =~= rest);
                assert(left.skip(n) =~= tail);
                lemma_left_repeats(rest, block);
            }
        } else {
            lemma_left_unrepeated(lines.skip(1));
            assert(left.skip(1) =~= lines_left(lines.skip(1)));
        }
    }
}

/// What is left is lines that were there and markers.
#[verifier::spinoff_prover]
proof fn lemma_left_lines(lines: Seq<BlockLine>)
    ensures
        forall|k: int|
            0 <= k < lines_left(lines).len() ==> lines.contains(#[trigger] lines_left(lines)[k])
                || exists|n: nat| lines_left(lines)[k] == #[trigger] note_line(n),
    decreases lines.len(),
{
    if lines.len() > 0 {
        let left = lines_left(lines);
        let n = if starts_block(lines) {
            block_length(lines) as int
        } else {
            1
        };
        let rest = lines.skip(n);
        let block = block_text(lines);
        let skipped = if starts_block(lines) {
            repeats_end(rest, block) as int
        } else {
            0
        };
        let count = if starts_block(lines) {
            repeat_count(rest, block)
        } else {
            0
        };
        let after = rest.skip(skipped);
        let tail = lines_left(after);
        lemma_block_length(lines);
        lemma_repeats_end(rest, block);
        lemma_left_lines(after);
        assert(rest.skip(0) =~= rest);
        let notes = if count > 0 {
            1
        } else {
            0int
        };
        assert forall|k: int| 0 <= k < left.len() implies lines.contains(#[trigger] left[k])
            || exists|m: nat| left[k] == #[trigger] note_line(m) by {
            if k < n {
                assert(left[k] == lines[k]);
            } else if k < n + notes {
                assert(left[k] == note_line(count));
            } else {
                assert(left[k] == tail[k - n - notes]);
                if after.contains(tail[k - n - notes]) {
                    let m = choose|m: int| 0 <= m < after.len() && after[m] == left[k];
                    assert(lines[n + skipped + m] == left[k]);
                }
            }
        }
    }
}

/// Collapsing repeated traces twice gives what collapsing them once gives: no two
/// blocks of the same text are left next to each other or with blank lines
/// alone between them.
pub proof fn lemma_idempotent(s: Seq<char>)
    ensures
        deduped_traces(deduped_traces(s)) == deduped_traces(s),
{
    let once = deduped_traces(s);
    if s.len() > 0 {
        let lines = body_lines(s).map_values(|l: Seq<char>| classified(l));
        let left = lines_left(lines);
        let kept = line_texts(left);
        let newline = ends_with_newline(s);
        lemma_left_joined(lines);
        lemma_left_lines(lines);
        lemma_left_unrepeated(lines);
        lemma_body_plain(s);
        lemma_split_last(s);
        assert(once == rejoined(kept, newline));
        assert forall|k: int| 0 <= k < left.len() implies left[k] == classified(
            #[trigger] left[k].text,
        ) && !left[k].text.contains('\n') by {
            if lines.contains(left[k]) {
                let m = choose|m: int| 0 <= m < lines.len() && lines[m] == left[k];
                assert(left[k] == classified(body_lines(s)[m]));
            } else {
                let n = choose|n: nat| left[k] == #[trigger] note_line(n);
                lemma_marker_plain(n);
            }
        }
        assert(lines.len() > 0) by {
            if newline {
                assert(s =~= s.drop_last().push('\n'));
                lemma_split_last(s.drop_last());
            }
        }
        if !newline {
            lemma_body_last(s);
            lemma_left_last(lines);
        }
        lemma_body_rejoined(kept, newline);
        assert(body_lines(once).map_values(|l: Seq<char>| classified(l)) =~= left);
        lemma_unrepeated_unchanged(once);
    } else {
        assert(once =~= s);
    }
}

/// What is left ends with a line that is not empty if the lines did.
proof fn lemma_left_last(lines: Seq<BlockLine>)
    requires
        lines.len() > 0,
        ends_plainly(lines.last().text),
    ensures
        lines_left(lines).len() > 0,
        ends_plainly(lines_left(lines).last().text),
    decreases lines.len(),
{
    let left = lines_left(lines);
    lemma_left_joined(lines);
    if starts_block(lines) {
        let n = block_length(lines) as int;
        let block = block_text(lines);
        let rest = lines.skip(n);
        let count = repeat_count(rest, block);
        let after = rest.skip(repeats_end(rest, block) as int);
        lemma_block_length(lines);
        lemma_repeats_end(rest, block);
        if after.len() > 0 {
            assert(after.last() == lines.last());
            lemma_left_last(after);
            assert(left.last() == lines_left(after).last());
        } else if count > 0 {
            assert(left.last() == note_line(count));
            lemma_marker_last(count);
        } else {
            lemma_no_repeats(rest, block);
            assert(left =~= lines);
        }
    } else if lines.len() > 1 {
        let rest = lines.skip(1);
        assert(rest.last() == lines.last());
        lemma_left_last(rest);
        assert(left.last() == lines_left(rest).last());
    } else {
        assert(lines_left(lines.skip(1)) =~= Seq::empty());
        assert(left =~= lines);
    }
}

/// Whether `s` ends with a character that is no newline.
spec fn ends_plainly(s: Seq<char>) -> bool {
    s.len() > 0 && s.last() != '\n'
}

proof fn lemma_collapsed_last(lines: Seq<BlockLine>)
    requires
        lines.len() > 0,
        ends_plainly(lines.last().text),
    ensures
        collapsed_blocks(lines).len() > 0,
        ends_plainly(collapsed_blocks(lines).last()),
    decreases lines.len(),
{
    let out = collapsed_blocks(lines);
    if starts_block(lines) {
        let block = block_text(lines);
        let n = block_length(lines) as int;
        let rest = lines.skip(n);
        let count = repeat_count(rest, block);
        let tail = rest.skip(repeats_end(rest, block) as int);
        lemma_block_length(lines);
        lemma_repeats_end(rest, block);
        if tail.len() > 0 {
            assert(tail.last() == lines.last());
            lemma_collapsed_last(tail);
            assert(out.last() == collapsed_blocks(tail).last());
        } else if count > 0 {
            assert(out.last() == repeat_marker(count));
            lemma_marker_last(count);
        } else {
            assert(out =~= seq![block]);
            let parts = line_texts(lines.take(n));
            assert(parts.last() == lines.last().text);
            lemma_joined_last(parts, "\n"@);
        }
    } else if lines.len() > 1 {
        let tail = lines.skip(1);
        assert(tail.last() == lines.last());
        lemma_collapsed_last(tail);
        assert(out.last() == collapsed_blocks(tail).last());
    } else {
        assert(collapsed_blocks(lines.skip(1)) =~= Seq::empty());
        assert(out =~= seq![lines[0].text]);
    }
}

/// The result ends with a newline exactly when the text does.
pub proof fn lemma_trailing_newline(s: Seq<char>)
    ensures
        ends_with_newline(deduped_traces(s)) == ends_with_newline(s),
{
    if s.len() > 0 {
        let lines = body_lines(s).map_values(|line: Seq<char>| classified(line));
        if !ends_with_newline(s) {
            lemma_body_last(s);
            lemma_collapsed_last(lines);
        }
        lemma_rejoined_newline(collapsed_blocks(lines), ends_with_newline(s));
    }
}

/// Whether `part` is made of lines of which one is `line`.
pub open spec fn has_line(part: Seq<char>, line: Seq<char>) -> bool {
    exists|parts: Seq<Seq<char>>| #[trigger]
        joined(parts, "\n"@) == part && parts.contains(line)
}

proof fn lemma_block_has_line(lines: Seq<BlockLine>, i: int)
    requires
        0 <= i < block_length(lines) <= lines.len(),
    ensures
        has_line(block_text(lines), lines[i].text),
{
    let parts = line_texts(lines.take(block_length(lines) as int));
    assert(parts[i] == lines[i].text);
    assert(joined(parts, "\n"@) == block_text(lines));
}

/// The lines that are counted as blank are blank, and no headers.
pub proof fn lemma_blank_lines(lines: Seq<BlockLine>, i: int)
    requires
        0 <= i < blank_count(lines),
    ensures
        i < lines.len() && blank(lines[i].text) && !lines[i].header,
    decreases lines.len(),
{
    if i > 0 {
        lemma_blank_lines(lines.skip(1), i - 1);
    }
}

proof fn lemma_repeated_line(lines: Seq<BlockLine>, block: Seq<char>, i: int)
    requires
        0 <= i < repeats_end(lines, block),
    ensures
        i < lines.len(),
        blank(lines[i].text) || has_line(block, lines[i].text),
    decreases lines.len(),
{
    let b = blank_count(lines) as int;
    let end = next_end(lines) as int;
    lemma_next_end(lines);
    lemma_repeats_end(lines, block);
    if i < b {
        lemma_blank_lines(lines, i);
    } else if i < end {
        lemma_block_length(lines.skip(b));
        lemma_block_has_line(lines.skip(b), i - b);
    } else {
        lemma_repeated_line(lines.skip(end), block, i - end);
    }
}

/// No line is lost but for blank ones: each of the others is a line of the
/// result, if only in the first of several blocks that read the same.
pub proof fn lemma_line_survives(lines: Seq<BlockLine>, i: int)
    requires
        0 <= i < lines.len(),
        !blank(lines[i].text),
    ensures
        exists|j: int|
            0 <= j < collapsed_blocks(lines).len() && has_line(
                #[trigger] collapsed_blocks(lines)[j],
                lines[i].text,
            ),
    decreases lines.len(),
{
    let out = collapsed_blocks(lines);
    if starts_block(lines) {
        let block = block_text(lines);
        let n = block_length(lines) as int;
        let rest = lines.skip(n);
        let e = repeats_end(rest, block) as int;
        let note = repeat_note(repeat_count(rest, block));
        lemma_block_length(lines);
        lemma_repeats_end(rest, block);
        assert(out[0] == block);
        if i < n {
            lemma_block_has_line(lines, i);
        } else if i < n + e {
            lemma_repeated_line(rest, block, i - n);
        } else {
            let tail = rest.skip(e);
            lemma_line_survives(tail, i - n - e);
            let j = choose|j: int|
                0 <= j < collapsed_blocks(tail).len() && has_line(
                    #[trigger] collapsed_blocks(tail)[j],
                    tail[i - n - e].text,
                );
            assert(out[1 + note.len() + j] == collapsed_blocks(tail)[j]);
        }
    } else if i == 0 {
        let parts = seq![lines[0].text];
        assert(parts[0] == lines[0].text);
        assert(joined(parts, "\n"@) == out[0]);
    } else {
        let tail = lines.skip(1);
        lemma_line_survives(tail, i - 1);
        let j = choose|j: int|
            0 <= j < collapsed_blocks(tail).len() && has_line(
                #[trigger] collapsed_blocks(tail)[j],
                tail[i - 1].text,
            );
        assert(out[1 + j] == collapsed_blocks(tail)[j]);
    }
}

/// Collapsing loses no line of a text but for blank ones.
pub proof fn lemma_text_line_survives(s: Seq<char>, i: int)
    requires
        0 <= i < body_lines(s).len(),
        !blank(body_lines(s)[i]),
    ensures
        body_lines(deduped_traces(s)).contains(body_lines(s)[i]),
        deduped_traces(s).len() > 0,
{
    let line = body_lines(s)[i];
    let lines = body_lines(s).map_values(|l: Seq<char>| classified(l));
    let parts = collapsed_blocks(lines);
    lemma_split_last(s);
    lemma_split_join(s);
    assert(!split_newlines(s)[i].contains('\n'));
    lemma_split_plain(line);
    assert(split_newlines(line)[0] == line);
    assert(line.len() > 0) by {
        if line.len() == 0 {
            assert(blank(line));
        }
    }
    lemma_line_survives(lines, i);
    let j = choose|j: int| 0 <= j < parts.len() && has_line(#[trigger] parts[j], line);
    let inner = choose|inner: Seq<Seq<char>>| #[trigger]
        joined(inner, "\n"@) == parts[j] && inner.contains(line);
    let k = choose|k: int| 0 <= k < inner.len() && inner[k] == line;
    lemma_joined_pieces(inner, k, line);
    lemma_rejoined_pieces(parts, ends_with_newline(s), j, line);
}

/// Where the block ends that starts with `lines[start]`.
fn block_end(lines: &[TraceLine], start: usize) -> (r: usize)
    requires
        start < lines@.len(),
    ensures
        start < r <= lines@.len(),
        r == start + block_length(block_lines(lines@).skip(start as int)),
{
    let n: usize = lines.len();
    let ghost all = block_lines(lines@);
    let mut end: usize = start + 1;
    assert(all.skip(start as int).skip(1) =~= all.skip(start + 1));
    while end < n && lines[end].continuation
        invariant
            n == lines@.len(),
            all == block_lines(lines@),
            start < end <= n,
            block_length(all.skip(start as int)) == end - start + continuation_count(
                all.skip(end as int),
            ),
        decreases n - end,
    {
        assert(all.skip(end as int).skip(1) =~= all.skip(end + 1));
        assert(all.skip(end as int)[0] == lines@[end as int]@);
        end = end + 1;
    }
    assert(end < n ==> all.skip(end as int)[0] == lines@[end as int]@);
    end
}

/// Whether a block starts with `lines[start]`.
fn block_starts(lines: &[TraceLine], start: usize) -> (r: bool)
    requires
        start < lines@.len(),
    ensures
        r == starts_block(block_lines(lines@).skip(start as int)),
{
    let ghost here = block_lines(lines@).skip(start as int);
    assert(here[0] == lines@[start as int]@);
    if !lines[start].header {
        return false;
    }
    let end: usize = block_end(lines, start);
    for i in start + 1..end
        invariant
            start < end <= lines@.len(),
            end == start + block_length(here),
            here == block_lines(lines@).skip(start as int),
            here[0].header,
            forall|k: int| 1 <= k < i - start ==> !(#[trigger] here[k]).frame,
    {
        assert(here[i - start] == lines@[i as int]@);
        if lines[i].frame {
            return true;
        }
    }
    false
}

/// The texts of `lines[start..end]`, joined with newlines.
fn joined_range(lines: &[TraceLine], start: usize, end: usize) -> (r: String)
    requires
        start <= end <= lines@.len(),
    ensures
        r@ == joined(line_texts(block_lines(lines@).subrange(start as int, end as int)), "\n"@),
{
    let mut parts: Vec<String> = Vec::new();
    let ghost all = block_lines(lines@);
    for i in start..end
        invariant
            start <= end <= lines@.len(),
            all == block_lines(lines@),
            texts(parts@) == line_texts(all.subrange(start as int, i as int)),
    {
        let ghost before = texts(parts@);
        parts.push(lines[i].text.clone());
        assert(texts(parts@) =~= before.push(all[i as int].text));
        assert(line_texts(all.subrange(start as int, i + 1)) =~= before.push(all[i as int].text));
    }
    join(parts.as_slice(), "\n")
}

/// Where the blank lines end that start with `lines[start]`.
fn blank_end(lines: &[TraceLine], start: usize) -> (r: usize)
    requires
        start <= lines@.len(),
    ensures
        start <= r <= lines@.len(),
        r == start + blank_count(block_lines(lines@).skip(start as int)),
{
    let n: usize = lines.len();
    let ghost all = block_lines(lines@);
    let mut end: usize = start;
    while end < n && !lines[end].header && is_blank(lines[end].text.as_str())
        invariant
            n == lines@.len(),
            all == block_lines(lines@),
            start <= end <= n,
            blank_count(all.skip(start as int)) == end - start + blank_count(all.skip(end as int)),
        decreases n - end,
    {
        assert(all.skip(end as int).skip(1) =~= all.skip(end + 1));
        assert(all.skip(end as int)[0] == lines@[end as int]@);
        end = end + 1;
    }
    assert(end < n ==> all.skip(end as int)[0] == lines@[end as int]@);
    end
}

/// Where the block ends that comes next after `from`, blank lines aside, if it
/// has the text `block`.
fn repeat_stop(lines: &[TraceLine], from: usize, block: &str) -> (r: Option<usize>)
    requires
        from <= lines@.len(),
    ensures
        r is Some <==> repeats(block_lines(lines@).skip(from as int), block@),
        r matches Some(stop) ==> from < stop <= lines@.len() && stop == from + next_end(
            block_lines(lines@).skip(from as int),
        ),
{
    let ghost all = block_lines(lines@);
    let ghost ahead = all.skip(from as int);
    let start = blank_end(lines, from);
    assert(ahead.skip(start - from) =~= all.skip(start as int));
    if start < lines.len() && block_starts(lines, start) {
        let stop = block_end(lines, start);
        let other = joined_range(lines, start, stop);
        assert(all.skip(start as int).take(stop - start) =~= all.subrange(
            start as int,
            stop as int,
        ));
        if same(other.as_str(), block) {
            return Some(stop);
        }
    }
    None
}

/// How many blocks of the text `block` follow each other from `from` on, and
/// where the last of them ends.
fn count_repeats(lines: &[TraceLine], from: usize, block: &str) -> (r: (usize, usize))
    requires
        from <= lines@.len(),
    ensures
        r.0 == repeat_count(block_lines(lines@).skip(from as int), block@),
        r.1 == from + repeats_end(block_lines(lines@).skip(from as int), block@),
        from <= r.1 <= lines@.len(),
{
    let n: usize = lines.len();
    let ghost all = block_lines(lines@);
    let ghost rest = all.skip(from as int);
    let mut next: usize = from;
    let mut count: usize = 0;
    loop
        invariant
            n == lines@.len(),
            all == block_lines(lines@),
            rest == all.skip(from as int),
            from <= next <= n,
            count <= next - from,
            repeat_count(rest, block@) == count + repeat_count(all.skip(next as int), block@),
            repeats_end(rest, block@) == next - from + repeats_end(all.skip(next as int), block@),
        ensures
            !repeats(all.skip(next as int), block@),
        decreases n - next,
    {
        match repeat_stop(lines, next, block) {
            Some(stop) => {
                assert(all.skip(next as int).skip(stop - next) =~= all.skip(stop as int));
                next = stop;
                count = count + 1;
            },
            None => {
                break ;
            },
        }
    }
    (count, next)
}

/// Collapses the repeats of each block.
pub fn collapse_blocks(lines: &[TraceLine]) -> (r: Vec<String>)
    ensures
        texts(r@) == collapsed_blocks(block_lines(lines@)),
{
    let n: usize = lines.len();
    let ghost all = block_lines(lines@);
    let mut out: Vec<String> = Vec::new();
    let mut i: usize = 0;
    assert(all.skip(0) =~= all);
    while i < n
        invariant
            n == lines@.len(),
            all == block_lines(lines@),
            i <= n,
            collapsed_blocks(all) == texts(out@) + collapsed_blocks(all.skip(i as int)),
        decreases n - i,
    {
        let ghost here = all.skip(i as int);
        let ghost before = texts(out@);
        assert(here[0] == lines@[i as int]@);
        if block_starts(lines, i) {
            let end = block_end(lines, i);
            let block = joined_range(lines, i, end);
            assert(here.take(end - i) =~= all.subrange(i as int, end as int));
            assert(here.skip(end - i) =~= all.skip(end as int));
            let ghost rest = all.skip(end as int);
            let (count, next) = count_repeats(lines, end, block.as_str());
            let ghost text = block@;
            out.push(block);
            assert(texts(out@) =~= before + seq![text]);
            if count > 0 {
                out.push(repeat_line(count));
            }
            assert(texts(out@) =~= before + seq![text] + repeat_note(count as nat));
            assert(rest.skip(next - end) =~= all.skip(next as int));
            assert(texts(out@) + collapsed_blocks(all.skip(next as int)) =~= before + (seq![text]
                + repeat_note(count as nat) + collapsed_blocks(all.skip(next as int))));
            i = next;
        } else {
            out.push(lines[i].text.clone());
            assert(here.skip(1) =~= all.skip(i + 1));
            assert(texts(out@) =~= before + seq![here[0].text]);
            assert(texts(out@) + collapsed_blocks(all.skip(i + 1)) =~= before + (seq![here[0].text]
                + collapsed_blocks(all.skip(i + 1))));
            i = i + 1;
        }
    }
    assert(texts(out@) + collapsed_blocks(all.skip(n as int)) =~= texts(out@));
    out
}

/// The patterns that tell what a line can be part of.
pub struct TracePatterns {
    exception_header: Pattern,
    caused_by: Pattern,
    at_frame: Pattern,
    more_frames: Pattern,
}

impl TracePatterns {
    /// Whether the patterns are those that they are named after.
    #[verifier::type_invariant]
    pub closed spec fn wf(self) -> bool {
        &&& self.exception_header@ == EXCEPTION_HEADER@
        &&& self.caused_by@ == CAUSED_BY@
        &&& self.at_frame@ == AT_FRAME@
        &&& self.more_frames@ == MORE_FRAMES@
    }

    /// Compiles the patterns.
    pub fn new() -> (r: TracePatterns)
        ensures
            r.wf(),
    {
        TracePatterns {
            exception_header: Pattern::new(EXCEPTION_HEADER),
            caused_by: Pattern::new(CAUSED_BY),
            at_frame: Pattern::new(AT_FRAME),
            more_frames: Pattern::new(MORE_FRAMES),
        }
    }

    /// Whether `line` can start a block.
    pub fn is_block_header(&self, line: &str) -> (r: bool)
        ensures
            r == opens_block(line@),
    {
        proof {
            use_type_invariant(self);
        }
        let start = trim_start(line);
        !is_bracketed(line) && (self.exception_header.is_match(start) || self.caused_by.is_match(
            start,
        ))
    }

    /// Whether `line` is a stack frame.
    pub fn is_frame(&self, line: &str) -> (r: bool)
        ensures
            r == at_frame(line@),
    {
        proof {
            use_type_invariant(self);
        }
        !is_bracketed(line) && self.at_frame.is_match(line)
    }

    /// Whether `line` can continue a block.
    pub fn is_block_continuation(&self, line: &str) -> (r: bool)
        ensures
            r == continues_block(line@),
    {
        proof {
            use_type_invariant(self);
        }
        !is_bracketed(line) && (self.at_frame.is_match(line) || self.more_frames.is_match(line)
            || self.caused_by.is_match(trim_start(line)))
    }
}

/// Collapses repeated stack traces.
///
/// The result ends with a newline if and only if `input` does.
pub fn dedupe_stack_traces(input: &str) -> (r: String)
    ensures
        r@ == deduped_traces(input@),
{
    if input.is_empty() {
        return String::new();
    }
    let (body, newline) = split_body(input);
    let patterns = TracePatterns::new();
    let mut lines: Vec<TraceLine> = Vec::new();
    let n: usize = body.len();
    for i in 0..n
        invariant
            n == body@.len(),
            lines@.len() == i,
            forall|k: int| 0 <= k < i ==> (#[trigger] lines@[k])@ == classified(body@[k]@),
    {
        let text = body[i].clone();
        let header = patterns.is_block_header(text.as_str());
        let continuation = patterns.is_block_continuation(text.as_str());
        let frame = patterns.is_frame(text.as_str());
        lines.push(TraceLine { text, header, continuation, frame });
    }
    assert(block_lines(lines@) =~= body_lines(input@).map_values(
        |line: Seq<char>| classified(line),
    )) by {
        assert forall|k: int| 0 <= k < n implies #[trigger] block_lines(lines@)[k] == classified(
            body_lines(input@)[k],
        ) by {
            assert(texts(body@)[k] == body@[k]@);
        }
    }
    let out = collapse_blocks(lines.as_slice());
    rejoin(out.as_slice(), newline)
}

} // verus!
