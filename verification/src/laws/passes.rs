//! The passes that collapse repeated lines, repeated stack traces and noise
//! frames.
use crate::jvm::line_dedup::{collapsed_runs, deduped_lines, lemma_run_length, run_length};
use crate::jvm::marker::{omission_marker, repeat_marker};
use crate::jvm::stack_dedup;
use crate::jvm::stack_dedup::{
    blank_count, block_length, block_text, collapsed_blocks, deduped_traces, lemma_blank_lines,
    lemma_block_length, lemma_continuation_front, lemma_continuations, lemma_repeats_end, next_end,
    repeat_count, repeats, repeats_end, starts_block, BlockLine, AT_FRAME, CAUSED_BY,
    EXCEPTION_HEADER, MORE_FRAMES,
};
use crate::jvm::stack_trim;
use crate::jvm::stack_trim::{
    idle, idle_run, lemma_frame_front, lemma_idle_run, lemma_short_frames, long_idle,
    shown_frames, shown_run, trimmed_stacks, trimmed_trace, trimmed_traces, StackLine,
    NOISE_PATTERNS,
};
use crate::lines::{joined, lemma_body_rejoined, rejoined};
use crate::pattern::{any_matched, matched};
use crate::text::{blank, strs, trimmed_start};
use vstd::prelude::*;

verus! {

/// Runs with different keys are collapsed by themselves.
pub proof fn lemma_runs_apart(a: Seq<Seq<char>>, b: Seq<Seq<char>>)
    requires
        a.len() > 0 && b.len() > 0 ==> trimmed_start(a.last()) != trimmed_start(b[0]),
    ensures
        collapsed_runs(a + b) == collapsed_runs(a) + collapsed_runs(b),
    decreases a.len(),
{
    if a.len() == 0 {
        assert(a + b =~= b);
        assert(collapsed_runs(a) + collapsed_runs(b) =~= collapsed_runs(b));
    } else {
        let both = a + b;
        let key = trimmed_start(a[0]);
        let n = run_length(a, key) as int;
        lemma_run_length(a, key);
        assert(n > 0);
        lemma_run_apart(a, b, key);
        let rest = a.skip(n);
        if rest.len() > 0 {
            assert(rest.last() == a.last());
        }
        lemma_runs_apart(rest, b);
        assert(both[0] == a[0]);
        assert(both.take(n) =~= a.take(n));
        assert(both.skip(n) =~= rest + b);
        assert(collapsed_runs(both) =~= collapsed_runs(a) + collapsed_runs(b));
    }
}

proof fn lemma_run_apart(a: Seq<Seq<char>>, b: Seq<Seq<char>>, key: Seq<char>)
    requires
        a.len() > 0 && b.len() > 0 ==> trimmed_start(a.last()) != trimmed_start(b[0]),
        a.len() > 0,
    ensures
        run_length(a + b, key) == run_length(a, key),
    decreases a.len(),
{
    let both = a + b;
    assert(both[0] == a[0]);
    if trimmed_start(a[0]) == key {
        let rest = a.skip(1);
        assert(both.skip(1) =~= rest + b);
        if rest.len() > 0 {
            assert(rest.last() == a.last());
            lemma_run_apart(rest, b, key);
        } else {
            assert(rest + b =~= b);
            assert(run_length(rest, key) == 0);
        }
    }
}

/// Lines that read the same, leading whitespace aside: one or two of them stay as
/// they are; of more the first stays, and a marker counts the others.
pub proof fn lemma_run(run: Seq<Seq<char>>)
    requires
        forall|i: int, j: int|
            0 <= i < run.len() && 0 <= j < run.len() ==> trimmed_start(#[trigger] run[i])
                == trimmed_start(#[trigger] run[j]),
    ensures
        run.len() < 3 ==> collapsed_runs(run) == run,
        run.len() >= 3 ==> collapsed_runs(run) == seq![
            run[0],
            repeat_marker((run.len() - 1) as nat),
        ],
{
    if run.len() > 0 {
        let key = trimmed_start(run[0]);
        assert forall|i: int| 0 <= i < run.len() implies trimmed_start(#[trigger] run[i])
            == key by {
            assert(trimmed_start(run[i]) == trimmed_start(run[0]));
        }
        lemma_whole_run(run, key);
        assert(run.take(run.len() as int) =~= run);
        assert(collapsed_runs(run.skip(run.len() as int)) =~= Seq::empty());
        if run.len() < 3 {
            assert(collapsed_runs(run) =~= run);
        } else {
            assert(collapsed_runs(run) =~= seq![run[0], repeat_marker((run.len() - 1) as nat)]);
        }
    } else {
        assert(collapsed_runs(run) =~= run);
    }
}

proof fn lemma_whole_run(run: Seq<Seq<char>>, key: Seq<char>)
    requires
        forall|i: int| 0 <= i < run.len() ==> trimmed_start(#[trigger] run[i]) == key,
    ensures
        run_length(run, key) == run.len(),
    decreases run.len(),
{
    if run.len() > 0 {
        let rest = run.skip(1);
        assert(trimmed_start(run[0]) == key);
        assert forall|i: int| 0 <= i < rest.len() implies trimmed_start(#[trigger] rest[i])
            == key by {
            assert(rest[i] == run[i + 1]);
        }
        lemma_whole_run(rest, key);
    }
}

/// Whether `lines` can be the lines of a text that ends with a newline or not.
pub open spec fn proper(lines: Seq<Seq<char>>, newline: bool) -> bool {
    &&& lines.len() > 0
    &&& forall|i: int| 0 <= i < lines.len() ==> !(#[trigger] lines[i]).contains('\n')
    &&& !newline ==> lines.last().len() > 0
}

/// The passes work line by line, and keep the newline at the end.
pub proof fn lemma_passes(lines: Seq<Seq<char>>, newline: bool)
    requires
        proper(lines, newline),
    ensures
        deduped_lines(rejoined(lines, newline)) == rejoined(collapsed_runs(lines), newline),
        deduped_traces(rejoined(lines, newline)) == rejoined(
            collapsed_blocks(lines.map_values(|l: Seq<char>| stack_dedup::classified(l))),
            newline,
        ),
        trimmed_stacks(rejoined(lines, newline)) == rejoined(
            trimmed_traces(lines.map_values(|l: Seq<char>| stack_trim::classified(l))),
            newline,
        ),
        deduped_lines(Seq::empty()) == Seq::<char>::empty(),
        deduped_traces(Seq::empty()) == Seq::<char>::empty(),
        trimmed_stacks(Seq::empty()) == Seq::<char>::empty(),
{
    lemma_body_rejoined(lines, newline);
}

/// Whether `line` starts with a bracket, leading whitespace aside. No pattern of a
/// trace can match such a line.
pub open spec fn in_brackets(line: Seq<char>) -> bool {
    trimmed_start(line).len() > 0 && trimmed_start(line)[0] == '('
}

/// What a line is in a trace is what the patterns say of it.
pub proof fn lemma_line_kinds(line: Seq<char>)
    ensures
        ({
            let text = trimmed_start(line);
            let plain = !in_brackets(line);
            let header = plain && (matched(EXCEPTION_HEADER@, text) || matched(CAUSED_BY@, text));
            let frame = plain && matched(AT_FRAME@, line);
            let more = plain && matched(MORE_FRAMES@, line);
            let in_block = stack_dedup::classified(line);
            let in_trace = stack_trim::classified(line);
            &&& in_block.text == line && in_trace.text == line
            &&& in_block.header == header && in_trace.header == header
            &&& in_block.frame == frame
            &&& in_block.continuation == (frame || more || plain && matched(CAUSED_BY@, text))
            &&& in_trace.frame == (frame || more)
            &&& in_trace.noise == (plain && any_matched(strs(NOISE_PATTERNS@), line))
        }),
{
}

/// Whether `lines` are a block: a header, then lines that continue it, among them a
/// frame.
pub open spec fn is_block(lines: Seq<BlockLine>) -> bool {
    &&& lines.len() > 0
    &&& lines[0].header
    &&& forall|k: int| 1 <= k < lines.len() ==> (#[trigger] lines[k]).continuation
    &&& exists|k: int| 1 <= k < lines.len() && (#[trigger] lines[k]).frame
}

/// Whether `lines` are blank, and no headers.
pub open spec fn is_gap(lines: Seq<BlockLine>) -> bool {
    forall|k: int|
        0 <= k < lines.len() ==> blank((#[trigger] lines[k]).text) && !lines[k].header
}

/// Whether what stands before `lines` does not go on in them.
pub open spec fn is_cut(lines: Seq<BlockLine>) -> bool {
    lines.len() > 0 ==> !lines[0].continuation
}

/// The text of `lines`.
pub open spec fn text_of(lines: Seq<BlockLine>) -> Seq<char> {
    joined(lines.map_values(|l: BlockLine| l.text), "\n"@)
}

/// A line with which no block starts stays as it is.
pub proof fn lemma_no_block(lines: Seq<BlockLine>)
    requires
        lines.len() > 0,
        forall|m: int| 0 <= m <= lines.len() ==> !is_block(#[trigger] lines.take(m)),
    ensures
        collapsed_blocks(lines) == seq![lines[0].text] + collapsed_blocks(lines.skip(1)),
{
    if starts_block(lines) {
        let n = block_length(lines) as int;
        lemma_block_length(lines);
        lemma_continuations(lines.skip(1));
        let block = lines.take(n);
        assert forall|k: int| 1 <= k < block.len() implies (#[trigger] block[k]).continuation by {
            assert(block[k] == lines.skip(1)[k - 1]);
        }
        let k = choose|k: int| 1 <= k < n && (#[trigger] lines[k]).frame;
        assert(block[k].frame);
        assert(is_block(lines.take(n)));
    }
}

proof fn lemma_block_front(block: Seq<BlockLine>, rest: Seq<BlockLine>)
    requires
        is_block(block),
        is_cut(rest),
    ensures
        starts_block(block + rest),
        block_length(block + rest) == block.len(),
        block_text(block + rest) == text_of(block),
        (block + rest).skip(block.len() as int) == rest,
{
    let all = block + rest;
    let front = block.skip(1);
    assert forall|k: int| 0 <= k < front.len() implies (#[trigger] front[k]).continuation by {
        assert(front[k] == block[k + 1]);
    }
    lemma_continuation_front(front, rest);
    assert(all.skip(1) =~= front + rest);
    let k = choose|k: int| 1 <= k < block.len() && (#[trigger] block[k]).frame;
    assert(all[k].frame);
    assert(all[0] == block[0]);
    assert(all.take(block.len() as int) =~= block);
    assert(stack_dedup::line_texts(block) =~= block.map_values(|l: BlockLine| l.text));
    assert(all.skip(block.len() as int) =~= rest);
}

/// A block that no block of the same text follows, blank lines aside, stays as it
/// is.
pub proof fn lemma_single_block(block: Seq<BlockLine>, rest: Seq<BlockLine>)
    requires
        is_block(block),
        is_cut(rest),
        forall|gap: Seq<BlockLine>, other: Seq<BlockLine>, end: Seq<BlockLine>|
            rest == #[trigger] (gap + other + end) && is_gap(gap) && is_block(other) && is_cut(end)
                ==> text_of(other) != text_of(block),
    ensures
        collapsed_blocks(block + rest) == seq![text_of(block)] + collapsed_blocks(rest),
{
    let text = text_of(block);
    lemma_block_front(block, rest);
    if repeats(rest, text) {
        let b = blank_count(rest) as int;
        let here = rest.skip(b);
        let n = block_length(here) as int;
        lemma_block_length(here);
        lemma_continuations(here.skip(1));
        let gap = rest.take(b);
        let other = here.take(n);
        let end = here.skip(n);
        assert forall|k: int| 0 <= k < gap.len() implies blank((#[trigger] gap[k]).text)
            && !gap[k].header by {
            lemma_blank_lines(rest, k);
        }
        assert forall|k: int| 1 <= k < other.len() implies (#[trigger] other[k]).continuation by {
            assert(other[k] == here.skip(1)[k - 1]);
        }
        let k = choose|k: int| 1 <= k < n && (#[trigger] here[k]).frame;
        assert(other[k].frame);
        assert(is_block(other));
        if end.len() > 0 {
            assert(end[0] == here.skip(1)[n - 1]);
        }
        assert(rest =~= gap + other + end);
        assert(stack_dedup::line_texts(other) =~= other.map_values(|l: BlockLine| l.text));
        assert(text_of(other) == text);
    }
    assert(rest.skip(0) =~= rest);
    assert(collapsed_blocks(block + rest) =~= seq![text] + collapsed_blocks(rest));
}

/// The line that says that there were `n` more blocks, if there were any.
pub open spec fn more_blocks(n: nat) -> Seq<Seq<char>> {
    if n == 0 {
        Seq::empty()
    } else {
        seq![repeat_marker(n)]
    }
}

/// A block of the same text in front of another, with blank lines alone between
/// them, makes the count of repeats one more, and changes nothing else.
pub proof fn lemma_repeated_block(
    block: Seq<BlockLine>,
    gap: Seq<BlockLine>,
    other: Seq<BlockLine>,
    rest: Seq<BlockLine>,
) -> (r: (nat, Seq<Seq<char>>))
    requires
        is_block(block) && is_block(other),
        text_of(block) == text_of(other),
        is_gap(gap),
        is_cut(gap + other),
        is_cut(rest),
    ensures
        collapsed_blocks(other + rest) == seq![text_of(block)] + more_blocks(r.0) + r.1,
        collapsed_blocks(block + (gap + (other + rest))) == seq![text_of(block)] + more_blocks(
            r.0 + 1,
        ) + r.1,
{
    let text = text_of(block);
    let after = gap + (other + rest);
    if gap.len() > 0 {
        assert(after[0] == gap[0] && (gap + other)[0] == gap[0]);
    } else {
        assert(after[0] == other[0] && (gap + other)[0] == other[0]);
    }
    lemma_collapsed_block(other, rest);
    lemma_collapsed_block(block, after);
    lemma_counted(gap, other, rest);
    (repeat_count(rest, text), collapsed_blocks(rest.skip(repeats_end(rest, text) as int)))
}

/// A block, its repeats and what follows.
proof fn lemma_collapsed_block(block: Seq<BlockLine>, rest: Seq<BlockLine>)
    requires
        is_block(block),
        is_cut(rest),
    ensures
        collapsed_blocks(block + rest) == seq![text_of(block)] + more_blocks(
            repeat_count(rest, text_of(block)),
        ) + collapsed_blocks(rest.skip(repeats_end(rest, text_of(block)) as int)),
{
    lemma_block_front(block, rest);
    assert(collapsed_blocks(block + rest) =~= seq![text_of(block)] + more_blocks(
        repeat_count(rest, text_of(block)),
    ) + collapsed_blocks(rest.skip(repeats_end(rest, text_of(block)) as int)));
}

/// One more block of the same text is one more repeat.
proof fn lemma_counted(gap: Seq<BlockLine>, other: Seq<BlockLine>, rest: Seq<BlockLine>)
    requires
        is_gap(gap),
        is_block(other),
        is_cut(rest),
    ensures
        ({
            let after = gap + (other + rest);
            let text = text_of(other);
            &&& repeat_count(after, text) == 1 + repeat_count(rest, text)
            &&& after.skip(repeats_end(after, text) as int) == rest.skip(
                repeats_end(rest, text) as int,
            )
        }),
{
    let after = gap + (other + rest);
    let text = text_of(other);
    let g = gap.len() as int;
    let n = g + other.len();
    lemma_block_front(other, rest);
    assert((other + rest)[0] == other[0]);
    lemma_gap_front(gap, other + rest);
    assert(after.skip(g) =~= other + rest);
    assert(repeats(after, text));
    assert(next_end(after) == n);
    assert(after.skip(n) =~= rest);
    lemma_repeats_end(rest, text);
    let end = repeats_end(rest, text) as int;
    assert(repeats_end(after, text) == n + end);
    assert(after.skip(n + end) =~= rest.skip(end));
}

proof fn lemma_gap_front(gap: Seq<BlockLine>, rest: Seq<BlockLine>)
    requires
        is_gap(gap),
        rest.len() > 0 ==> rest[0].header,
    ensures
        blank_count(gap + rest) == gap.len(),
    decreases gap.len(),
{
    let all = gap + rest;
    if gap.len() > 0 {
        let tail = gap.skip(1);
        assert(blank(gap[0].text) && !gap[0].header);
        assert(all[0] == gap[0]);
        assert forall|k: int| 0 <= k < tail.len() implies blank((#[trigger] tail[k]).text)
            && !tail[k].header by {
            assert(tail[k] == gap[k + 1]);
        }
        lemma_gap_front(tail, rest);
        assert(all.skip(1) =~= tail + rest);
    } else {
        assert(all =~= rest);
    }
}

/// The texts of `lines`.
pub open spec fn texts_of(lines: Seq<StackLine>) -> Seq<Seq<char>> {
    lines.map_values(|l: StackLine| l.text)
}

/// A trace is a header and all the frames that follow it; other lines stay as they
/// are.
pub proof fn lemma_traces(header: StackLine, frames: Seq<StackLine>, rest: Seq<StackLine>)
    requires
        forall|k: int| 0 <= k < frames.len() ==> (#[trigger] frames[k]).frame && !frames[k].header,
        rest.len() > 0 ==> !rest[0].frame || rest[0].header,
    ensures
        trimmed_traces(Seq::empty()) == Seq::<Seq<char>>::empty(),
        header.header ==> trimmed_traces(seq![header] + frames + rest) == trimmed_trace(
            seq![header] + frames,
        ) + trimmed_traces(rest),
        !header.header ==> trimmed_traces(seq![header] + rest) == seq![header.text]
            + trimmed_traces(rest),
{
    let all = seq![header] + frames + rest;
    lemma_frame_front(frames, rest);
    assert(all.skip(1) =~= frames + rest);
    assert(all.take(1 + frames.len() as int) =~= seq![header] + frames);
    assert(all.skip(1 + frames.len() as int) =~= rest);
    assert((seq![header] + rest).skip(1) =~= rest);
}

/// A trace stays as it is if no three frames in a row, the first and the last one
/// aside, are noise.
pub proof fn lemma_trace_kept(header: StackLine, frames: Seq<StackLine>)
    requires
        forall|k: int|
            0 < k && k + 2 < frames.len() - 1 ==> !((#[trigger] frames[k]).noise && frames[k
                + 1].noise && frames[k + 2].noise),
    ensures
        trimmed_trace(seq![header] + frames) == texts_of(seq![header] + frames),
{
    let all = seq![header] + frames;
    assert(all.skip(1) =~= frames);
    assert forall|k: int| !#[trigger] long_idle(frames, k) by {
        if long_idle(frames, k) {
            assert(frames[k].noise && frames[k + 1].noise && frames[k + 2].noise);
        }
    }
    lemma_short_frames(frames, 0);
    assert(frames.skip(0) =~= frames);
    assert(trimmed_trace(all) =~= texts_of(all));
}

/// Of three noise frames or more between the first and the last frame of a trace
/// the first is shown, and a marker counts the others.
pub proof fn lemma_trace_noise(
    header: StackLine,
    first: StackLine,
    noise: Seq<StackLine>,
    last: StackLine,
)
    requires
        noise.len() >= 3,
        forall|k: int| 0 <= k < noise.len() ==> (#[trigger] noise[k]).noise,
    ensures
        trimmed_trace(seq![header, first] + noise + seq![last]) == seq![
            header.text,
            first.text,
            noise[0].text,
            omission_marker((noise.len() - 1) as nat),
            last.text,
        ],
{
    let all = seq![header, first] + noise + seq![last];
    let frames = all.skip(1);
    let n = noise.len() as int;
    assert(frames =~= seq![first] + noise + seq![last]);
    lemma_idle_span(frames, 1, n);
    assert(frames.subrange(1, 1 + n) =~= noise);
    assert(!idle(frames, 0) && !idle(frames, n + 1));
    assert(shown_frames(frames, n + 2) =~= Seq::empty());
    assert(shown_frames(frames, n + 1) =~= seq![last.text]);
    assert(shown_frames(frames, 1) =~= shown_run(noise) + seq![last.text]);
    assert(shown_frames(frames, 0) =~= seq![first.text] + shown_frames(frames, 1));
    assert(trimmed_trace(all) =~= seq![
        header.text,
        first.text,
        noise[0].text,
        omission_marker((n - 1) as nat),
        last.text,
    ]);
}

proof fn lemma_idle_span(frames: Seq<StackLine>, i: int, n: int)
    requires
        0 < i && 0 <= n,
        i + n == frames.len() - 1,
        forall|k: int| i <= k < i + n ==> (#[trigger] frames[k]).noise,
    ensures
        idle_run(frames, i) == n,
    decreases n,
{
    if n > 0 {
        assert(frames[i].noise);
        lemma_idle_span(frames, i + 1, n - 1);
    }
}

/// Two stretches between the first and the last frame of a trace are treated by
/// themselves, unless a run of noise goes from one into the other.
pub proof fn lemma_trace_parts(
    header: StackLine,
    first: StackLine,
    a: Seq<StackLine>,
    b: Seq<StackLine>,
    last: StackLine,
)
    requires
        a.len() > 0 && b.len() > 0,
        !(a.last().noise && b[0].noise),
    ensures
        ({
            let front = trimmed_trace(seq![header, first] + a + seq![last]);
            let back = trimmed_trace(seq![header, first] + b + seq![last]);
            &&& front.len() >= 3 && back.len() >= 3
            &&& trimmed_trace(seq![header, first] + (a + b) + seq![last]) == front.drop_last()
                + back.skip(2)
        }),
{
    let whole = seq![header, first] + (a + b) + seq![last];
    let left = seq![header, first] + a + seq![last];
    let right = seq![header, first] + b + seq![last];
    let f = whole.skip(1);
    let f1 = left.skip(1);
    let f2 = right.skip(1);
    let n = a.len() as int;
    assert(f =~= seq![first] + (a + b) + seq![last]);
    assert(f1 =~= seq![first] + a + seq![last]);
    assert(f2 =~= seq![first] + b + seq![last]);
    lemma_front_part(f, f1, n, 1);
    lemma_back_part(f, f2, n, 1);
    assert(!idle(f, 0) && !idle(f1, 0) && !idle(f2, 0));
    assert(shown_frames(f, 0) =~= seq![first.text] + shown_frames(f, 1));
    assert(shown_frames(f1, 0) =~= seq![first.text] + shown_frames(f1, 1));
    assert(shown_frames(f2, 0) =~= seq![first.text] + shown_frames(f2, 1));
    let front = trimmed_trace(left);
    let back = trimmed_trace(right);
    assert(front =~= seq![header.text, first.text] + shown_frames(f1, 1));
    assert(back =~= seq![header.text, first.text] + shown_frames(f2, 1));
    lemma_back_part(f2, f2, 0, 1);
    assert(shown_frames(f2, 1).len() > 0) by {
        lemma_shown_some(f2, 1);
    }
    assert(front.drop_last() =~= seq![header.text, first.text] + shown_frames(
        f1,
        1,
    ).drop_last());
    assert(back.skip(2) =~= shown_frames(f2, 1));
    assert(trimmed_trace(whole) =~= front.drop_last() + back.skip(2));
}

proof fn lemma_shown_some(frames: Seq<StackLine>, i: int)
    requires
        0 <= i < frames.len(),
    ensures
        shown_frames(frames, i).len() > 0,
{
    lemma_idle_run(frames, i);
    let n = idle_run(frames, i) as int;
    if n > 0 {
        assert(shown_run(frames.subrange(i, i + n)).len() > 0);
    }
}

/// Up to the end of the first stretch the frames are shown as if the last frame
/// came next.
proof fn lemma_front_part(f: Seq<StackLine>, f1: Seq<StackLine>, n: int, i: int)
    requires
        1 <= i <= n + 1,
        n + 2 == f1.len(),
        f1.len() < f.len(),
        forall|k: int| 0 <= k <= n ==> #[trigger] f[k] == f1[k],
        !(f[n].noise && f[n + 1].noise),
    ensures
        shown_frames(f1, i).len() > 0,
        shown_frames(f, i) == shown_frames(f1, i).drop_last() + shown_frames(f, n + 1),
    decreases n + 1 - i,
{
    lemma_shown_some(f1, i);
    if i == n + 1 {
        assert(!idle(f1, i));
        assert(shown_frames(f1, n + 2) =~= Seq::empty());
        assert(shown_frames(f1, i) =~= seq![f1[i].text]);
        assert(shown_frames(f1, i).drop_last() + shown_frames(f, n + 1) =~= shown_frames(
            f,
            n + 1,
        ));
    } else {
        lemma_front_run(f, f1, n, i);
        let m = idle_run(f, i) as int;
        assert(f[i] == f1[i]);
        if m == 0 {
            lemma_front_part(f, f1, n, i + 1);
            assert(shown_frames(f1, i) =~= seq![f1[i].text] + shown_frames(f1, i + 1));
            assert(shown_frames(f1, i).drop_last() =~= seq![f1[i].text] + shown_frames(
                f1,
                i + 1,
            ).drop_last());
            assert(shown_frames(f, i) =~= shown_frames(f1, i).drop_last() + shown_frames(
                f,
                n + 1,
            ));
        } else {
            lemma_front_part(f, f1, n, i + m);
            let run = f.subrange(i, i + m);
            assert(run =~= f1.subrange(i, i + m));
            assert(shown_frames(f1, i) =~= shown_run(run) + shown_frames(f1, i + m));
            assert(shown_frames(f1, i).drop_last() =~= shown_run(run) + shown_frames(
                f1,
                i + m,
            ).drop_last());
            assert(shown_frames(f, i) =~= shown_frames(f1, i).drop_last() + shown_frames(
                f,
                n + 1,
            ));
        }
    }
}

proof fn lemma_front_run(f: Seq<StackLine>, f1: Seq<StackLine>, n: int, i: int)
    requires
        1 <= i <= n,
        n + 2 == f1.len(),
        f1.len() < f.len(),
        forall|k: int| 0 <= k <= n ==> #[trigger] f[k] == f1[k],
        !(f[n].noise && f[n + 1].noise),
    ensures
        idle_run(f, i) == idle_run(f1, i),
        i + idle_run(f, i) <= n + 1,
    decreases n - i,
{
    assert(f[i] == f1[i]);
    if idle(f, i) {
        if i < n {
            lemma_front_run(f, f1, n, i + 1);
        } else {
            assert(!idle(f, n + 1));
            assert(!idle(f1, n + 1));
        }
    }
}

/// From the second stretch on the frames are shown as if the first frame came just
/// before.
proof fn lemma_back_part(f: Seq<StackLine>, f2: Seq<StackLine>, n: int, i: int)
    requires
        0 <= n,
        1 <= i <= f2.len(),
        f.len() == f2.len() + n,
        forall|k: int| 1 <= k < f2.len() ==> f[n + k] == #[trigger] f2[k],
    ensures
        shown_frames(f, n + i) == shown_frames(f2, i),
    decreases f2.len() - i,
{
    if i < f2.len() {
        lemma_back_run(f, f2, n, i);
        let m = idle_run(f2, i) as int;
        lemma_idle_run(f2, i);
        assert(f[n + i] == f2[i]);
        if m == 0 {
            lemma_back_part(f, f2, n, i + 1);
        } else {
            lemma_back_part(f, f2, n, i + m);
            let run = f.subrange(n + i, n + i + m);
            let run2 = f2.subrange(i, i + m);
            assert forall|k: int| 0 <= k < m implies run[k] == #[trigger] run2[k] by {
                assert(f[n + (i + k)] == f2[i + k]);
            }
            assert(run =~= run2);
        }
    }
}

proof fn lemma_back_run(f: Seq<StackLine>, f2: Seq<StackLine>, n: int, i: int)
    requires
        0 <= n,
        1 <= i <= f2.len(),
        f.len() == f2.len() + n,
        forall|k: int| 1 <= k < f2.len() ==> f[n + k] == #[trigger] f2[k],
    ensures
        idle_run(f, n + i) == idle_run(f2, i),
    decreases f2.len() - i,
{
    if i < f2.len() {
        assert(f[n + i] == f2[i]);
        if idle(f2, i) {
            lemma_back_run(f, f2, n, i + 1);
        }
    }
}

} // verus!
