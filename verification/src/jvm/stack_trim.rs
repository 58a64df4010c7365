//! Leaves framework frames out of stack traces.
//!
//! Within a trace, a run of noise frames (Groovy internals, reflection, test
//! runners) of three frames or more keeps its first frame, and a marker stands
//! for the others. Shorter runs, the first and the last frame of a trace, and
//! all other lines are passed through unchanged.
use crate::jvm::marker::{
    bracketed, is_bracketed, lemma_omission_plain, omission_line, omission_marker,
};
use crate::jvm::stack_dedup::{opens_block, AT_FRAME, CAUSED_BY, EXCEPTION_HEADER, MORE_FRAMES};
use crate::lines::{
    body_lines, ends_with_newline, lemma_body_last, lemma_body_plain, lemma_body_rejoined,
    lemma_rejoin_body, lemma_rejoined_newline, lemma_split_last, rejoin, rejoined, split_body,
};
use crate::pattern::{any_matched, matched, Pattern, PatternSet};
use crate::text::{strs, texts, trim_start};
use vstd::prelude::*;

verus! {

/// The frames that are noise.
pub const NOISE_PATTERNS: [&'static str; 15] = [
    r"^\s+at groovyjarjarasm\.",
    r"^\s+at org\.codehaus\.groovy\.",
    r"^\s+at sun\.reflect\.",
    r"^\s+at jdk\.internal\.reflect\.",
    r"^\s+at jdk\.proxy\d+\.",
    r"^\s+at java\.lang\.reflect\.Method\.invoke",
    r"^\s+at org\.junit\.platform\.engine\.support\.hierarchical\.",
    r"^\s+at org\.junit\.runners\.",
    r"^\s+at org\.junit\.internal\.runners\.",
    r"^\s+at org\.gradle\.api\.internal\.tasks\.testing\.",
    r"^\s+at org\.gradle\.internal\.dispatch\.",
    r"^\s+at org\.gradle\.process\.internal\.worker\.",
    r"^\s+at org\.apache\.maven\.surefire\.",
    r"^\s+at org\.apache\.maven\.plugin\.surefire\.",
    r"^\s+at worker\.org\.gradle\.process\.internal\.",
];

/// Whether `line` is a noise frame. No pattern of a frame takes a line that starts
/// with a bracket, as markers do.
pub open spec fn noisy(line: Seq<char>) -> bool {
    !bracketed(line) && any_matched(strs(NOISE_PATTERNS@), line)
}

/// Whether `line` is a frame, or stands for frames.
pub open spec fn frame_like(line: Seq<char>) -> bool {
    !bracketed(line) && (matched(AT_FRAME@, line) || matched(MORE_FRAMES@, line))
}

/// A line and what it is in a trace.
pub struct StackLine {
    pub text: Seq<char>,
    pub header: bool,
    pub frame: bool,
    pub noise: bool,
}

/// A line, and whether it is a header, a frame or a noise frame.
pub struct FrameLine {
    pub text: String,
    pub header: bool,
    pub frame: bool,
    pub noise: bool,
}

impl View for FrameLine {
    type V = StackLine;

    open spec fn view(&self) -> StackLine {
        StackLine { text: self.text@, header: self.header, frame: self.frame, noise: self.noise }
    }
}

/// The views of `lines`.
pub open spec fn stack_lines(lines: Seq<FrameLine>) -> Seq<StackLine> {
    Seq::new(lines.len(), |i: int| lines[i]@)
}

/// The texts of `lines`.
pub open spec fn line_texts(lines: Seq<StackLine>) -> Seq<Seq<char>> {
    Seq::new(lines.len(), |i: int| lines[i].text)
}

/// The line `text` with what it is in a trace.
pub open spec fn classified(text: Seq<char>) -> StackLine {
    StackLine {
        text,
        header: opens_block(text),
        frame: frame_like(text),
        noise: noisy(text),
    }
}

/// Whether the frame `i` may be left out: a noise frame that is neither the
/// first nor the last.
pub open spec fn idle(frames: Seq<StackLine>, i: int) -> bool {
    0 < i < frames.len() - 1 && frames[i].noise
}

/// How many frames from `i` on may be left out, one after the other.
pub open spec fn idle_run(frames: Seq<StackLine>, i: int) -> nat
    decreases frames.len() - i,
{
    if idle(frames, i) {
        1 + idle_run(frames, i + 1)
    } else {
        0
    }
}

/// What a run of frames that may be left out becomes.
pub open spec fn shown_run(run: Seq<StackLine>) -> Seq<Seq<char>> {
    if run.len() >= 3 {
        seq![run[0].text, omission_marker((run.len() - 1) as nat)]
    } else {
        line_texts(run)
    }
}

/// What is shown of the frames from `i` on.
pub open spec fn shown_frames(frames: Seq<StackLine>, i: int) -> Seq<Seq<char>>
    decreases frames.len() - i,
{
    if i < 0 || i >= frames.len() {
        Seq::empty()
    } else {
        let n = idle_run(frames, i) as int;
        if n == 0 {
            seq![frames[i].text] + shown_frames(frames, i + 1)
        } else {
            proof {
                lemma_idle_run(frames, i);
            }
            shown_run(frames.subrange(i, i + n)) + shown_frames(frames, i + n)
        }
    }
}

/// What is shown of the trace `lines`: its header, then its frames.
pub open spec fn trimmed_trace(lines: Seq<StackLine>) -> Seq<Seq<char>> {
    if lines.len() == 0 {
        Seq::empty()
    } else {
        seq![lines[0].text] + shown_frames(lines.skip(1), 0)
    }
}

/// How many lines at the head of `lines` are frames and no headers.
pub open spec fn frame_count(lines: Seq<StackLine>) -> nat
    decreases lines.len(),
{
    if lines.len() > 0 && lines[0].frame && !lines[0].header {
        1 + frame_count(lines.skip(1))
    } else {
        0
    }
}

/// `lines` with the noise frames left out of each trace.
pub open spec fn trimmed_traces(lines: Seq<StackLine>) -> Seq<Seq<char>>
    decreases lines.len(),
{
    if lines.len() == 0 {
        Seq::empty()
    } else if lines[0].header {
        let n = 1 + frame_count(lines.skip(1)) as int;
        proof {
            lemma_frame_count(lines.skip(1));
        }
        trimmed_trace(lines.take(n)) + trimmed_traces(lines.skip(n))
    } else {
        seq![lines[0].text] + trimmed_traces(lines.skip(1))
    }
}

/// `s` with the noise frames left out of its stack traces.
pub open spec fn trimmed_stacks(s: Seq<char>) -> Seq<char> {
    if s.len() == 0 {
        Seq::empty()
    } else {
        rejoined(
            trimmed_traces(body_lines(s).map_values(|line: Seq<char>| classified(line))),
            ends_with_newline(s),
        )
    }
}

/// A run of frames that may be left out ends before the last frame.
pub proof fn lemma_idle_run(frames: Seq<StackLine>, i: int)
    requires
        0 <= i < frames.len(),
    ensures
        i + idle_run(frames, i) < frames.len() || idle_run(frames, i) == 0,
        forall|k: int| i <= k < i + idle_run(frames, i) ==> idle(frames, k),
    decreases frames.len() - i,
{
    if idle(frames, i) {
        lemma_idle_run(frames, i + 1);
    }
}

/// No more lines are frames than there are.
pub proof fn lemma_frame_count(lines: Seq<StackLine>)
    ensures
        frame_count(lines) <= lines.len(),
    decreases lines.len(),
{
    if lines.len() > 0 && lines[0].frame && !lines[0].header {
        lemma_frame_count(lines.skip(1));
    }
}

/// Whether some three adjacent lines are noise frames.
pub open spec fn has_long_run(lines: Seq<StackLine>) -> bool {
    exists|i: int|
        #![trigger lines[i]]
        0 <= i < lines.len() - 2 && lines[i].noise && lines[i + 1].noise && lines[i + 2].noise
}

proof fn lemma_no_long_run_part(lines: Seq<StackLine>, from: int, to: int)
    requires
        0 <= from <= to <= lines.len(),
        !has_long_run(lines),
    ensures
        !has_long_run(lines.subrange(from, to)),
{
    let part = lines.subrange(from, to);
    if has_long_run(part) {
        let i = choose|i: int|
            #![trigger part[i]]
            0 <= i < part.len() - 2 && part[i].noise && part[i + 1].noise && part[i + 2].noise;
        assert(lines[from + i].noise && lines[from + i + 1].noise && lines[from + i + 2].noise);
    }
}

/// Whether three frames from `k` on may be left out.
pub open spec fn long_idle(frames: Seq<StackLine>, k: int) -> bool {
    idle(frames, k) && idle(frames, k + 1) && idle(frames, k + 2)
}

/// Frames of which no three in a row may be left out are shown as they are.
pub proof fn lemma_short_frames(frames: Seq<StackLine>, i: int)
    requires
        0 <= i <= frames.len(),
        forall|k: int| !#[trigger] long_idle(frames, k),
    ensures
        shown_frames(frames, i) == line_texts(frames.skip(i)),
    decreases frames.len() - i,
{
    let texts_left = line_texts(frames.skip(i));
    if i < frames.len() {
        let n = idle_run(frames, i) as int;
        lemma_idle_run(frames, i);
        if n == 0 {
            lemma_short_frames(frames, i + 1);
            assert(texts_left =~= seq![frames[i].text] + line_texts(frames.skip(i + 1)));
        } else {
            if n >= 3 {
                assert(long_idle(frames, i));
            }
            lemma_short_frames(frames, i + n);
            assert(texts_left =~= line_texts(frames.subrange(i, i + n)) + line_texts(
                frames.skip(i + n),
            ));
        }
    } else {
        assert(texts_left =~= Seq::empty());
    }
}

proof fn lemma_short_traces(lines: Seq<StackLine>)
    requires
        !has_long_run(lines),
    ensures
        trimmed_traces(lines) == line_texts(lines),
    decreases lines.len(),
{
    if lines.len() > 0 {
        let n = if lines[0].header {
            1 + frame_count(lines.skip(1)) as int
        } else {
            1
        };
        lemma_frame_count(lines.skip(1));
        lemma_no_long_run_part(lines, n, lines.len() as int);
        assert(lines.subrange(n, lines.len() as int) =~= lines.skip(n));
        lemma_short_traces(lines.skip(n));
        if lines[0].header {
            let frames = lines.take(n).skip(1);
            lemma_no_long_run_part(lines, 1, n);
            assert(lines.subrange(1, n) =~= frames);
            assert forall|k: int| !#[trigger] long_idle(frames, k) by {
                if long_idle(frames, k) {
                    assert(frames[k].noise);
                    assert(has_long_run(frames));
                }
            }
            lemma_short_frames(frames, 0);
            assert(frames.skip(0) =~= frames);
        }
        assert(trimmed_traces(lines) =~= line_texts(lines));
    } else {
        assert(trimmed_traces(lines) =~= line_texts(lines));
    }
}

/// A text without three adjacent noise frames is passed through unchanged.
pub proof fn lemma_short_runs_unchanged(s: Seq<char>)
    requires
        !has_long_run(body_lines(s).map_values(|line: Seq<char>| classified(line))),
    ensures
        trimmed_stacks(s) == s,
{
    if s.len() > 0 {
        let lines = body_lines(s).map_values(|line: Seq<char>| classified(line));
        lemma_short_traces(lines);
        assert(line_texts(lines) =~= body_lines(s));
        lemma_rejoin_body(s);
    } else {
        assert(s =~= Seq::empty());
    }
}

proof fn lemma_headless(lines: Seq<StackLine>)
    requires
        forall|i: int| 0 <= i < lines.len() ==> !(#[trigger] lines[i]).header,
    ensures
        trimmed_traces(lines) == line_texts(lines),
    decreases lines.len(),
{
    if lines.len() > 0 {
        lemma_headless(lines.skip(1));
    }
    assert(trimmed_traces(lines) =~= line_texts(lines));
}

/// A text without a trace header is passed through unchanged.
pub proof fn lemma_plain_text_unchanged(s: Seq<char>)
    requires
        forall|i: int|
            0 <= i < body_lines(s).len() ==> !opens_block(#[trigger] body_lines(s)[i]),
    ensures
        trimmed_stacks(s) == s,
{
    if s.len() > 0 {
        let lines = body_lines(s).map_values(|line: Seq<char>| classified(line));
        assert forall|i: int| 0 <= i < lines.len() implies !(#[trigger] lines[i]).header by {
            assert(!opens_block(body_lines(s)[i]));
        }
        lemma_headless(lines);
        assert(line_texts(lines) =~= body_lines(s));
        lemma_rejoin_body(s);
    } else {
        assert(s =~= Seq::empty());
    }
}

proof fn lemma_shown_last(frames: Seq<StackLine>, i: int)
    requires
        0 <= i < frames.len(),
    ensures
        shown_frames(frames, i).len() > 0,
        shown_frames(frames, i).last() == frames.last().text,
    decreases frames.len() - i,
{
    let n = idle_run(frames, i) as int;
    lemma_idle_run(frames, i);
    if n > 0 {
        lemma_shown_last(frames, i + n);
    } else if i + 1 < frames.len() {
        lemma_shown_last(frames, i + 1);
    } else {
        assert(shown_frames(frames, i + 1) =~= Seq::empty());
    }
}

/// The header of a trace, its first frame and its last frame are always shown,
/// in these places.
pub proof fn lemma_ends_survive(lines: Seq<StackLine>)
    requires
        lines.len() > 0,
    ensures
        trimmed_trace(lines).len() > 0,
        trimmed_trace(lines)[0] == lines[0].text,
        trimmed_trace(lines).last() == lines.last().text,
        lines.len() > 1 ==> trimmed_trace(lines).len() > 1 && trimmed_trace(lines)[1]
            == lines[1].text,
{
    let frames = lines.skip(1);
    if frames.len() > 0 {
        lemma_shown_last(frames, 0);
        assert(idle_run(frames, 0) == 0);
        assert(frames[0] == lines[1]);
    } else {
        assert(shown_frames(frames, 0) =~= Seq::empty());
    }
}

proof fn lemma_frame_survives(frames: Seq<StackLine>, i: int, k: int)
    requires
        0 <= i <= k < frames.len(),
        !frames[k].noise,
    ensures
        shown_frames(frames, i).contains(frames[k].text),
    decreases frames.len() - i,
{
    let out = shown_frames(frames, i);
    let n = idle_run(frames, i) as int;
    lemma_idle_run(frames, i);
    if n > 0 {
        assert(k >= i + n) by {
            if k < i + n {
                assert(idle(frames, k));
            }
        }
        lemma_frame_survives(frames, i + n, k);
        let head = shown_run(frames.subrange(i, i + n));
        let rest = shown_frames(frames, i + n);
        let j = choose|j: int| 0 <= j < rest.len() && rest[j] == frames[k].text;
        assert(out[head.len() + j] == frames[k].text);
    } else if k == i {
        assert(out[0] == frames[k].text);
    } else {
        lemma_frame_survives(frames, i + 1, k);
        let rest = shown_frames(frames, i + 1);
        let j = choose|j: int| 0 <= j < rest.len() && rest[j] == frames[k].text;
        assert(out[1 + j] == frames[k].text);
    }
}

/// No line is lost but for noise frames: each of the others is shown.
pub proof fn lemma_line_survives(lines: Seq<StackLine>, i: int)
    requires
        0 <= i < lines.len(),
        !lines[i].noise || !lines[i].frame,
    ensures
        trimmed_traces(lines).contains(lines[i].text),
    decreases lines.len(),
{
    let out = trimmed_traces(lines);
    let n = if lines[0].header {
        1 + frame_count(lines.skip(1)) as int
    } else {
        1
    };
    lemma_frame_count(lines.skip(1));
    let tail = lines.skip(n);
    let head = if lines[0].header {
        trimmed_trace(lines.take(n))
    } else {
        seq![lines[0].text]
    };
    assert(out == head + trimmed_traces(tail));
    if i >= n {
        lemma_line_survives(tail, i - n);
        let rest = trimmed_traces(tail);
        let j = choose|j: int| 0 <= j < rest.len() && rest[j] == tail[i - n].text;
        assert(out[head.len() + j] == lines[i].text);
    } else if i == 0 {
        assert(out[0] == lines[0].text);
    } else {
        let frames = lines.take(n).skip(1);
        lemma_frames_are_frames(lines.skip(1), i - 1);
        assert(frames[i - 1] == lines[i]);
        lemma_frame_survives(frames, 0, i - 1);
        let rest = shown_frames(frames, 0);
        let j = choose|j: int| 0 <= j < rest.len() && rest[j] == lines[i].text;
        assert(out[1 + j] == lines[i].text);
    }
}

proof fn lemma_frames_are_frames(lines: Seq<StackLine>, i: int)
    requires
        0 <= i < frame_count(lines),
    ensures
        i < lines.len() && lines[i].frame,
    decreases lines.len(),
{
    if i > 0 {
        lemma_frames_are_frames(lines.skip(1), i - 1);
    }
}

proof fn lemma_trimmed_last(lines: Seq<StackLine>)
    requires
        lines.len() > 0,
    ensures
        trimmed_traces(lines).len() > 0,
        trimmed_traces(lines).last() == lines.last().text,
    decreases lines.len(),
{
    let n = if lines[0].header {
        1 + frame_count(lines.skip(1)) as int
    } else {
        1
    };
    lemma_frame_count(lines.skip(1));
    if lines[0].header {
        lemma_ends_survive(lines.take(n));
    }
    if n < lines.len() {
        lemma_trimmed_last(lines.skip(n));
        assert(trimmed_traces(lines).last() == trimmed_traces(lines.skip(n)).last());
    } else {
        assert(trimmed_traces(lines.skip(n)) =~= Seq::empty());
        assert(lines.take(n) =~= lines);
    }
}

/// The result ends with a newline exactly when the text does.
pub proof fn lemma_trailing_newline(s: Seq<char>)
    ensures
        ends_with_newline(trimmed_stacks(s)) == ends_with_newline(s),
{
    if s.len() > 0 {
        let lines = body_lines(s).map_values(|line: Seq<char>| classified(line));
        if !ends_with_newline(s) {
            lemma_body_last(s);
            lemma_trimmed_last(lines);
        }
        lemma_rejoined_newline(trimmed_traces(lines), ends_with_newline(s));
    }
}

/// The line that stands for `n` frames: it is no frame itself.
pub open spec fn omission_note(n: nat) -> StackLine {
    StackLine { text: omission_marker(n), header: false, frame: false, noise: false }
}

/// The lines that are left of the frames from `i` on.
pub open spec fn frames_left(frames: Seq<StackLine>, i: int) -> Seq<StackLine>
    decreases frames.len() - i,
{
    if i < 0 || i >= frames.len() {
        Seq::empty()
    } else {
        let n = idle_run(frames, i) as int;
        if n == 0 {
            seq![frames[i]] + frames_left(frames, i + 1)
        } else {
            proof {
                lemma_idle_run(frames, i);
            }
            if n >= 3 {
                seq![frames[i], omission_note((n - 1) as nat)] + frames_left(frames, i + n)
            } else {
                frames.subrange(i, i + n) + frames_left(frames, i + n)
            }
        }
    }
}

/// The lines that are left of `lines` when noise frames are left out.
pub open spec fn lines_left(lines: Seq<StackLine>) -> Seq<StackLine>
    decreases lines.len(),
{
    if lines.len() == 0 {
        Seq::empty()
    } else if lines[0].header {
        let n = 1 + frame_count(lines.skip(1)) as int;
        proof {
            lemma_frame_count(lines.skip(1));
        }
        seq![lines[0]] + frames_left(lines.take(n).skip(1), 0) + lines_left(lines.skip(n))
    } else {
        seq![lines[0]] + lines_left(lines.skip(1))
    }
}

/// What is left of frames is frames and markers.
proof fn lemma_frames_left(frames: Seq<StackLine>, i: int)
    requires
        0 <= i <= frames.len(),
    ensures
        line_texts(frames_left(frames, i)) == shown_frames(frames, i),
        forall|k: int|
            0 <= k < frames_left(frames, i).len() ==> frames.contains(
                #[trigger] frames_left(frames, i)[k],
            ) || exists|m: nat| frames_left(frames, i)[k] == #[trigger] omission_note(m),
    decreases frames.len() - i,
{
    let left = frames_left(frames, i);
    if i < frames.len() {
        let n = idle_run(frames, i) as int;
        lemma_idle_run(frames, i);
        let step = if n == 0 {
            1
        } else {
            n
        };
        let head = if n == 0 {
            seq![frames[i]]
        } else if n >= 3 {
            seq![frames[i], omission_note((n - 1) as nat)]
        } else {
            frames.subrange(i, i + n)
        };
        let tail = frames_left(frames, i + step);
        lemma_frames_left(frames, i + step);
        assert(left == head + tail);
        if n > 0 {
            let run = frames.subrange(i, i + n);
            assert(line_texts(head) =~= shown_run(run));
        }
        assert(line_texts(left) =~= line_texts(head) + line_texts(tail));
        assert(line_texts(left) =~= shown_frames(frames, i));
        assert forall|k: int| 0 <= k < left.len() implies frames.contains(#[trigger] left[k])
            || exists|m: nat| left[k] == #[trigger] omission_note(m) by {
            if k >= head.len() {
                assert(left[k] == tail[k - head.len()]);
            } else if n >= 3 && k == 1 {
                assert(left[k] == omission_note((n - 1) as nat));
            } else {
                assert(left[k] == frames[i + k]);
            }
        }
    } else {
        assert(line_texts(left) =~= shown_frames(frames, i));
    }
}

/// What is left is lines that were there and markers, and starts as the lines do.
pub proof fn lemma_lines_left(lines: Seq<StackLine>)
    ensures
        line_texts(lines_left(lines)) == trimmed_traces(lines),
        lines.len() > 0 ==> lines_left(lines).len() > 0 && lines_left(lines)[0] == lines[0],
        forall|k: int|
            0 <= k < lines_left(lines).len() ==> lines.contains(#[trigger] lines_left(lines)[k])
                || exists|m: nat| lines_left(lines)[k] == #[trigger] omission_note(m),
    decreases lines.len(),
{
    let left = lines_left(lines);
    if lines.len() > 0 {
        let n = if lines[0].header {
            1 + frame_count(lines.skip(1)) as int
        } else {
            1
        };
        let frames = lines.take(n).skip(1);
        let middle = if lines[0].header {
            frames_left(frames, 0)
        } else {
            Seq::empty()
        };
        let tail = lines_left(lines.skip(n));
        lemma_frame_count(lines.skip(1));
        lemma_frames_left(frames, 0);
        lemma_lines_left(lines.skip(n));
        assert(left =~= seq![lines[0]] + middle + tail);
        assert(line_texts(left) =~= seq![lines[0].text] + line_texts(middle) + line_texts(tail));
        assert(line_texts(left) =~= trimmed_traces(lines));
        assert forall|k: int| 0 <= k < left.len() implies lines.contains(#[trigger] left[k])
            || exists|m: nat| left[k] == #[trigger] omission_note(m) by {
            if k == 0 {
                assert(left[k] == lines[0]);
            } else if k < 1 + middle.len() {
                assert(left[k] == middle[k - 1]);
                if frames.contains(left[k]) {
                    let m = choose|m: int| 0 <= m < frames.len() && frames[m] == left[k];
                    assert(lines[m + 1] == left[k]);
                }
            } else {
                assert(left[k] == tail[k - 1 - middle.len()]);
                if lines.skip(n).contains(left[k]) {
                    let rest = lines.skip(n);
                    let m = choose|m: int| 0 <= m < rest.len() && rest[m] == left[k];
                    assert(lines[n + m] == left[k]);
                }
            }
        }
    } else {
        assert(line_texts(left) =~= trimmed_traces(lines));
    }
}

/// Where the frames stop that are left as they are, before the first marker: up
/// to there no three of them may be left out.
proof fn lemma_frames_front(frames: Seq<StackLine>, i: int) -> (p: int)
    requires
        0 <= i <= frames.len(),
    ensures
        i <= p <= frames.len(),
        p - i <= frames_left(frames, i).len(),
        frames_left(frames, i).take(p - i) == frames.subrange(i, p),
        p - i < frames_left(frames, i).len() ==> exists|m: nat|
            frames_left(frames, i)[p - i] == #[trigger] omission_note(m),
        forall|k: int| i <= k && k + 2 < p - 1 ==> !#[trigger] long_idle(frames, k),
    decreases frames.len() - i,
{
    let left = frames_left(frames, i);
    if i < frames.len() {
        let n = idle_run(frames, i) as int;
        lemma_idle_run(frames, i);
        lemma_idle_stop(frames, i);
        if n >= 3 {
            assert(left[1] == omission_note((n - 1) as nat));
            assert(left.take(1) =~= frames.subrange(i, i + 1));
            i + 1
        } else {
            let step = if n == 0 {
                1
            } else {
                n
            };
            let p = lemma_frames_front(frames, i + step);
            let tail = frames_left(frames, i + step);
            assert(left =~= frames.subrange(i, i + step) + tail);
            assert(left.take(p - i) =~= frames.subrange(i, p)) by {
                assert(left.take(p - i) =~= frames.subrange(i, i + step) + tail.take(
                    p - i - step,
                ));
            }
            if p - i < left.len() {
                assert(left[p - i] == tail[p - i - step]);
            }
            assert forall|k: int| i <= k && k + 2 < p - 1 implies !#[trigger] long_idle(
                frames,
                k,
            ) by {
                if k < i + step {
                    assert(!idle(frames, i + n));
                }
            }
            p
        }
    } else {
        assert(left.take(0) =~= frames.subrange(i, i));
        i
    }
}

/// A run of frames that may be left out ends before one that may not.
proof fn lemma_idle_stop(frames: Seq<StackLine>, i: int)
    requires
        0 <= i < frames.len(),
    ensures
        !idle(frames, i + idle_run(frames, i)),
    decreases frames.len() - i,
{
    if idle(frames, i) {
        lemma_idle_stop(frames, i + 1);
    }
}

/// Frames in front are counted, up to a line that is none.
pub proof fn lemma_frame_front(front: Seq<StackLine>, back: Seq<StackLine>)
    requires
        forall|k: int| 0 <= k < front.len() ==> (#[trigger] front[k]).frame && !front[k].header,
        back.len() > 0 ==> !back[0].frame || back[0].header,
    ensures
        frame_count(front + back) == front.len(),
    decreases front.len(),
{
    if front.len() > 0 {
        let rest = front.skip(1);
        assert forall|k: int| 0 <= k < rest.len() implies (#[trigger] rest[k]).frame
            && !rest[k].header by {
            assert(rest[k] == front[k + 1]);
        }
        lemma_frame_front(rest, back);
        assert((front + back)[0] == front[0]);
        assert((front + back).skip(1) =~= rest + back);
    } else {
        assert(front + back =~= back);
    }
}

/// The lines that are counted are frames, and the one behind them is none.
proof fn lemma_frames(lines: Seq<StackLine>)
    ensures
        forall|k: int|
            0 <= k < frame_count(lines) ==> (#[trigger] lines[k]).frame && !lines[k].header,
        frame_count(lines) < lines.len() ==> !lines[frame_count(lines) as int].frame
            || lines[frame_count(lines) as int].header,
    decreases lines.len(),
{
    if lines.len() > 0 && lines[0].frame && !lines[0].header {
        let rest = lines.skip(1);
        lemma_frame_count(rest);
        lemma_frames(rest);
        assert forall|k: int| 0 <= k < frame_count(lines) implies (#[trigger] lines[k]).frame
            && !lines[k].header by {
            if k > 0 {
                assert(lines[k] == rest[k - 1]);
            }
        }
    }
}

/// Lines without a header in front are passed through one by one.
proof fn lemma_loose(front: Seq<StackLine>, back: Seq<StackLine>)
    requires
        forall|k: int| 0 <= k < front.len() ==> !(#[trigger] front[k]).header,
    ensures
        trimmed_traces(front + back) == line_texts(front) + trimmed_traces(back),
    decreases front.len(),
{
    if front.len() > 0 {
        let rest = front.skip(1);
        assert forall|k: int| 0 <= k < rest.len() implies !(#[trigger] rest[k]).header by {
            assert(rest[k] == front[k + 1]);
        }
        lemma_loose(rest, back);
        assert((front + back)[0] == front[0]);
        assert((front + back).skip(1) =~= rest + back);
        assert(line_texts(front) =~= seq![front[0].text] + line_texts(rest));
        assert(trimmed_traces(front + back) =~= line_texts(front) + trimmed_traces(back));
    } else {
        assert(front + back =~= back);
        assert(line_texts(front) + trimmed_traces(back) =~= trimmed_traces(back));
    }
}

/// There is nothing more to leave out of what is left.
#[verifier::spinoff_prover]
pub proof fn lemma_left_trimmed(lines: Seq<StackLine>)
    ensures
        trimmed_traces(lines_left(lines)) == line_texts(lines_left(lines)),
    decreases lines.len(),
{
    let left = lines_left(lines);
    if lines.len() > 0 {
        lemma_lines_left(lines);
        if lines[0].header {
            let n = 1 + frame_count(lines.skip(1)) as int;
            let frames = lines.take(n).skip(1);
            let middle = frames_left(frames, 0);
            let after = lines.skip(n);
            let tail = lines_left(after);
            lemma_frame_count(lines.skip(1));
            lemma_frames(lines.skip(1));
            lemma_left_trimmed(after);
            lemma_lines_left(after);
            lemma_frames_left(frames, 0);
            let p = lemma_frames_front(frames, 0);
            let front = frames.take(p);
            let loose = middle.skip(p);
            assert(front =~= middle.take(p));
            assert(middle =~= front + loose);
            assert forall|k: int| 0 <= k < frames.len() implies (#[trigger] frames[k]).frame
                && !frames[k].header by {
                assert(frames[k] == lines.skip(1)[k]);
            }
            assert forall|k: int| 0 <= k < loose.len() implies !(#[trigger] loose[k]).header by {
                assert(loose[k] == middle[p + k]);
                if frames.contains(middle[p + k]) {
                    let m = choose|m: int| 0 <= m < frames.len() && frames[m] == middle[p + k];
                    assert(!frames[m].header);
                }
            }
            if loose.len() > 0 {
                assert(loose[0] == middle[p]);
            } else if tail.len() > 0 {
                assert(after.len() > 0) by {
                    if after.len() == 0 {
                        assert(tail =~= Seq::empty());
                    }
                }
                assert(tail[0] == after[0]);
                assert(after[0] == lines.skip(1)[n - 1]);
            }
            let back = loose + tail;
            lemma_frame_front(front, back);
            assert(left =~= seq![lines[0]] + (front + back));
            assert(left.skip(1) =~= front + back);
            assert(left.take(1 + p) =~= seq![lines[0]] + front);
            assert(left.skip(1 + p) =~= back);
            assert(left.take(1 + p).skip(1) =~= front);
            assert forall|k: int| !#[trigger] long_idle(front, k) by {
                if long_idle(front, k) {
                    assert(idle(frames, k) && idle(frames, k + 1) && idle(frames, k + 2));
                    assert(long_idle(frames, k));
                }
            }
            lemma_short_frames(front, 0);
            assert(front.skip(0) =~= front);
            lemma_loose(loose, tail);
            assert(trimmed_traces(left) =~= line_texts(left));
        } else {
            lemma_left_trimmed(lines.skip(1));
            assert(left.skip(1) =~= lines_left(lines.skip(1)));
            assert(trimmed_traces(left) =~= line_texts(left));
        }
    } else {
        assert(trimmed_traces(left) =~= line_texts(left));
    }
}

/// Trimming twice gives what trimming once gives.
pub proof fn lemma_idempotent(s: Seq<char>)
    ensures
        trimmed_stacks(trimmed_stacks(s)) == trimmed_stacks(s),
{
    let once = trimmed_stacks(s);
    if s.len() > 0 {
        let lines = body_lines(s).map_values(|l: Seq<char>| classified(l));
        let left = lines_left(lines);
        let kept = line_texts(left);
        let newline = ends_with_newline(s);
        lemma_lines_left(lines);
        lemma_left_trimmed(lines);
        lemma_body_plain(s);
        lemma_split_last(s);
        assert forall|k: int| 0 <= k < left.len() implies left[k] == classified(
            #[trigger] left[k].text,
        ) && !left[k].text.contains('\n') by {
            if lines.contains(left[k]) {
                let m = choose|m: int| 0 <= m < lines.len() && lines[m] == left[k];
                assert(left[k] == classified(body_lines(s)[m]));
            } else {
                let n = choose|n: nat| left[k] == #[trigger] omission_note(n);
                lemma_omission_plain(n);
            }
        }
        assert(lines.len() > 0) by {
            if newline {
                assert(s =~= s.drop_last().push('\n'));
                lemma_split_last(s.drop_last());
            }
        }
        if !newline {
            lemma_body_last(s);
            lemma_trimmed_last(lines);
        }
        lemma_body_rejoined(kept, newline);
        assert(body_lines(once).map_values(|l: Seq<char>| classified(l)) =~= left);
        assert(once == rejoined(kept, newline));
    } else {
        assert(once =~= s);
    }
}

/// The lines of a trimmed text are what is left of the lines of the text.
pub proof fn lemma_trimmed_lines(s: Seq<char>)
    requires
        s.len() > 0,
    ensures
        body_lines(trimmed_stacks(s)) == trimmed_traces(
            body_lines(s).map_values(|l: Seq<char>| classified(l)),
        ),
        ends_with_newline(trimmed_stacks(s)) == ends_with_newline(s),
        trimmed_stacks(s).len() > 0,
{
    let lines = body_lines(s).map_values(|l: Seq<char>| classified(l));
    let left = lines_left(lines);
    let kept = trimmed_traces(lines);
    let newline = ends_with_newline(s);
    lemma_lines_left(lines);
    lemma_body_plain(s);
    lemma_split_last(s);
    assert forall|k: int| 0 <= k < kept.len() implies !(#[trigger] kept[k]).contains('\n') by {
        assert(kept[k] == left[k].text);
        if lines.contains(left[k]) {
            let m = choose|m: int| 0 <= m < lines.len() && lines[m] == left[k];
            assert(left[k].text == body_lines(s)[m]);
        } else {
            let n = choose|n: nat| left[k] == #[trigger] omission_note(n);
            lemma_omission_plain(n);
        }
    }
    assert(lines.len() > 0) by {
        if newline {
            assert(s =~= s.drop_last().push('\n'));
            lemma_split_last(s.drop_last());
        }
    }
    if !newline {
        lemma_body_last(s);
        lemma_trimmed_last(lines);
    }
    lemma_body_rejoined(kept, newline);
}

/// Trimming loses a line of a text only if one of the patterns of noise matches it,
/// and one of the patterns of frames, and it does not start with a bracket.
pub proof fn lemma_text_line_survives(s: Seq<char>, i: int)
    requires
        0 <= i < body_lines(s).len(),
        ({
            let line = body_lines(s)[i];
            ||| !any_matched(strs(NOISE_PATTERNS@), line)
            ||| !matched(AT_FRAME@, line) && !matched(MORE_FRAMES@, line)
            ||| bracketed(line)
        }),
    ensures
        body_lines(trimmed_stacks(s)).contains(body_lines(s)[i]),
        trimmed_stacks(s).len() > 0,
{
    let lines = body_lines(s).map_values(|l: Seq<char>| classified(l));
    lemma_split_last(s);
    lemma_trimmed_lines(s);
    lemma_line_survives(lines, i);
}

/// Copies the texts of `lines[from..to]` to the end of `out`.
fn push_texts(out: &mut Vec<String>, lines: &[FrameLine], from: usize, to: usize)
    requires
        from <= to <= lines@.len(),
    ensures
        texts(final(out)@) == texts(old(out)@) + line_texts(
            stack_lines(lines@).subrange(from as int, to as int),
        ),
{
    let ghost all = stack_lines(lines@);
    let ghost before = texts(out@);
    assert(texts(out@) =~= before + line_texts(all.subrange(from as int, from as int)));
    for i in from..to
        invariant
            from <= to <= lines@.len(),
            all == stack_lines(lines@),
            texts(out@) == before + line_texts(all.subrange(from as int, i as int)),
    {
        let ghost so_far = texts(out@);
        out.push(lines[i].text.clone());
        assert(texts(out@) =~= so_far.push(all[i as int].text));
        assert(line_texts(all.subrange(from as int, i + 1)) =~= line_texts(
            all.subrange(from as int, i as int),
        ).push(all[i as int].text));
    }
}

/// How many frames from `i` on may be left out, one after the other.
fn count_idle(frames: &[FrameLine], i: usize) -> (r: usize)
    requires
        i < frames@.len(),
    ensures
        r == idle_run(stack_lines(frames@), i as int),
        i + r <= frames@.len(),
{
    let n: usize = frames.len();
    let ghost all = stack_lines(frames@);
    let mut end: usize = i;
    while 0 < end && end < n - 1 && frames[end].noise
        invariant
            n == frames@.len(),
            all == stack_lines(frames@),
            i <= end <= n,
            0 < n,
            idle_run(all, i as int) == end - i + idle_run(all, end as int),
        decreases n - end,
    {
        assert(all[end as int] == frames@[end as int]@);
        end = end + 1;
    }
    assert(end < n ==> all[end as int] == frames@[end as int]@);
    end - i
}

/// Leaves the noise frames out of the trace `lines`: a header, then frames.
pub fn trim_trace(lines: &[FrameLine]) -> (r: Vec<String>)
    ensures
        texts(r@) == trimmed_trace(stack_lines(lines@)),
{
    let mut out: Vec<String> = Vec::new();
    let n: usize = lines.len();
    if n == 0 {
        assert(texts(out@) =~= Seq::empty());
        return out;
    }
    out.push(lines[0].text.clone());
    let frames = vstd::slice::slice_subrange(lines, 1, n);
    let ghost all = stack_lines(frames@);
    let ghost whole = trimmed_trace(stack_lines(lines@));
    assert(all =~= stack_lines(lines@).skip(1));
    let m: usize = frames.len();
    let mut i: usize = 0;
    assert(whole =~= texts(out@) + shown_frames(all, 0));
    while i < m
        invariant
            m == frames@.len(),
            all == stack_lines(frames@),
            i <= m,
            whole == texts(out@) + shown_frames(all, i as int),
        decreases m - i,
    {
        let ghost before = texts(out@);
        proof {
            lemma_idle_run(all, i as int);
        }
        let run = count_idle(frames, i);
        if run == 0 {
            out.push(frames[i].text.clone());
            assert(texts(out@) =~= before + seq![all[i as int].text]);
            assert(texts(out@) + shown_frames(all, i + 1) =~= before + (seq![all[i as int].text]
                + shown_frames(all, i + 1)));
            i = i + 1;
        } else {
            let ghost part = all.subrange(i as int, i + run);
            if run >= 3 {
                out.push(frames[i].text.clone());
                out.push(omission_line(run - 1));
                assert(texts(out@) =~= before + shown_run(part));
            } else {
                push_texts(&mut out, frames, i, i + run);
            }
            assert(texts(out@) + shown_frames(all, i + run) =~= before + (shown_run(part)
                + shown_frames(all, i + run)));
            i = i + run;
        }
    }
    assert(texts(out@) + shown_frames(all, m as int) =~= texts(out@));
    out
}

/// Where the trace ends whose header is `lines[start]`.
fn trace_end(lines: &[FrameLine], start: usize) -> (r: usize)
    requires
        start < lines@.len(),
    ensures
        start < r <= lines@.len(),
        r == start + 1 + frame_count(stack_lines(lines@).skip(start + 1)),
{
    let n: usize = lines.len();
    let ghost all = stack_lines(lines@);
    let mut end: usize = start + 1;
    while end < n && lines[end].frame && !lines[end].header
        invariant
            n == lines@.len(),
            all == stack_lines(lines@),
            start < end <= n,
            frame_count(all.skip(start + 1)) == end - start - 1 + frame_count(all.skip(end as int)),
        decreases n - end,
    {
        assert(all.skip(end as int).skip(1) =~= all.skip(end + 1));
        assert(all.skip(end as int)[0] == lines@[end as int]@);
        end = end + 1;
    }
    assert(end < n ==> all.skip(end as int)[0] == lines@[end as int]@);
    end
}

/// Leaves the noise frames out of each trace.
pub fn trim_traces(lines: &[FrameLine]) -> (r: Vec<String>)
    ensures
        texts(r@) == trimmed_traces(stack_lines(lines@)),
{
    let n: usize = lines.len();
    let ghost all = stack_lines(lines@);
    let mut out: Vec<String> = Vec::new();
    let mut i: usize = 0;
    assert(all.skip(0) =~= all);
    assert(texts(out@) + trimmed_traces(all) =~= trimmed_traces(all));
    while i < n
        invariant
            n == lines@.len(),
            all == stack_lines(lines@),
            i <= n,
            trimmed_traces(all) == texts(out@) + trimmed_traces(all.skip(i as int)),
        decreases n - i,
    {
        let ghost here = all.skip(i as int);
        let ghost before = texts(out@);
        assert(here[0] == lines@[i as int]@);
        if lines[i].header {
            let end = trace_end(lines, i);
            let trace = vstd::slice::slice_subrange(lines, i, end);
            assert(here.skip(1) =~= all.skip(i + 1));
            assert(stack_lines(trace@) =~= here.take(end - i));
            assert(here.skip(end - i) =~= all.skip(end as int));
            let mut shown = trim_trace(trace);
            let ghost part = texts(shown@);
            out.append(&mut shown);
            assert(texts(out@) =~= before + part);
            assert(texts(out@) + trimmed_traces(all.skip(end as int)) =~= before + (part
                + trimmed_traces(all.skip(end as int))));
            i = end;
        } else {
            out.push(lines[i].text.clone());
            assert(here.skip(1) =~= all.skip(i + 1));
            assert(texts(out@) =~= before + seq![here[0].text]);
            assert(texts(out@) + trimmed_traces(all.skip(i + 1)) =~= before + (seq![here[0].text]
                + trimmed_traces(all.skip(i + 1))));
            i = i + 1;
        }
    }
    assert(texts(out@) + trimmed_traces(all.skip(n as int)) =~= texts(out@));
    out
}

/// The patterns that tell what a line is in a trace.
pub struct StackPatterns {
    exception_header: Pattern,
    caused_by: Pattern,
    at_frame: Pattern,
    more_frames: Pattern,
    noise: PatternSet,
}

impl StackPatterns {
    /// Whether the patterns are those that they are named after.
    #[verifier::type_invariant]
    pub closed spec fn wf(self) -> bool {
        &&& self.exception_header@ == EXCEPTION_HEADER@
        &&& self.caused_by@ == CAUSED_BY@
        &&& self.at_frame@ == AT_FRAME@
        &&& self.more_frames@ == MORE_FRAMES@
        &&& self.noise@ == strs(NOISE_PATTERNS@)
    }

    /// Compiles the patterns.
    pub fn new() -> (r: StackPatterns)
        ensures
            r.wf(),
    {
        StackPatterns {
            exception_header: Pattern::new(EXCEPTION_HEADER),
            caused_by: Pattern::new(CAUSED_BY),
            at_frame: Pattern::new(AT_FRAME),
            more_frames: Pattern::new(MORE_FRAMES),
            noise: PatternSet::new(&NOISE_PATTERNS),
        }
    }

    /// Whether `line` is a noise frame.
    pub fn is_noise(&self, line: &str) -> (r: bool)
        ensures
            r == noisy(line@),
    {
        proof {
            use_type_invariant(self);
        }
        !is_bracketed(line) && self.noise.any_match(line)
    }

    /// Whether `line` is the header of a trace.
    pub fn is_trace_header(&self, line: &str) -> (r: bool)
        ensures
            r == opens_block(line@),
    {
        proof {
            use_type_invariant(self);
        }
        let start = trim_start(line);
        !is_bracketed(line) && (self.exception_header.is_match(start) || self.caused_by.is_match(
            start,
        ))
    }

    /// Whether `line` is a frame, or stands for frames.
    pub fn is_frame(&self, line: &str) -> (r: bool)
        ensures
            r == frame_like(line@),
    {
        proof {
            use_type_invariant(self);
        }
        !is_bracketed(line) && (self.at_frame.is_match(line) || self.more_frames.is_match(line))
    }
}

/// Leaves the noise frames out of the stack traces in `input`.
///
/// Of a run of three noise frames or more the first is kept, and the line
/// `(... N frames omitted ...)` stands for the others.
pub fn trim_stack_noise(input: &str) -> (r: String)
    ensures
        r@ == trimmed_stacks(input@),
{
    if input.is_empty() {
        return String::new();
    }
    let (body, newline) = split_body(input);
    let patterns = StackPatterns::new();
    let mut lines: Vec<FrameLine> = Vec::new();
    let n: usize = body.len();
    for i in 0..n
        invariant
            n == body@.len(),
            lines@.len() == i,
            forall|k: int| 0 <= k < i ==> (#[trigger] lines@[k])@ == classified(body@[k]@),
    {
        let text = body[i].clone();
        let header = patterns.is_trace_header(text.as_str());
        let frame = patterns.is_frame(text.as_str());
        let noise = patterns.is_noise(text.as_str());
        lines.push(FrameLine { text, header, frame, noise });
    }
    assert(stack_lines(lines@) =~= body_lines(input@).map_values(
        |line: Seq<char>| classified(line),
    )) by {
        assert forall|k: int| 0 <= k < n implies #[trigger] stack_lines(lines@)[k] == classified(
            body_lines(input@)[k],
        ) by {
            assert(texts(body@)[k] == body@[k]@);
        }
    }
    let out = trim_traces(lines.as_slice());
    rejoin(out.as_slice(), newline)
}

} // verus!
