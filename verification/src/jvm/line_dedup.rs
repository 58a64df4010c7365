//! Collapses adjacent runs of identical lines, leading whitespace aside.
//!
//! A run of three or more lines becomes its first line and a marker that says
//! how many more there were. A shorter run is passed through unchanged.
use crate::jvm::marker::{lemma_marker_last, lemma_marker_plain, repeat_line, repeat_marker};
use crate::lines::{
    body_lines, ends_with_newline, lemma_body_last, lemma_body_plain, lemma_body_rejoined,
    lemma_rejoin_body, lemma_rejoined_newline, lemma_rejoined_pieces, lemma_split_join,
    lemma_split_last, lemma_split_plain, rejoin, rejoined, split_body, split_newlines,
};
use crate::text::{
    blank, lemma_first_word, lemma_trimmed_blank, same, texts, trim_start, trimmed_start,
};
use vstd::prelude::*;

verus! {

/// How many lines at the head of `lines` read `key` after their leading
/// whitespace.
pub open spec fn run_length(lines: Seq<Seq<char>>, key: Seq<char>) -> nat
    decreases lines.len(),
{
    if lines.len() > 0 && trimmed_start(lines[0]) == key {
        1 + run_length(lines.skip(1), key)
    } else {
        0
    }
}

/// What a run of lines with one key becomes.
pub open spec fn collapsed_run(run: Seq<Seq<char>>) -> Seq<Seq<char>> {
    if run.len() >= 3 {
        seq![run[0], repeat_marker((run.len() - 1) as nat)]
    } else {
        run
    }
}

/// `lines` with each run of lines with one key collapsed.
pub open spec fn collapsed_runs(lines: Seq<Seq<char>>) -> Seq<Seq<char>>
    decreases lines.len(),
{
    if lines.len() == 0 {
        Seq::empty()
    } else {
        let n = run_length(lines, trimmed_start(lines[0])) as int;
        proof {
            lemma_run_length(lines, trimmed_start(lines[0]));
        }
        collapsed_run(lines.take(n)) + collapsed_runs(lines.skip(n))
    }
}

/// `s` with its runs of lines collapsed.
pub open spec fn deduped_lines(s: Seq<char>) -> Seq<char> {
    if s.len() == 0 {
        Seq::empty()
    } else {
        rejoined(collapsed_runs(body_lines(s)), ends_with_newline(s))
    }
}

/// A run lies within the lines, and each line in it has its key.
pub proof fn lemma_run_length(lines: Seq<Seq<char>>, key: Seq<char>)
    ensures
        run_length(lines, key) <= lines.len(),
        forall|k: int| 0 <= k < run_length(lines, key) ==> trimmed_start(#[trigger] lines[k])
            == key,
    decreases lines.len(),
{
    if lines.len() > 0 && trimmed_start(lines[0]) == key {
        lemma_run_length(lines.skip(1), key);
        assert forall|k: int| 0 <= k < run_length(lines, key) implies trimmed_start(
            #[trigger] lines[k],
        ) == key by {
            if k > 0 {
                assert(lines.skip(1)[k - 1] == lines[k]);
            }
        }
    }
}

/// Whether some three adjacent lines have one key.
pub open spec fn has_long_run(lines: Seq<Seq<char>>) -> bool {
    exists|i: int|
        #![trigger lines[i]]
        0 <= i < lines.len() - 2 && trimmed_start(lines[i]) == trimmed_start(lines[i + 1])
            && trimmed_start(lines[i + 1]) == trimmed_start(lines[i + 2])
}

proof fn lemma_short_runs(lines: Seq<Seq<char>>)
    requires
        !has_long_run(lines),
    ensures
        collapsed_runs(lines) == lines,
    decreases lines.len(),
{
    if lines.len() > 0 {
        let key = trimmed_start(lines[0]);
        let n = run_length(lines, key) as int;
        lemma_run_length(lines, key);
        if n >= 3 {
            assert(trimmed_start(lines[0]) == key && trimmed_start(lines[1]) == key
                && trimmed_start(lines[2]) == key);
            assert(has_long_run(lines));
        }
        let rest = lines.skip(n);
        if has_long_run(rest) {
            let i = choose|i: int|
                #![trigger rest[i]]
                0 <= i < rest.len() - 2 && trimmed_start(rest[i]) == trimmed_start(rest[i + 1])
                    && trimmed_start(rest[i + 1]) == trimmed_start(rest[i + 2]);
            assert(rest[i] == lines[n + i] && rest[i + 1] == lines[n + i + 1] && rest[i + 2]
                == lines[n + i + 2]);
            assert(has_long_run(lines));
        }
        lemma_short_runs(rest);
        assert(lines.take(n) + rest =~= lines);
    }
}

/// A text without three adjacent lines of one key is passed through unchanged.
pub proof fn lemma_short_runs_unchanged(s: Seq<char>)
    requires
        !has_long_run(body_lines(s)),
    ensures
        deduped_lines(s) == s,
{
    if s.len() > 0 {
        lemma_short_runs(body_lines(s));
        lemma_rejoin_body(s);
    } else {
        assert(s =~= Seq::empty());
    }
}

/// Whether `line` reads as a marker, leading whitespace aside.
pub open spec fn reads_as_marker(line: Seq<char>) -> bool {
    exists|n: nat| trimmed_start(line) == #[trigger] repeat_marker(n)
}

proof fn lemma_collapsed_short(lines: Seq<Seq<char>>)
    requires
        forall|i: int| 0 <= i < lines.len() ==> !reads_as_marker(#[trigger] lines[i]),
    ensures
        !has_long_run(collapsed_runs(lines)),
        lines.len() > 0 ==> collapsed_runs(lines).len() > 0 && collapsed_runs(lines)[0]
            == lines[0],
        forall|k: int|
            0 <= k < collapsed_runs(lines).len() ==> lines.contains(
                #[trigger] collapsed_runs(lines)[k],
            ) || exists|n: nat| collapsed_runs(lines)[k] == #[trigger] repeat_marker(n),
    decreases lines.len(),
{
    if lines.len() > 0 {
        let key = trimmed_start(lines[0]);
        let n = run_length(lines, key) as int;
        let head = collapsed_run(lines.take(n));
        let rest = lines.skip(n);
        let tail = collapsed_runs(rest);
        let out = collapsed_runs(lines);
        lemma_run_length(lines, key);
        lemma_run_stop(lines, key);
        assert forall|i: int| 0 <= i < rest.len() implies !reads_as_marker(#[trigger] rest[i]) by {
            assert(rest[i] == lines[n + i]);
        }
        lemma_collapsed_short(rest);
        assert(out == head + tail);
        assert forall|k: int| 0 <= k < out.len() implies lines.contains(#[trigger] out[k])
            || exists|m: nat| out[k] == #[trigger] repeat_marker(m) by {
            if k >= head.len() {
                assert(out[k] == tail[k - head.len()]);
                if rest.contains(out[k]) {
                    let m = choose|m: int| 0 <= m < rest.len() && rest[m] == out[k];
                    assert(lines[n + m] == out[k]);
                }
            } else if n >= 3 {
                assert(k == 0 ==> out[k] == lines[0]);
                assert(k == 1 ==> out[k] == repeat_marker((n - 1) as nat));
            } else {
                assert(out[k] == lines[k]);
            }
        }
        if has_long_run(out) {
            let i = choose|i: int|
                #![trigger out[i]]
                0 <= i < out.len() - 2 && trimmed_start(out[i]) == trimmed_start(out[i + 1])
                    && trimmed_start(out[i + 1]) == trimmed_start(out[i + 2]);
            if i >= head.len() {
                let j = i - head.len();
                assert(tail[j] == out[i] && tail[j + 1] == out[i + 1] && tail[j + 2] == out[i + 2]);
                assert(has_long_run(tail));
            } else if n >= 3 {
                let mark = repeat_marker((n - 1) as nat);
                lemma_marker_plain((n - 1) as nat);
                assert(out[0] == lines[0] && out[1] == mark);
                assert(!reads_as_marker(lines[0]));
                if i == 1 {
                    assert(out[2] == tail[0]);
                    assert(!reads_as_marker(rest[0]));
                }
            } else {
                assert(out[head.len() as int] == tail[0]);
                assert(trimmed_start(rest[0]) != key);
                assert(trimmed_start(out[i]) == key) by {
                    assert(out[i] == lines[i]);
                }
            }
        }
    }
}

/// The line behind a run has another key.
proof fn lemma_run_stop(lines: Seq<Seq<char>>, key: Seq<char>)
    ensures
        run_length(lines, key) < lines.len() ==> trimmed_start(
            lines[run_length(lines, key) as int],
        ) != key,
    decreases lines.len(),
{
    if lines.len() > 0 && trimmed_start(lines[0]) == key {
        lemma_run_length(lines.skip(1), key);
        lemma_run_stop(lines.skip(1), key);
    }
}

/// Collapsing runs twice gives what collapsing them once gives, unless a line
/// reads as a marker.
pub proof fn lemma_idempotent(s: Seq<char>)
    requires
        forall|i: int|
            0 <= i < body_lines(s).len() ==> !reads_as_marker(#[trigger] body_lines(s)[i]),
    ensures
        deduped_lines(deduped_lines(s)) == deduped_lines(s),
{
    let once = deduped_lines(s);
    if s.len() > 0 {
        let lines = body_lines(s);
        let out = collapsed_runs(lines);
        let newline = ends_with_newline(s);
        lemma_collapsed_short(lines);
        lemma_body_plain(s);
        lemma_split_last(s);
        assert forall|k: int| 0 <= k < out.len() implies !(#[trigger] out[k]).contains('\n') by {
            if lines.contains(out[k]) {
                let m = choose|m: int| 0 <= m < lines.len() && lines[m] == out[k];
                assert(!lines[m].contains('\n'));
            } else {
                let n = choose|n: nat| out[k] == #[trigger] repeat_marker(n);
                lemma_marker_plain(n);
            }
        }
        assert(lines.len() > 0) by {
            if newline {
                assert(s =~= s.drop_last().push('\n'));
                lemma_split_last(s.drop_last());
            }
        }
        if !newline {
            lemma_body_last(s);
            lemma_collapsed_last(lines);
            if out.last() != lines.last() {
                let n = choose|n: nat| out.last() == #[trigger] repeat_marker(n);
                lemma_marker_last(n);
            }
        }
        lemma_body_rejoined(out, newline);
        lemma_short_runs_unchanged(once);
    } else {
        assert(once =~= s);
    }
}

/// What comes last is the last line itself or a marker.
proof fn lemma_collapsed_last(lines: Seq<Seq<char>>)
    requires
        lines.len() > 0,
    ensures
        collapsed_runs(lines).len() > 0,
        collapsed_runs(lines).last() == lines.last() || exists|n: nat|
            collapsed_runs(lines).last() == #[trigger] repeat_marker(n),
    decreases lines.len(),
{
    let n = run_length(lines, trimmed_start(lines[0])) as int;
    lemma_run_length(lines, trimmed_start(lines[0]));
    if n < lines.len() {
        lemma_collapsed_last(lines.skip(n));
        assert(lines.skip(n).last() == lines.last());
    } else {
        assert(collapsed_runs(lines.skip(n)) =~= Seq::empty());
        assert(collapsed_runs(lines) =~= collapsed_run(lines.take(n)));
    }
}

/// The result ends with a newline exactly when the text does.
pub proof fn lemma_trailing_newline(s: Seq<char>)
    ensures
        ends_with_newline(deduped_lines(s)) == ends_with_newline(s),
{
    if s.len() > 0 {
        let out = collapsed_runs(body_lines(s));
        if !ends_with_newline(s) {
            lemma_body_last(s);
            lemma_collapsed_last(body_lines(s));
            if out.last() != body_lines(s).last() {
                let n = choose|n: nat| out.last() == #[trigger] repeat_marker(n);
                lemma_marker_last(n);
            }
        }
        lemma_rejoined_newline(out, ends_with_newline(s));
    }
}

/// There are never more lines than before.
pub proof fn lemma_no_more_lines(lines: Seq<Seq<char>>)
    ensures
        collapsed_runs(lines).len() <= lines.len(),
    decreases lines.len(),
{
    if lines.len() > 0 {
        let n = run_length(lines, trimmed_start(lines[0])) as int;
        lemma_run_length(lines, trimmed_start(lines[0]));
        lemma_no_more_lines(lines.skip(n));
    }
}

/// No key is lost: of the lines that read the same, leading whitespace aside,
/// one is left.
pub proof fn lemma_key_survives(lines: Seq<Seq<char>>, i: int)
    requires
        0 <= i < lines.len(),
    ensures
        exists|j: int, k: int|
            #![trigger collapsed_runs(lines)[j], lines[k]]
            0 <= j < collapsed_runs(lines).len() && 0 <= k < lines.len() && collapsed_runs(
                lines,
            )[j] == lines[k] && trimmed_start(lines[k]) == trimmed_start(lines[i]),
    decreases lines.len(),
{
    let n = run_length(lines, trimmed_start(lines[0])) as int;
    let head = collapsed_run(lines.take(n));
    let out = collapsed_runs(lines);
    lemma_run_length(lines, trimmed_start(lines[0]));
    if i < n {
        assert(out[0] == lines[0]);
    } else {
        let rest = lines.skip(n);
        let tail = collapsed_runs(rest);
        lemma_key_survives(rest, i - n);
        let (j, k) = choose|j: int, k: int|
            #![trigger tail[j], rest[k]]
            0 <= j < tail.len() && 0 <= k < rest.len() && tail[j] == rest[k] && trimmed_start(
                rest[k],
            ) == trimmed_start(rest[i - n]);
        assert(out[head.len() + j] == tail[j]);
        assert(lines[n + k] == rest[k]);
    }
}

/// Of the lines of a text that read the same, leading whitespace aside, and
/// that are not blank, one is left.
pub proof fn lemma_text_key_survives(s: Seq<char>, i: int)
    requires
        0 <= i < body_lines(s).len(),
        !blank(body_lines(s)[i]),
    ensures
        exists|j: int|
            0 <= j < body_lines(deduped_lines(s)).len() && trimmed_start(
                #[trigger] body_lines(deduped_lines(s))[j],
            ) == trimmed_start(body_lines(s)[i]),
{
    let lines = body_lines(s);
    let runs = collapsed_runs(lines);
    lemma_split_last(s);
    lemma_split_join(s);
    lemma_key_survives(lines, i);
    let (j, k) = choose|j: int, k: int|
        #![trigger runs[j], lines[k]]
        0 <= j < runs.len() && 0 <= k < lines.len() && runs[j] == lines[k] && trimmed_start(
            lines[k],
        ) == trimmed_start(lines[i]);
    let left = lines[k];
    assert(!split_newlines(s)[k].contains('\n'));
    lemma_split_plain(left);
    assert(split_newlines(left)[0] == left);
    lemma_trimmed_blank(lines[i]);
    lemma_first_word(left);
    lemma_rejoined_pieces(runs, ends_with_newline(s), j, left);
    let out = body_lines(deduped_lines(s));
    let m = choose|m: int| 0 <= m < out.len() && out[m] == left;
    assert(trimmed_start(out[m]) == trimmed_start(lines[i]));
}

/// Collapses each run of lines with one key.
pub fn collapse_runs(lines: &[String]) -> (r: Vec<String>)
    ensures
        texts(r@) == collapsed_runs(texts(lines@)),
{
    let n: usize = lines.len();
    let mut out: Vec<String> = Vec::new();
    let mut i: usize = 0;
    let ghost all = texts(lines@);
    assert(all.skip(0) =~= all);
    while i < n
        invariant
            n == lines@.len(),
            i <= n,
            all == texts(lines@),
            collapsed_runs(all) == texts(out@) + collapsed_runs(all.skip(i as int)),
        decreases n - i,
    {
        let key = trim_start(lines[i].as_str());
        let ghost rest = all.skip(i as int);
        let ghost total = run_length(rest, key@);
        proof {
            assert(rest[0] == lines@[i as int]@);
            lemma_run_length(rest, key@);
            assert(rest.skip(1) =~= all.skip(i + 1));
        }
        let mut run: usize = 1;
        while i + run < n && same(trim_start(lines[i + run].as_str()), key)
            invariant
                n == lines@.len(),
                1 <= run,
                i + run <= n,
                all == texts(lines@),
                rest == all.skip(i as int),
                total == run + run_length(all.skip(i + run), key@),
            decreases n - run,
        {
            assert(all.skip(i + run)[0] == lines@[i + run]@);
            assert(all.skip(i + run).skip(1) =~= all.skip(i + run + 1));
            run = run + 1;
        }
        assert(total == run) by {
            if i + run < n {
                assert(all.skip(i + run)[0] == lines@[i + run]@);
            }
        }
        let ghost before = texts(out@);
        let ghost head = rest.take(run as int);
        if run >= 3 {
            out.push(lines[i].clone());
            out.push(repeat_line(run - 1));
            assert(texts(out@) =~= before + collapsed_run(head));
        } else {
            for k in 0..run
                invariant
                    n == lines@.len(),
                    i + run <= n,
                    all == texts(lines@),
                    head == all.skip(i as int).take(run as int),
                    texts(out@) == before + head.take(k as int),
            {
                let ghost so_far = texts(out@);
                out.push(lines[i + k].clone());
                assert(texts(out@) =~= so_far.push(head[k as int]));
                assert(head.take(k + 1) =~= head.take(k as int).push(head[k as int]));
            }
            assert(head.take(run as int) =~= head);
        }
        assert(rest.skip(run as int) =~= all.skip(i + run));
        assert(texts(out@) + collapsed_runs(all.skip(i + run)) =~= before + (collapsed_run(head)
            + collapsed_runs(all.skip(i + run))));
        i = i + run;
    }
    assert(texts(out@) + collapsed_runs(all.skip(n as int)) =~= texts(out@));
    out
}

/// Collapses adjacent runs of identical lines, leading whitespace aside.
///
/// A run of `N >= 3` lines becomes its first line and the line
/// `(... repeated N-1 more times ...)`; a shorter run is passed through.
pub fn dedupe_repeated_lines(input: &str) -> (r: String)
    ensures
        r@ == deduped_lines(input@),
{
    if input.is_empty() {
        return String::new();
    }
    let (body, newline) = split_body(input);
    let out = collapse_runs(body.as_slice());
    rejoin(out.as_slice(), newline)
}

} // verus!
