//! The filters for build tools: which lines are shown.
use crate::jvm::ant_cmd;
use crate::jvm::gradle_cmd;
use crate::jvm::gradle_cmd::{when_empty, GradleCommand};
use crate::jvm::line_dedup::deduped_lines;
use crate::jvm::mvn_cmd;
use crate::jvm::report::{ends_trimmed, kept_lines};
use crate::jvm::stack_dedup::deduped_traces;
use crate::jvm::stack_trim::trimmed_stacks;
use crate::laws::base::{lemma_kept_indices, lemma_rendered};
use crate::lines::{lemma_lines_plain, lines_of, split_newlines};
use crate::pattern::{any_matched, matched};
use crate::text::{blank, starts_with, strs, trimmed_end, trimmed_start};
use crate::utils::truncated;
use vstd::prelude::*;
use vstd::string::*;

verus! {

/// Whether Maven's `line` is shown: it is not blank, and either one of the
/// patterns of lines to keep matches it, leading whitespace aside, or no pattern
/// of noise does.
pub open spec fn mvn_shows(line: Seq<char>) -> bool {
    !blank(line) && (any_matched(strs(mvn_cmd::KEEP_PATTERNS@), trimmed_start(line))
        || !any_matched(strs(mvn_cmd::NOISE_PATTERNS@), line))
}

/// Whether Ant's `line` is shown: it is not blank, and either one of the patterns
/// of lines to keep matches it, or no pattern of noise does.
pub open spec fn ant_shows(line: Seq<char>) -> bool {
    !blank(line) && (any_matched(strs(ant_cmd::KEEP_PATTERNS@), line) || !any_matched(
        strs(ant_cmd::STRIP_PATTERNS@),
        line,
    ))
}

/// Whether Gradle's `line` is shown: it is not blank, and it is a marker, or a task
/// that failed, or neither a task nor noise.
pub open spec fn gradle_shows(line: Seq<char>) -> bool {
    !blank(line) && (any_matched(strs(gradle_cmd::MARKERS@), line) || (if matched(
        gradle_cmd::TASK_ANNOUNCE@,
        line,
    ) {
        matched(gradle_cmd::TASK_FAILED@, line)
    } else {
        !any_matched(strs(gradle_cmd::NOISE@), line)
    }))
}

/// A line without trailing whitespace holds no newline if the line held none.
proof fn lemma_end_plain(line: Seq<char>)
    requires
        !line.contains('\n'),
    ensures
        !trimmed_end(line).contains('\n'),
    decreases line.len(),
{
    if line.len() > 0 {
        let shorter = line.drop_last();
        assert forall|k: int| 0 <= k < shorter.len() implies shorter[k] != '\n' by {
            assert(line[k] != '\n');
        }
        lemma_end_plain(shorter);
    }
}

/// The Maven filter shows exactly the lines that are to be shown, in order, each
/// without trailing whitespace and cut to its width; it says that all is well if
/// there are none. Repeated stack traces are collapsed before.
pub proof fn lemma_mvn(output: Seq<char>) -> (idx: Seq<int>)
    ensures
        ({
            let all = lines_of(deduped_traces(output));
            let rows = split_newlines(mvn_cmd::filtered(output));
            &&& idx.len() == 0 ==> mvn_cmd::filtered(output) == "mvn: ok"@
            &&& idx.len() > 0 ==> rows.len() == idx.len()
            &&& forall|j: int|
                0 <= j < idx.len() ==> {
                    &&& 0 <= #[trigger] idx[j] < all.len()
                    &&& mvn_shows(all[idx[j]])
                    &&& rows[j] == truncated(trimmed_end(all[idx[j]]), 240)
                }
            &&& forall|j: int, k: int|
                0 <= j < k < idx.len() ==> #[trigger] idx[j] < #[trigger] idx[k]
            &&& forall|i: int|
                0 <= i < all.len() && mvn_shows(#[trigger] all[i]) ==> idx.contains(i)
        }),
{
    let all = lines_of(deduped_traces(output));
    let dropped = all.map_values(|line: Seq<char>| mvn_cmd::is_noise(line));
    let kept = kept_lines(all, dropped);
    let shown = ends_trimmed(kept);
    let idx = lemma_kept_indices(all, dropped);
    lemma_lines_plain(deduped_traces(output));
    assert forall|j: int| 0 <= j < shown.len() implies !(#[trigger] shown[j]).contains('\n') by {
        assert(kept[j] == all[idx[j]]);
        lemma_end_plain(kept[j]);
    }
    assert(shown == mvn_cmd::shown_lines(output));
    lemma_rendered(shown, 240, "mvn: ok"@);
    idx
}

/// The Ant filter shows exactly the lines that are to be shown, in order, each
/// without trailing whitespace and cut to its width; it says that all is well if
/// there are none.
pub proof fn lemma_ant(output: Seq<char>) -> (idx: Seq<int>)
    ensures
        ({
            let all = lines_of(output);
            let rows = split_newlines(ant_cmd::filtered(output));
            &&& idx.len() == 0 ==> ant_cmd::filtered(output) == "ant: ok"@
            &&& idx.len() > 0 ==> rows.len() == idx.len()
            &&& forall|j: int|
                0 <= j < idx.len() ==> {
                    &&& 0 <= #[trigger] idx[j] < all.len()
                    &&& ant_shows(all[idx[j]])
                    &&& rows[j] == truncated(trimmed_end(all[idx[j]]), 240)
                }
            &&& forall|j: int, k: int|
                0 <= j < k < idx.len() ==> #[trigger] idx[j] < #[trigger] idx[k]
            &&& forall|i: int|
                0 <= i < all.len() && ant_shows(#[trigger] all[i]) ==> idx.contains(i)
        }),
{
    let all = lines_of(output);
    let dropped = all.map_values(|line: Seq<char>| ant_cmd::is_noise(line));
    let kept = kept_lines(all, dropped);
    let shown = ends_trimmed(kept);
    let idx = lemma_kept_indices(all, dropped);
    lemma_lines_plain(output);
    assert forall|j: int| 0 <= j < shown.len() implies !(#[trigger] shown[j]).contains('\n') by {
        assert(kept[j] == all[idx[j]]);
        lemma_end_plain(kept[j]);
    }
    assert(shown == ant_cmd::shown_lines(output));
    lemma_rendered(shown, 240, "ant: ok"@);
    idx
}

/// What counts of a line is what follows its last carriage return, without
/// trailing whitespace.
pub proof fn lemma_settled(front: Seq<char>, end: Seq<char>)
    requires
        front.len() > 0 ==> front.last() == '\r',
        !end.contains('\r'),
    ensures
        gradle_cmd::settled(front + end) == trimmed_end(end),
    decreases end.len(),
{
    lemma_segment(front, end);
}

proof fn lemma_segment(front: Seq<char>, end: Seq<char>)
    requires
        front.len() > 0 ==> front.last() == '\r',
        !end.contains('\r'),
    ensures
        gradle_cmd::last_segment(front + end) == end,
    decreases end.len(),
{
    let line = front + end;
    if end.len() > 0 {
        let shorter = end.drop_last();
        assert(end[end.len() - 1] != '\r');
        assert forall|k: int| 0 <= k < shorter.len() implies shorter[k] != '\r' by {
            assert(end[k] != '\r');
        }
        lemma_segment(front, shorter);
        assert(line.drop_last() =~= front + shorter);
        assert(shorter.push(end.last()) =~= end);
    } else {
        assert(line =~= front);
        assert(end =~= Seq::empty());
    }
}

/// Every line is what stands before its last carriage return and what follows.
proof fn lemma_segment_parts(line: Seq<char>) -> (r: (Seq<char>, Seq<char>))
    ensures
        line == r.0 + r.1,
        r.0.len() > 0 ==> r.0.last() == '\r',
        !r.1.contains('\r'),
        r.1 == gradle_cmd::last_segment(line),
    decreases line.len(),
{
    if line.len() == 0 || line.last() == '\r' {
        assert(line =~= line + Seq::empty());
        (line, Seq::empty())
    } else {
        let (front, end) = lemma_segment_parts(line.drop_last());
        let longer = end.push(line.last());
        assert(line =~= line.drop_last().push(line.last()));
        assert(line =~= front + longer);
        assert forall|k: int| 0 <= k < longer.len() implies longer[k] != '\r' by {
            if k < end.len() {
                assert(end[k] != '\r');
            }
        }
        (front, longer)
    }
}

/// The Gradle filter shows exactly the lines that are to be shown, in order, each
/// cut to its width; it shows `when_empty` if there are none. Repeated stack
/// traces, noise frames and repeated lines are collapsed before.
pub proof fn lemma_gradle(output: Seq<char>, when_empty: Seq<char>) -> (idx: Seq<int>)
    ensures
        ({
            let all = lines_of(deduped_lines(trimmed_stacks(deduped_traces(output))));
            let rows = split_newlines(gradle_cmd::filtered(output, when_empty));
            &&& idx.len() == 0 ==> gradle_cmd::filtered(output, when_empty) == when_empty
            &&& idx.len() > 0 ==> rows.len() == idx.len()
            &&& idx.len() == gradle_cmd::shown_lines(output).len()
            &&& forall|j: int|
                0 <= j < idx.len() ==> {
                    &&& 0 <= #[trigger] idx[j] < all.len()
                    &&& gradle_shows(gradle_cmd::settled(all[idx[j]]))
                    &&& gradle_cmd::shown_lines(output)[j] == gradle_cmd::settled(all[idx[j]])
                    &&& rows[j] == truncated(gradle_cmd::settled(all[idx[j]]), 200)
                }
            &&& forall|j: int, k: int|
                0 <= j < k < idx.len() ==> #[trigger] idx[j] < #[trigger] idx[k]
            &&& forall|i: int|
                0 <= i < all.len() && gradle_shows(gradle_cmd::settled(#[trigger] all[i]))
                    ==> idx.contains(i)
        }),
{
    let all = lines_of(deduped_lines(trimmed_stacks(deduped_traces(output))));
    let seen = all.map_values(|line: Seq<char>| gradle_cmd::settled(line));
    let dropped = seen.map_values(
        |line: Seq<char>| gradle_cmd::drops(gradle_cmd::line_facts(line)),
    );
    let kept = kept_lines(seen, dropped);
    let idx = lemma_kept_indices(seen, dropped);
    lemma_lines_plain(deduped_lines(trimmed_stacks(deduped_traces(output))));
    assert(seen =~= gradle_cmd::settled_lines(output));
    assert forall|j: int| 0 <= j < kept.len() implies !(#[trigger] kept[j]).contains('\n') by {
        assert(kept[j] == seen[idx[j]]);
        let line = all[idx[j]];
        assert(!line.contains('\n'));
        let (front, end) = lemma_segment_parts(line);
        assert forall|k: int| 0 <= k < end.len() implies end[k] != '\n' by {
            assert(end[k] == line[front.len() + k]);
        }
        lemma_end_plain(end);
    }
    lemma_rendered(kept, 200, when_empty);
    assert forall|i: int|
        0 <= i < all.len() && gradle_shows(
            gradle_cmd::settled(#[trigger] all[i]),
        ) implies idx.contains(i) by {
        assert(!dropped[i] && !blank(seen[i]));
    }
    idx
}

/// Live progress is turned off exactly if no argument chooses how Gradle writes to
/// the console.
pub proof fn lemma_quiet(args: Seq<Seq<char>>)
    ensures
        (exists|i: int|
            0 <= i < args.len() && (#[trigger] args[i] == "--console"@ || starts_with(
                args[i],
                "--console="@,
            ))) ==> gradle_cmd::quiet_flags(args) == Seq::<Seq<char>>::empty(),
        (forall|i: int|
            0 <= i < args.len() ==> #[trigger] args[i] != "--console"@ && !starts_with(
                args[i],
                "--console="@,
            )) ==> gradle_cmd::quiet_flags(args) == seq!["--console=plain"@],
{
}

/// A task that gives nothing to show is named in the report.
pub proof fn lemma_when_empty()
    ensures
        when_empty(GradleCommand::Build) == "gradle "@ + "build"@ + ": ok"@,
        when_empty(GradleCommand::Test) == "gradle "@ + "test"@ + ": ok"@,
        when_empty(GradleCommand::Assemble) == "gradle "@ + "assemble"@ + ": ok"@,
        when_empty(GradleCommand::Clean) == "gradle "@ + "clean"@ + ": ok"@,
        when_empty(GradleCommand::Check) == "gradle "@ + "check"@ + ": ok"@,
        when_empty(GradleCommand::BootRun) == "gradle "@ + "bootRun"@ + ": started"@,
{
    reveal_strlit("gradle ");
    reveal_strlit(": ok");
    reveal_strlit(": started");
    reveal_strlit("build");
    reveal_strlit("test");
    reveal_strlit("assemble");
    reveal_strlit("clean");
    reveal_strlit("check");
    reveal_strlit("bootRun");
    reveal_strlit("gradle build: ok");
    reveal_strlit("gradle test: ok");
    reveal_strlit("gradle assemble: ok");
    reveal_strlit("gradle clean: ok");
    reveal_strlit("gradle check: ok");
    reveal_strlit("gradle bootRun: started");
    assert("gradle build: ok"@ =~= "gradle "@ + "build"@ + ": ok"@);
    assert("gradle test: ok"@ =~= "gradle "@ + "test"@ + ": ok"@);
    assert("gradle assemble: ok"@ =~= "gradle "@ + "assemble"@ + ": ok"@);
    assert("gradle clean: ok"@ =~= "gradle "@ + "clean"@ + ": ok"@);
    assert("gradle check: ok"@ =~= "gradle "@ + "check"@ + ": ok"@);
    assert("gradle bootRun: started"@ =~= "gradle "@ + "bootRun"@ + ": started"@);
}

} // verus!
