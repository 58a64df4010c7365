//! The filter for `tree`: which lines are shown, what is ignored, what is saved.
use crate::lines::{joined, lines_of};
use crate::pattern::matched;
use crate::system::constants::NOISE_DIRS;
use crate::system::tree::{
    content_lines, ends_with_summary, filtered, ignore_arguments, lemma_leading, lemma_trailing,
    reduction, tree_lines, without_leading_blanks, without_trailing_blanks, TREE_SUMMARY,
};
use crate::text::{blank, starts_with, strs, trimmed};
use vstd::prelude::*;
use vstd::string::*;

verus! {

/// What is left is not blank at either end.
proof fn lemma_ends(lines: Seq<Seq<char>>)
    ensures
        without_leading_blanks(lines).len() > 0 ==> !blank(without_leading_blanks(lines)[0]),
        without_trailing_blanks(lines).len() > 0 ==> !blank(without_trailing_blanks(lines).last()),
    decreases lines.len(),
{
    if lines.len() > 0 {
        lemma_ends(lines.skip(1));
        lemma_ends(lines.drop_last());
    }
}

/// The lines that are shown are consecutive and neither the first nor the last of
/// them is blank. Of the others all are blank but at most one, and that is the last
/// that is not blank and reads as the summary of the tree; where the last
/// line that is not blank reads so, it is not shown.
pub proof fn lemma_tree(raw: Seq<char>) -> (r: (int, int))
    ensures
        ({
            let all = lines_of(raw);
            let (from, to) = r;
            &&& 0 <= from <= to <= all.len()
            &&& filtered(raw) == joined(all.subrange(from, to), "\n"@) + "\n"@
            &&& from < to ==> !blank(all[from]) && !blank(all[to - 1])
            &&& forall|i: int| 0 <= i < from ==> blank(#[trigger] all[i])
            &&& forall|i: int|
                #![trigger all[i]]
                to <= i < all.len() && !blank(all[i]) ==> matched(TREE_SUMMARY@, trimmed(all[i]))
                    && forall|k: int| i < k < all.len() ==> blank(#[trigger] all[k])
            &&& forall|i: int|
                #![trigger all[i]]
                0 <= i < all.len() && !blank(all[i]) && matched(TREE_SUMMARY@, trimmed(all[i]))
                    && (forall|k: int| i < k < all.len() ==> blank(#[trigger] all[k])) ==> to <= i
        }),
{
    let all = lines_of(raw);
    let front = without_leading_blanks(all);
    let content = content_lines(all);
    let tree = tree_lines(content, ends_with_summary(content));
    let from = all.len() - front.len();
    let to = from + tree.len();
    lemma_leading(all);
    lemma_trailing(front);
    lemma_ends(all);
    lemma_ends(front);
    if ends_with_summary(content) {
        lemma_trailing(content.drop_last());
        lemma_ends(content.drop_last());
    }
    assert(tree =~= all.subrange(from, to));
    if from < to {
        assert(all[from] == front[0]);
        assert(all[to - 1] == tree.last());
    }
    assert forall|i: int|
        #![trigger all[i]]
        to <= i < all.len() && !blank(all[i]) implies matched(TREE_SUMMARY@, trimmed(all[i]))
        && forall|k: int| i < k < all.len() ==> blank(#[trigger] all[k]) by {
        assert(front[i - from] == all[i]);
        assert(content[i - from] == all[i]);
        if i - from < content.len() - 1 {
            assert(content.drop_last()[i - from] == all[i]);
        }
        assert forall|k: int| i < k < all.len() implies blank(#[trigger] all[k]) by {
            assert(front[k - from] == all[k]);
        }
    }
    assert forall|i: int|
        #![trigger all[i]]
        0 <= i < all.len() && !blank(all[i]) && matched(TREE_SUMMARY@, trimmed(all[i])) && (forall|
            k: int,
        |
            i < k < all.len() ==> blank(#[trigger] all[k])) implies to <= i by {
        assert(i >= from);
        assert(front[i - from] == all[i]);
        assert(content[i - from] == all[i]);
        let last = content.len() - 1;
        assert(content.last() == all[from + last]);
        assert(i == from + last);
    }
    (from, to)
}

/// Nothing is added where the arguments say which entries are left out; else one
/// option with the directories that are seldom of interest.
pub proof fn lemma_ignored(args: Seq<Seq<char>>, i: int)
    requires
        0 <= i < args.len(),
    ensures
        args[i] == "-a"@ || args[i] == "--all"@ || args[i] == "-I"@ || starts_with(
            args[i],
            "--ignore="@,
        ) ==> ignore_arguments(args).len() == 0,
{
}

/// Arguments that say nothing of it do not keep anything from being left out.
pub proof fn lemma_not_ignored(args: Seq<Seq<char>>)
    requires
        forall|i: int|
            0 <= i < args.len() ==> {
                &&& #[trigger] args[i] != "-a"@
                &&& args[i] != "--all"@
                &&& args[i] != "-I"@
                &&& !starts_with(args[i], "--ignore="@)
            },
    ensures
        ignore_arguments(args).len() == 2,
        ignore_arguments(args)[0] == "-I"@,
        ignore_arguments(args)[1] == joined(strs(NOISE_DIRS@), "|"@),
{
}

/// The share that is left, in percent, is `100 - reduction`, rounded down.
pub proof fn lemma_reduction(before: nat, after: nat)
    requires
        after <= before,
    ensures
        0 <= reduction(before, after) <= 100,
        before == 0 ==> reduction(before, after) == 0,
        before > 0 ==> (100 - reduction(before, after)) * before <= 100 * after < (101 - reduction(
            before,
            after,
        )) * before,
{
    if before > 0 {
        let share = after * 100 / before;
        assert(share * before <= after * 100 < (share + 1) * before && 0 <= share <= 100)
            by (nonlinear_arith)
            requires
                0 <= after <= before,
                before > 0,
                share == after * 100 / before,
        ;
    }
}

} // verus!
