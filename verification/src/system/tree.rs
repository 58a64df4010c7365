//! Filter for `tree`: drops the summary and the blank lines around the tree.
//! Directories that are seldom of interest are left out of it, unless the
//! arguments say which ones are.
use crate::lines::{
    join, join_strs, joined, lemma_lines_plain, lemma_split_joined, lemma_split_last, lines,
    lines_of,
};
use crate::pattern::{matched, Pattern};
use crate::system::constants::NOISE_DIRS;
use crate::text::{
    blank, has_prefix, is_blank, same, starts_with, strs, texts, trim, trimmed,
};
use vstd::prelude::*;
use vstd::string::*;

verus! {

/// The line that `tree` ends with, such as `5 directories, 23 files`. It is the
/// whole line, so that no entry of the tree is taken for it.
pub const TREE_SUMMARY: &'static str =
    r"^\d+ director(?:y|ies)(?:, \d+ files?)?(?:, \d+ links?)?\.?$";

/// Whether `line` is the summary.
pub open spec fn is_summary(line: Seq<char>) -> bool {
    matched(TREE_SUMMARY@, trimmed(line))
}

/// `lines` without the blank ones at the front.
pub open spec fn without_leading_blanks(lines: Seq<Seq<char>>) -> Seq<Seq<char>>
    decreases lines.len(),
{
    if lines.len() > 0 && blank(lines[0]) {
        without_leading_blanks(lines.skip(1))
    } else {
        lines
    }
}

/// `lines` without the blank ones at the end.
pub open spec fn without_trailing_blanks(lines: Seq<Seq<char>>) -> Seq<Seq<char>>
    decreases lines.len(),
{
    if lines.len() > 0 && blank(lines.last()) {
        without_trailing_blanks(lines.drop_last())
    } else {
        lines
    }
}

/// `lines` without the blank ones at either end.
pub open spec fn content_lines(lines: Seq<Seq<char>>) -> Seq<Seq<char>> {
    without_trailing_blanks(without_leading_blanks(lines))
}

/// The lines of the tree, given all content and whether its last line is the
/// summary.
pub open spec fn tree_lines(content: Seq<Seq<char>>, summary_last: bool) -> Seq<Seq<char>> {
    if summary_last && content.len() > 0 {
        without_trailing_blanks(content.drop_last())
    } else {
        content
    }
}

/// Whether the last of `content` is the summary.
pub open spec fn ends_with_summary(content: Seq<Seq<char>>) -> bool {
    content.len() > 0 && is_summary(content.last())
}

/// What is shown of the output of `tree`.
pub open spec fn filtered(raw: Seq<char>) -> Seq<char> {
    let content = content_lines(lines_of(raw));
    joined(tree_lines(content, ends_with_summary(content)), "\n"@) + "\n"@
}

/// Whether `args` say which entries `tree` leaves out.
pub open spec fn chooses_entries(args: Seq<Seq<char>>) -> bool {
    exists|i: int|
        0 <= i < args.len() && (#[trigger] args[i] == "-a"@ || args[i] == "--all"@ || args[i]
            == "-I"@ || starts_with(args[i], "--ignore="@))
}

/// The arguments that come first: those that leave out what is seldom of
/// interest, unless `args` say something themselves.
pub open spec fn ignore_arguments(args: Seq<Seq<char>>) -> Seq<Seq<char>> {
    if chooses_entries(args) {
        Seq::empty()
    } else {
        seq!["-I"@, joined(strs(NOISE_DIRS@), "|"@)]
    }
}

/// By how many percent `after` is less than `before`.
pub open spec fn reduction(before: nat, after: nat) -> int {
    if before == 0 {
        0
    } else {
        100 - after * 100 / before
    }
}

/// What is left out at the front is blank.
pub proof fn lemma_leading(lines: Seq<Seq<char>>)
    ensures
        without_leading_blanks(lines).len() <= lines.len(),
        without_leading_blanks(lines) == lines.skip(
            lines.len() - without_leading_blanks(lines).len(),
        ),
        forall|i: int|
            0 <= i < lines.len() - without_leading_blanks(lines).len() ==> blank(
                #[trigger] lines[i],
            ),
    decreases lines.len(),
{
    if lines.len() > 0 && blank(lines[0]) {
        lemma_leading(lines.skip(1));
        let rest = without_leading_blanks(lines);
        assert(rest =~= lines.skip(lines.len() - rest.len()));
        assert forall|i: int| 0 <= i < lines.len() - rest.len() implies blank(
            #[trigger] lines[i],
        ) by {
            if i > 0 {
                assert(lines.skip(1)[i - 1] == lines[i]);
            }
        }
    } else {
        assert(lines.skip(0) =~= lines);
    }
}

/// What is left out at the end is blank.
pub proof fn lemma_trailing(lines: Seq<Seq<char>>)
    ensures
        without_trailing_blanks(lines).len() <= lines.len(),
        without_trailing_blanks(lines) == lines.take(
            without_trailing_blanks(lines).len() as int,
        ),
        forall|i: int|
            without_trailing_blanks(lines).len() <= i < lines.len() ==> blank(#[trigger] lines[i]),
    decreases lines.len(),
{
    if lines.len() > 0 && blank(lines.last()) {
        lemma_trailing(lines.drop_last());
        let rest = without_trailing_blanks(lines);
        assert(rest =~= lines.take(rest.len() as int));
        assert forall|i: int| rest.len() <= i < lines.len() implies blank(#[trigger] lines[i]) by {
            if i < lines.len() - 1 {
                assert(lines.drop_last()[i] == lines[i]);
            }
        }
    } else {
        assert(lines.take(lines.len() as int) =~= lines);
    }
}

/// No entry is lost: the tree is a part of the lines without a gap, and what is
/// left out of them is blank, except for one line, which is the summary and
/// which nothing but blank lines follow.
pub proof fn lemma_entries_kept(raw: Seq<char>) -> (r: (int, int))
    ensures
        ({
            let all = lines_of(raw);
            let content = content_lines(all);
            let tree = tree_lines(content, ends_with_summary(content));
            &&& 0 <= r.0 <= r.1 <= all.len()
            &&& tree == all.subrange(r.0, r.1)
            &&& forall|i: int| 0 <= i < r.0 ==> blank(#[trigger] all[i])
            &&& forall|i: int|
                #![trigger all[i]]
                r.1 <= i < all.len() && !blank(all[i]) ==> is_summary(all[i]) && forall|k: int|
                    i < k < all.len() ==> blank(#[trigger] all[k])
        }),
{
    let all = lines_of(raw);
    let front = without_leading_blanks(all);
    let content = content_lines(all);
    let tree = tree_lines(content, ends_with_summary(content));
    let from = all.len() - front.len();
    lemma_leading(all);
    lemma_trailing(front);
    if ends_with_summary(content) {
        lemma_trailing(content.drop_last());
    }
    let to = from + tree.len();
    assert(tree =~= all.subrange(from, to));
    assert forall|i: int|
        #![trigger all[i]]
        to <= i < all.len() && !blank(all[i]) implies is_summary(all[i]) && forall|k: int|
        i < k < all.len() ==> blank(#[trigger] all[k]) by {
        assert(front[i - from] == all[i]);
        assert(i - from < content.len());
        assert(content[i - from] == all[i]);
        if i - from < content.len() - 1 {
            assert(content.drop_last()[i - from] == all[i]);
        }
        assert forall|k: int| i < k < all.len() implies blank(#[trigger] all[k]) by {
            assert(front[k - from] == all[k]);
        }
    }
    (from, to)
}

/// There are never more lines than before, if there were any.
pub proof fn lemma_no_more_lines(raw: Seq<char>)
    requires
        lines_of(raw).len() > 0,
    ensures
        lines_of(filtered(raw)).len() <= lines_of(raw).len(),
{
    reveal_strlit("\n");
    let all = lines_of(raw);
    let content = content_lines(all);
    let tree = tree_lines(content, ends_with_summary(content));
    let (from, to) = lemma_entries_kept(raw);
    lemma_lines_plain(raw);
    let text = joined(tree, "\n"@);
    let out = text + "\n"@;
    assert(out.drop_last() =~= text);
    if tree.len() > 0 {
        assert forall|i: int| 0 <= i < tree.len() implies !(#[trigger] tree[i]).contains('\n') by {
            assert(tree[i] == all[from + i]);
        }
        lemma_split_joined(tree);
    }
    lemma_split_last(text);
}

/// Whether `line` is the summary that `tree` ends with.
pub fn is_tree_summary(line: &str) -> (r: bool)
    ensures
        r == is_summary(line@),
{
    Pattern::new(TREE_SUMMARY).is_match(trim(line))
}

/// The lines without the blank ones at either end.
pub fn trim_blank_lines(lines: &[String]) -> (r: Vec<String>)
    ensures
        texts(r@) == content_lines(texts(lines@)),
{
    let n: usize = lines.len();
    let mut out: Vec<String> = Vec::new();
    let mut from: usize = 0;
    let ghost all = texts(lines@);
    assert(all.skip(0) =~= all);
    while from < n && is_blank(lines[from].as_str())
        invariant
            n == lines@.len(),
            all == texts(lines@),
            from <= n,
            without_leading_blanks(all) == without_leading_blanks(all.skip(from as int)),
        decreases n - from,
    {
        assert(all.skip(from as int).skip(1) =~= all.skip(from + 1));
        assert(all[from as int] == lines@[from as int]@);
        from = from + 1;
    }
    proof {
        if from < n {
            assert(all[from as int] == lines@[from as int]@);
        }
        assert(without_leading_blanks(all) == all.skip(from as int));
    }
    for i in from..n
        invariant
            from <= n,
            n == lines@.len(),
            all == texts(lines@),
            texts(out@) == all.subrange(from as int, i as int),
    {
        let ghost before = texts(out@);
        out.push(lines[i].clone());
        assert(texts(out@) =~= before.push(all[i as int]));
        assert(all.subrange(from as int, i + 1) =~= all.subrange(from as int, i as int).push(
            all[i as int],
        ));
    }
    assert(texts(out@) =~= all.skip(from as int));
    drop_trailing_blanks(&mut out);
    out
}

/// Removes the blank lines at the end.
fn drop_trailing_blanks(lines: &mut Vec<String>)
    ensures
        texts(final(lines)@) == without_trailing_blanks(texts(old(lines)@)),
{
    let ghost all = texts(lines@);
    while lines.len() > 0 && is_blank(lines[lines.len() - 1].as_str())
        invariant
            without_trailing_blanks(all) == without_trailing_blanks(texts(lines@)),
        decreases lines@.len(),
    {
        let ghost before = texts(lines@);
        lines.pop();
        assert(texts(lines@) =~= before.drop_last());
    }
}

/// The text of the tree, given all content and whether its last line is the
/// summary.
pub fn finish_tree(content: Vec<String>, summary_last: bool) -> (r: String)
    ensures
        r@ == joined(tree_lines(texts(content@), summary_last), "\n"@) + "\n"@,
{
    let mut lines = content;
    if summary_last && lines.len() > 0 {
        let ghost before = texts(lines@);
        lines.pop();
        assert(texts(lines@) =~= before.drop_last());
        drop_trailing_blanks(&mut lines);
    }
    let mut out = join(lines.as_slice(), "\n");
    out.append("\n");
    out
}

/// Filters the output of `tree`.
pub fn filter_tree_output(raw: &str) -> (r: String)
    ensures
        r@ == filtered(raw@),
{
    let all = lines(raw);
    let content = trim_blank_lines(all.as_slice());
    let n: usize = content.len();
    assert(texts(content@).len() == n);
    let summary_last = n > 0 && is_tree_summary(content[n - 1].as_str());
    finish_tree(content, summary_last)
}

/// The arguments that leave out what is seldom of interest, unless `args` say
/// which entries are left out.
pub fn ignore_flags(args: &[String]) -> (r: Vec<String>)
    ensures
        texts(r@) == ignore_arguments(texts(args@)),
{
    let mut flags: Vec<String> = Vec::new();
    let n: usize = args.len();
    for i in 0..n
        invariant
            n == args@.len(),
            flags@.len() == 0,
            forall|k: int|
                0 <= k < i ==> {
                    &&& #[trigger] texts(args@)[k] != "-a"@
                    &&& texts(args@)[k] != "--all"@
                    &&& texts(args@)[k] != "-I"@
                    &&& !starts_with(texts(args@)[k], "--ignore="@)
                },
    {
        let arg = args[i].as_str();
        if same(arg, "-a") || same(arg, "--all") || same(arg, "-I") || has_prefix(
            arg,
            "--ignore=",
        ) {
            assert(texts(args@)[i as int] == args@[i as int]@);
            assert(texts(flags@) =~= Seq::empty());
            return flags;
        }
    }
    flags.push("-I".to_owned());
    flags.push(join_strs(&NOISE_DIRS, "|"));
    assert(texts(flags@) =~= ignore_arguments(texts(args@)));
    flags
}

/// By how many percent `after` lines are fewer than `before`.
pub fn reduction_percent(before: usize, after: usize) -> (r: usize)
    requires
        after <= before,
    ensures
        r == reduction(before as nat, after as nat),
{
    if before == 0 {
        return 0;
    }
    let share: u128 = after as u128 * 100 / before as u128;
    assert(after as int * 100 / before as int <= 100) by (nonlinear_arith)
        requires
            0 <= after <= before,
            before > 0,
    ;
    100 - share as usize
}

} // verus!
