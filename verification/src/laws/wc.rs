//! The filter for `wc`: which columns are meant, and what the table shows.
use crate::lines::{joined, lines_of};
use crate::system::wc_cmd::{
    asks_column, column_letters, common_prefix, file_names, filtered, lemma_common_prefix,
    lemma_without_prefix, line_counts, line_name, max_columns, mode_of, shared_directory,
    single_line, table, table_row, table_rows, WcMode,
};
use crate::text::{starts_with, trimmed, words_of};
use vstd::prelude::*;
use vstd::string::*;

verus! {

/// Whether the `k`th character of the `i`th argument asks for a column: the argument
/// starts with `-`, and the character behind that is one of four letters.
pub open spec fn asks(args: Seq<Seq<char>>, i: int, k: int) -> bool {
    &&& 0 <= i < args.len()
    &&& 1 <= k < args[i].len()
    &&& args[i][0] == '-'
    &&& (args[i][k] == 'l' || args[i][k] == 'w' || args[i][k] == 'c' || args[i][k] == 'm')
}

/// Where the letters that are filtered out of `s` stand.
proof fn lemma_letters(s: Seq<char>) -> (ks: Seq<int>)
    ensures
        ks.len() == s.filter(|c: char| asks_column(c)).len(),
        forall|j: int|
            0 <= j < ks.len() ==> {
                &&& 0 <= #[trigger] ks[j] < s.len()
                &&& asks_column(s[ks[j]])
                &&& s.filter(|c: char| asks_column(c))[j] == s[ks[j]]
            },
        forall|j: int, k: int| 0 <= j < k < ks.len() ==> #[trigger] ks[j] < #[trigger] ks[k],
        forall|k: int| 0 <= k < s.len() && asks_column(#[trigger] s[k]) ==> ks.contains(k),
    decreases s.len(),
{
    reveal(Seq::filter);
    if s.len() == 0 {
        Seq::empty()
    } else {
        let front = s.drop_last();
        let n = s.len() - 1;
        let before = lemma_letters(front);
        let ks = if asks_column(s[n]) {
            before.push(n)
        } else {
            before
        };
        let out = s.filter(|c: char| asks_column(c));
        assert forall|j: int| 0 <= j < ks.len() implies {
            &&& 0 <= #[trigger] ks[j] < s.len()
            &&& asks_column(s[ks[j]])
            &&& out[j] == s[ks[j]]
        } by {
            if j < before.len() {
                assert(ks[j] == before[j]);
                assert(front[before[j]] == s[before[j]]);
            }
        }
        assert forall|k: int| 0 <= k < s.len() && asks_column(#[trigger] s[k]) implies ks.contains(
            k,
        ) by {
            if k < n {
                assert(front[k] == s[k]);
                let j = choose|j: int| 0 <= j < before.len() && before[j] == k;
                assert(ks[j] == k);
            } else {
                assert(ks[ks.len() - 1] == n);
            }
        }
        ks
    }
}

proof fn lemma_asked(args: Seq<Seq<char>>) -> (at: Seq<(int, int)>)
    ensures
        at.len() == column_letters(args).len(),
        forall|j: int|
            0 <= j < at.len() ==> asks(args, (#[trigger] at[j]).0, at[j].1) && column_letters(
                args,
            )[j] == args[at[j].0][at[j].1],
        forall|j: int, k: int| 0 <= j < k < at.len() ==> #[trigger] at[j] != #[trigger] at[k],
        forall|i: int, k: int| #[trigger] asks(args, i, k) ==> at.contains((i, k)),
    decreases args.len(),
{
    if args.len() == 0 {
        Seq::empty()
    } else {
        let front = args.drop_last();
        let n = args.len() - 1;
        let arg = args[n];
        let before = lemma_asked(front);
        let dashed = arg.len() > 0 && arg[0] == '-';
        let rest = arg.skip(1);
        let ks = lemma_letters(rest);
        let more = if dashed {
            Seq::new(ks.len(), |j: int| (n, ks[j] + 1))
        } else {
            Seq::empty()
        };
        let at = before + more;
        let letters = column_letters(args);
        assert forall|j: int| 0 <= j < at.len() implies asks(args, (#[trigger] at[j]).0, at[j].1)
            && letters[j] == args[at[j].0][at[j].1] by {
            if j < before.len() {
                assert(at[j] == before[j]);
                assert(front[before[j].0] == args[before[j].0]);
                assert(letters[j] == column_letters(front)[j]);
            } else {
                let m = j - before.len();
                assert(at[j] == (n, ks[m] + 1));
                assert(rest[ks[m]] == arg[ks[m] + 1]);
                assert(asks_column(rest[ks[m]]));
            }
        }
        assert forall|j: int, k: int| 0 <= j < k < at.len() implies #[trigger] at[j]
            != #[trigger] at[k] by {
            if k < before.len() {
                assert(at[j] == before[j] && at[k] == before[k]);
            } else {
                let m = k - before.len();
                assert(at[k] == (n, ks[m] + 1));
                if j < before.len() {
                    assert(at[j] == before[j]);
                    assert(asks(front, before[j].0, before[j].1));
                } else {
                    let l = j - before.len();
                    assert(at[j] == (n, ks[l] + 1));
                    assert(ks[l] < ks[m]);
                }
            }
        }
        assert forall|i: int, k: int| #[trigger] asks(args, i, k) implies at.contains((i, k)) by {
            if i < n {
                assert(front[i] == args[i]);
                assert(asks(front, i, k));
                let j = choose|j: int| 0 <= j < before.len() && before[j] == (i, k);
                assert(at[j] == (i, k));
            } else {
                assert(asks_column(rest[k - 1]));
                let m = choose|m: int| 0 <= m < ks.len() && ks[m] == k - 1;
                assert(more[m] == (i, k));
                assert(at[before.len() + m] == (i, k));
            }
        }
        at
    }
}

/// The mode goes by the places that ask for a column: none, one, or several.
pub proof fn lemma_mode(args: Seq<Seq<char>>) -> (at: Seq<(int, int)>)
    ensures
        forall|j: int| 0 <= j < at.len() ==> asks(args, (#[trigger] at[j]).0, at[j].1),
        forall|j: int, k: int| 0 <= j < k < at.len() ==> #[trigger] at[j] != #[trigger] at[k],
        forall|i: int, k: int| #[trigger] asks(args, i, k) ==> at.contains((i, k)),
        ({
            let mode = mode_of(column_letters(args));
            &&& at.len() == 0 ==> mode == WcMode::Full
            &&& at.len() > 1 ==> mode == WcMode::Mixed
            &&& at.len() == 1 ==> {
                let c = args[at[0].0][at[0].1];
                &&& c == 'l' ==> mode == WcMode::Lines
                &&& c == 'w' ==> mode == WcMode::Words
                &&& c == 'c' ==> mode == WcMode::Bytes
                &&& c == 'm' ==> mode == WcMode::Chars
            }
        }),
{
    lemma_asked(args)
}

/// How many columns there can be.
pub open spec fn columns(mode: WcMode) -> nat {
    if mode == WcMode::Full {
        3
    } else if mode == WcMode::Mixed {
        4
    } else {
        1
    }
}

/// Whether `line` names a file, and not the total.
pub open spec fn names_file(line: Seq<char>, max: nat) -> bool {
    line_name(line, max) matches Some(name) && name != "total"@
}

proof fn lemma_names(lines: Seq<Seq<char>>, max: nat) -> (idx: Seq<int>)
    ensures
        idx.len() == file_names(lines, max).len(),
        forall|j: int|
            0 <= j < idx.len() ==> {
                &&& 0 <= #[trigger] idx[j] < lines.len()
                &&& names_file(lines[idx[j]], max)
                &&& line_name(lines[idx[j]], max) == Some(file_names(lines, max)[j])
            },
        forall|j: int, k: int| 0 <= j < k < idx.len() ==> #[trigger] idx[j] < #[trigger] idx[k],
        forall|i: int|
            0 <= i < lines.len() && names_file(#[trigger] lines[i], max) ==> idx.contains(i),
    decreases lines.len(),
{
    if lines.len() == 0 {
        Seq::empty()
    } else {
        let front = lines.drop_last();
        let n = lines.len() - 1;
        let before = lemma_names(front, max);
        let idx = if names_file(lines[n], max) {
            before.push(n)
        } else {
            before
        };
        let names = file_names(lines, max);
        assert forall|j: int| 0 <= j < idx.len() implies {
            &&& 0 <= #[trigger] idx[j] < lines.len()
            &&& names_file(lines[idx[j]], max)
            &&& line_name(lines[idx[j]], max) == Some(names[j])
        } by {
            if j < before.len() {
                assert(idx[j] == before[j]);
                assert(front[before[j]] == lines[before[j]]);
                assert(names[j] == file_names(front, max)[j]);
            }
        }
        assert forall|i: int|
            0 <= i < lines.len() && names_file(#[trigger] lines[i], max) implies idx.contains(
            i,
        ) by {
            if i < n {
                assert(front[i] == lines[i]);
                let j = choose|j: int| 0 <= j < before.len() && before[j] == i;
                assert(idx[j] == i);
            } else {
                assert(idx[idx.len() - 1] == n);
            }
        }
        idx
    }
}

/// Whether `line` gives a row: it has counts or a name.
pub open spec fn gives_row(line: Seq<char>, mode: WcMode) -> bool {
    line_counts(line, columns(mode)).len() > 0 || line_name(line, columns(mode)) is Some
}

proof fn lemma_rows(lines: Seq<Seq<char>>, mode: WcMode, prefix: Seq<char>) -> (idx: Seq<int>)
    ensures
        idx.len() == table_rows(lines, mode, prefix).len(),
        forall|j: int|
            0 <= j < idx.len() ==> {
                &&& 0 <= #[trigger] idx[j] < lines.len()
                &&& gives_row(lines[idx[j]], mode)
                &&& table_rows(lines, mode, prefix)[j] == table_row(
                    line_counts(lines[idx[j]], columns(mode)),
                    line_name(lines[idx[j]], columns(mode)),
                    trimmed(lines[idx[j]]),
                    mode,
                    prefix,
                )
            },
        forall|j: int, k: int| 0 <= j < k < idx.len() ==> #[trigger] idx[j] < #[trigger] idx[k],
        forall|i: int|
            0 <= i < lines.len() && gives_row(#[trigger] lines[i], mode) ==> idx.contains(i),
    decreases lines.len(),
{
    assert(columns(mode) == max_columns(mode));
    if lines.len() == 0 {
        Seq::empty()
    } else {
        let front = lines.drop_last();
        let n = lines.len() - 1;
        let before = lemma_rows(front, mode, prefix);
        let idx = if gives_row(lines[n], mode) {
            before.push(n)
        } else {
            before
        };
        let rows = table_rows(lines, mode, prefix);
        assert forall|j: int| 0 <= j < idx.len() implies {
            &&& 0 <= #[trigger] idx[j] < lines.len()
            &&& gives_row(lines[idx[j]], mode)
            &&& rows[j] == table_row(
                line_counts(lines[idx[j]], columns(mode)),
                line_name(lines[idx[j]], columns(mode)),
                trimmed(lines[idx[j]]),
                mode,
                prefix,
            )
        } by {
            if j < before.len() {
                assert(idx[j] == before[j]);
                assert(front[before[j]] == lines[before[j]]);
                assert(rows[j] == table_rows(front, mode, prefix)[j]);
            }
        }
        assert forall|i: int|
            0 <= i < lines.len() && gives_row(#[trigger] lines[i], mode) implies idx.contains(
            i,
        ) by {
            if i < n {
                assert(front[i] == lines[i]);
                let j = choose|j: int| 0 <= j < before.len() && before[j] == i;
                assert(idx[j] == i);
            } else {
                assert(idx[idx.len() - 1] == n);
            }
        }
        idx
    }
}

/// What the table cuts off: a directory that the files of all lines but the total lie
/// in, and no longer one does; nothing unless there are two files. The rows are
/// those of the lines with counts or a name, in order.
pub proof fn lemma_table(lines: Seq<Seq<char>>, mode: WcMode) -> (r: (
    Seq<char>,
    Seq<int>,
    Seq<Seq<char>>,
))
    ensures
        ({
            let (prefix, idx, rows) = r;
            let max = columns(mode);
            &&& table(lines, mode) == joined(rows, "\n"@)
            &&& rows.len() == idx.len()
            &&& forall|i: int, name: Seq<char>|
                0 <= i < lines.len() && name != "total"@ && #[trigger] line_name(lines[i], max)
                    == Some(name) ==> #[trigger] starts_with(name, prefix)
            &&& prefix.len() > 0 ==> prefix.last() == '/'
            &&& prefix.len() > 0 ==> exists|i: int, k: int|
                0 <= i < k < lines.len() && names_file(#[trigger] lines[i], max) && names_file(
                    #[trigger] lines[k],
                    max,
                )
            &&& forall|longer: Seq<char>, i: int, k: int|
                0 <= i < k < lines.len() && names_file(#[trigger] lines[i], max) && names_file(
                    #[trigger] lines[k],
                    max,
                ) && longer.len() > prefix.len() && #[trigger] longer.last() == '/'
                    ==> exists|m: int|
                    0 <= m < lines.len() && names_file(#[trigger] lines[m], max) && !starts_with(
                        line_name(lines[m], max)->0,
                        longer,
                    )
            &&& forall|j: int|
                0 <= j < idx.len() ==> {
                    &&& 0 <= #[trigger] idx[j] < lines.len()
                    &&& gives_row(lines[idx[j]], mode)
                    &&& rows[j] == table_row(
                        line_counts(lines[idx[j]], max),
                        line_name(lines[idx[j]], max),
                        trimmed(lines[idx[j]]),
                        mode,
                        prefix,
                    )
                }
            &&& forall|j: int, k: int|
                0 <= j < k < idx.len() ==> #[trigger] idx[j] < #[trigger] idx[k]
            &&& forall|i: int|
                0 <= i < lines.len() && gives_row(#[trigger] lines[i], mode) ==> idx.contains(i)
        }),
{
    let max = columns(mode);
    let names = file_names(lines, max);
    let prefix = common_prefix(names);
    let rows = table_rows(lines, mode, prefix);
    let at = lemma_names(lines, max);
    let idx = lemma_rows(lines, mode, prefix);
    assert(max == max_columns(mode));
    if names.len() > 1 {
        lemma_common_prefix(names);
        assert(names_file(lines[at[0]], max) && names_file(lines[at[1]], max) && at[0] < at[1]);
    }
    assert forall|i: int, name: Seq<char>|
        0 <= i < lines.len() && name != "total"@ && #[trigger] line_name(lines[i], max) == Some(
            name,
        ) implies #[trigger] starts_with(name, prefix) by {
        assert(names_file(lines[i], max));
        let j = choose|j: int| 0 <= j < at.len() && at[j] == i;
        assert(names[j] == name);
        if names.len() <= 1 {
            assert(name.take(0) =~= prefix);
        }
    }
    assert forall|longer: Seq<char>, i: int, k: int|
        0 <= i < k < lines.len() && names_file(#[trigger] lines[i], max) && names_file(
            #[trigger] lines[k],
            max,
        ) && longer.len() > prefix.len() && #[trigger] longer.last() == '/' implies exists|m: int|
        0 <= m < lines.len() && names_file(#[trigger] lines[m], max) && !starts_with(
            line_name(lines[m], max)->0,
            longer,
        ) by {
        let ji = choose|j: int| 0 <= j < at.len() && at[j] == i;
        let jk = choose|j: int| 0 <= j < at.len() && at[j] == k;
        assert(ji != jk);
        assert(names.len() > 1);
        let n = longer.len() as int;
        assert(!shared_directory(names, n));
        if forall|j: int| 0 <= j < names.len() ==> starts_with(#[trigger] names[j], longer) {
            assert(starts_with(names[0], longer));
            assert(names[0].take(n) == longer);
            assert(names[0][n - 1] == longer[n - 1]);
            assert(shared_directory(names, n));
        }
        let j = choose|j: int| 0 <= j < names.len() && !starts_with(#[trigger] names[j], longer);
        assert(names_file(lines[at[j]], max));
        assert(line_name(lines[at[j]], max) == Some(names[j]));
    }
    (prefix, idx, rows)
}

/// The `i`th count, or a zero.
pub open spec fn nth_count(counts: Seq<Seq<char>>, i: int) -> Seq<char> {
    if i < counts.len() {
        counts[i]
    } else {
        "0"@
    }
}

/// A row for a file shows its counts and, behind a blank, the name without the
/// prefix: the prefix and what is shown give back the name. A row for the total
/// shows a sigma and the counts.
pub proof fn lemma_row(
    counts: Seq<Seq<char>>,
    short: Seq<char>,
    text: Seq<char>,
    mode: WcMode,
    prefix: Seq<char>,
)
    ensures
        ({
            let name = Some(prefix + short);
            let total = Some("total"@);
            let single = mode != WcMode::Full && mode != WcMode::Mixed;
            let three = counts.len() == 3 ==> {
                let units = counts[0] + "L "@ + counts[1] + "W "@ + counts[2] + "B"@;
                &&& table_row(counts, None, text, WcMode::Full, prefix) == units
                &&& table_row(counts, total, text, WcMode::Full, prefix) == "Σ "@ + units
                &&& name != total ==> table_row(counts, name, text, WcMode::Full, prefix) == units
                    + " "@ + short
            };
            let few = counts.len() < 3 ==> {
                &&& name != total ==> table_row(counts, name, text, WcMode::Full, prefix) == text
                &&& table_row(counts, None, text, WcMode::Full, prefix) == text
                &&& table_row(counts, total, text, WcMode::Full, prefix) == "Σ "@ + nth_count(
                    counts,
                    0,
                ) + "L "@ + nth_count(counts, 1) + "W "@ + nth_count(counts, 2) + "B"@
            };
            let one = single ==> {
                let count = nth_count(counts, 0);
                &&& table_row(counts, None, text, mode, prefix) == count
                &&& table_row(counts, total, text, mode, prefix) == "Σ "@ + count
                &&& name != total ==> table_row(counts, name, text, mode, prefix) == count + " "@
                    + short
            };
            let several = {
                let all = joined(counts, " "@);
                &&& table_row(counts, total, text, WcMode::Mixed, prefix) == "Σ "@ + all
                &&& counts.len() > 0 ==> table_row(counts, None, text, WcMode::Mixed, prefix) == all
                &&& counts.len() == 0 ==> table_row(counts, None, text, WcMode::Mixed, prefix)
                    == text
                &&& name != total && counts.len() > 0 ==> table_row(
                    counts,
                    name,
                    text,
                    WcMode::Mixed,
                    prefix,
                ) == all + " "@ + short
                &&& name != total && counts.len() == 0 ==> table_row(
                    counts,
                    name,
                    text,
                    WcMode::Mixed,
                    prefix,
                ) == text
            };
            three && few && one && several
        }),
{
    let whole = prefix + short;
    assert(whole.take(prefix.len() as int) =~= prefix);
    assert(whole.skip(prefix.len() as int) =~= short);
    lemma_without_prefix(whole, prefix);
    assert(counts.len() < 3 ==> table_row(counts, Some("total"@), text, WcMode::Full, prefix)
        =~= "Σ "@ + nth_count(counts, 0) + "L "@ + nth_count(counts, 1) + "W "@ + nth_count(
        counts,
        2,
    ) + "B"@);
    assert(counts.len() == 3 ==> table_row(counts, Some("total"@), text, WcMode::Full, prefix)
        =~= "Σ "@ + (counts[0] + "L "@ + counts[1] + "W "@ + counts[2] + "B"@));
}

/// A single line: the first word for a single column; three counts with their
/// units; the counts alone for several columns; the line where there are none.
pub proof fn lemma_single(line: Seq<char>, mode: WcMode)
    ensures
        ({
            let words = words_of(line);
            let counts = line_counts(line, 4);
            let text = trimmed(line);
            let one = mode != WcMode::Full && mode != WcMode::Mixed ==> {
                &&& words.len() > 0 ==> single_line(line, mode) == words[0]
                &&& words.len() == 0 ==> single_line(line, mode).len() == 0
            };
            let three = {
                &&& words.len() >= 3 ==> single_line(line, WcMode::Full) == words[0] + "L "@
                    + words[1] + "W "@ + words[2] + "B"@
                &&& words.len() < 3 ==> single_line(line, WcMode::Full) == text
            };
            let several = {
                &&& counts.len() > 0 ==> single_line(line, WcMode::Mixed) == joined(counts, " "@)
                &&& counts.len() == 0 ==> single_line(line, WcMode::Mixed) == text
            };
            one && three && several
        }),
{
}

/// The output without whitespace around it decides: nothing, a single line, or a
/// table.
pub proof fn lemma_wc(raw: Seq<char>, mode: WcMode)
    ensures
        ({
            let all = lines_of(trimmed(raw));
            &&& all.len() == 0 ==> filtered(raw, mode).len() == 0
            &&& all.len() == 1 ==> filtered(raw, mode) == single_line(all[0], mode)
            &&& all.len() > 1 ==> filtered(raw, mode) == table(all, mode)
        }),
{
}

} // verus!
