//! The log analysis: which lines are repeats, how bad they are, and what is shown.
use crate::decimal::decimal;
use crate::lines::{joined, lines_of};
use crate::pattern::replaced;
use crate::system::log_cmd::{
    analyzed, count_key, entry_of, first_entries, group_text, grouped, has_key, lemma_ranked,
    lowercased, mentions, normalized, of_severity, ranked, section, severity_of, summary, Entry,
    Group, Severity, ERROR_WORDS, HEX, INFO_WORDS, NUM, PATH, TIMESTAMP, UUID, WARNING_WORDS,
};
use crate::text::{contains, strs, trimmed};
use crate::utils::truncated;
use vstd::prelude::*;
use vstd::string::*;

verus! {

/// Whether none of the five patterns finds anything to replace in `line`.
pub open spec fn plain(line: Seq<char>) -> bool {
    &&& replaced(TIMESTAMP@, line, ""@) == line
    &&& replaced(UUID@, line, "<UUID>"@) == line
    &&& replaced(HEX@, line, "<HEX>"@) == line
    &&& replaced(NUM@, line, "<NUM>"@) == line
    &&& replaced(PATH@, line, "<PATH>"@) == line
}

/// A line with nothing to replace is its own key, however long it is, but for the
/// whitespace around it.
pub proof fn lemma_plain_key(line: Seq<char>)
    requires
        plain(line),
    ensures
        normalized(line) == trimmed(line),
{
}

/// Lines with nothing to replace are repeats only if they read the same without the
/// whitespace around them.
pub proof fn lemma_plain_keys(a: Seq<char>, b: Seq<char>)
    requires
        plain(a),
        plain(b),
    ensures
        normalized(a) == normalized(b) <==> trimmed(a) == trimmed(b),
{
}

/// Only timestamps, UUIDs, hexadecimal and long numbers and paths are replaced, one
/// after the other: from the text that is left the key is the whole but for the
/// whitespace around it.
pub proof fn lemma_key(
    line: Seq<char>,
    undated: Seq<char>,
    no_uuid: Seq<char>,
    no_hex: Seq<char>,
    no_num: Seq<char>,
    left: Seq<char>,
)
    requires
        replaced(TIMESTAMP@, line, ""@) == undated,
        replaced(UUID@, undated, "<UUID>"@) == no_uuid,
        replaced(HEX@, no_uuid, "<HEX>"@) == no_hex,
        replaced(NUM@, no_hex, "<NUM>"@) == no_num,
        replaced(PATH@, no_num, "<PATH>"@) == left,
    ensures
        normalized(line) == trimmed(left),
{
}

/// Lines that differ in their timestamps alone are repeats.
pub proof fn lemma_timestamps(a: Seq<char>, b: Seq<char>)
    requires
        replaced(TIMESTAMP@, a, ""@) == replaced(TIMESTAMP@, b, ""@),
    ensures
        normalized(a) == normalized(b),
{
}

/// Whether `lower` holds a word of an error.
pub open spec fn speaks_of_error(lower: Seq<char>) -> bool {
    ||| contains(lower, "error"@)
    ||| contains(lower, "fatal"@)
    ||| contains(lower, "panic"@)
    ||| contains(lower, "critical"@)
    ||| contains(lower, "alert"@)
    ||| contains(lower, "emerg"@)
    ||| contains(lower, "severe"@)
}

/// Whether `lower` holds a word of a warning.
pub open spec fn speaks_of_warning(lower: Seq<char>) -> bool {
    contains(lower, "warn"@) || contains(lower, "notice"@)
}

/// The worst word decides, wherever it stands.
pub proof fn lemma_severity(lower: Seq<char>)
    ensures
        severity_of(lower) == Severity::Error <==> speaks_of_error(lower),
        severity_of(lower) == Severity::Warning <==> speaks_of_warning(lower) && !speaks_of_error(
            lower,
        ),
        severity_of(lower) == Severity::Info <==> contains(lower, "info"@) && !speaks_of_warning(
            lower,
        ) && !speaks_of_error(lower),
{
    let errors = strs(ERROR_WORDS@);
    let warnings = strs(WARNING_WORDS@);
    let infos = strs(INFO_WORDS@);
    assert(errors[0] == "error"@ && errors[1] == "fatal"@ && errors[2] == "panic"@ && errors[3]
        == "critical"@ && errors[4] == "alert"@ && errors[5] == "emerg"@ && errors[6]
        == "severe"@);
    assert(warnings[0] == "warn"@ && warnings[1] == "notice"@);
    assert(infos[0] == "info"@);
    assert(mentions(lower, errors) <==> speaks_of_error(lower));
    assert(mentions(lower, warnings) <==> speaks_of_warning(lower));
    assert(mentions(lower, infos) <==> contains(lower, "info"@));
}

/// The entries with one severity are all those with it, in order.
pub proof fn lemma_of_severity(entries: Seq<Entry>, severity: Severity) -> (idx: Seq<int>)
    ensures
        idx.len() == of_severity(entries, severity).len(),
        forall|j: int|
            0 <= j < idx.len() ==> {
                &&& 0 <= #[trigger] idx[j] < entries.len()
                &&& entries[idx[j]].severity == severity
                &&& of_severity(entries, severity)[j] == entries[idx[j]]
            },
        forall|j: int, k: int| 0 <= j < k < idx.len() ==> #[trigger] idx[j] < #[trigger] idx[k],
        forall|i: int|
            0 <= i < entries.len() && (#[trigger] entries[i]).severity == severity ==> idx.contains(
                i,
            ),
    decreases entries.len(),
{
    reveal(Seq::filter);
    if entries.len() == 0 {
        Seq::empty()
    } else {
        let front = entries.drop_last();
        let n = entries.len() - 1;
        let before = lemma_of_severity(front, severity);
        let idx = if entries[n].severity == severity {
            before.push(n)
        } else {
            before
        };
        let out = of_severity(entries, severity);
        assert forall|j: int| 0 <= j < idx.len() implies {
            &&& 0 <= #[trigger] idx[j] < entries.len()
            &&& entries[idx[j]].severity == severity
            &&& out[j] == entries[idx[j]]
        } by {
            if j < before.len() {
                assert(idx[j] == before[j]);
                assert(front[before[j]] == entries[before[j]]);
                assert(out[j] == of_severity(front, severity)[j]);
            }
        }
        assert forall|i: int|
            0 <= i < entries.len() && (#[trigger] entries[i]).severity
                == severity implies idx.contains(i) by {
            if i < n {
                assert(front[i] == entries[i]);
                let j = choose|j: int| 0 <= j < before.len() && before[j] == i;
                assert(idx[j] == i);
            } else {
                assert(idx[idx.len() - 1] == n);
            }
        }
        idx
    }
}

/// A key is counted once for each entry that has it.
pub proof fn lemma_key_places(entries: Seq<Entry>, key: Seq<char>) -> (idx: Seq<int>)
    ensures
        idx.len() == count_key(entries, key),
        forall|j: int|
            0 <= j < idx.len() ==> 0 <= #[trigger] idx[j] < entries.len() && entries[idx[j]].key
                == key,
        forall|j: int, k: int| 0 <= j < k < idx.len() ==> #[trigger] idx[j] < #[trigger] idx[k],
        forall|i: int|
            0 <= i < entries.len() && (#[trigger] entries[i]).key == key ==> idx.contains(i),
    decreases entries.len(),
{
    if entries.len() == 0 {
        Seq::empty()
    } else {
        let front = entries.drop_last();
        let n = entries.len() - 1;
        let before = lemma_key_places(front, key);
        let idx = if entries[n].key == key {
            before.push(n)
        } else {
            before
        };
        assert forall|j: int| 0 <= j < idx.len() implies 0 <= #[trigger] idx[j] < entries.len()
            && entries[idx[j]].key == key by {
            if j < before.len() {
                assert(idx[j] == before[j]);
                assert(front[before[j]] == entries[before[j]]);
            }
        }
        assert forall|i: int|
            0 <= i < entries.len() && (#[trigger] entries[i]).key == key implies idx.contains(
            i,
        ) by {
            if i < n {
                assert(front[i] == entries[i]);
                let j = choose|j: int| 0 <= j < before.len() && before[j] == i;
                assert(idx[j] == i);
            } else {
                assert(idx[idx.len() - 1] == n);
            }
        }
        idx
    }
}

/// Whether no entry before the `i`th has its key.
pub open spec fn is_first(entries: Seq<Entry>, i: int) -> bool {
    forall|k: int| 0 <= k < i ==> (#[trigger] entries[k]).key != entries[i].key
}

proof fn lemma_firsts(entries: Seq<Entry>) -> (idx: Seq<int>)
    ensures
        idx.len() == first_entries(entries).len(),
        forall|j: int|
            0 <= j < idx.len() ==> {
                &&& 0 <= #[trigger] idx[j] < entries.len()
                &&& is_first(entries, idx[j])
                &&& first_entries(entries)[j] == entries[idx[j]]
            },
        forall|j: int, k: int| 0 <= j < k < idx.len() ==> #[trigger] idx[j] < #[trigger] idx[k],
        forall|i: int|
            0 <= i < entries.len() && #[trigger] is_first(entries, i) ==> idx.contains(i),
    decreases entries.len(),
{
    if entries.len() == 0 {
        Seq::empty()
    } else {
        let front = entries.drop_last();
        let n = entries.len() - 1;
        let before = lemma_firsts(front);
        let idx = if is_first(entries, n) {
            before.push(n)
        } else {
            before
        };
        assert(is_first(entries, n) <==> !has_key(front, entries[n].key)) by {
            if !is_first(entries, n) {
                let k = choose|k: int|
                    0 <= k < n && (#[trigger] entries[k]).key == entries[n].key;
                assert(front[k].key == entries[n].key);
            }
            if has_key(front, entries[n].key) {
                let k = choose|k: int|
                    0 <= k < front.len() && (#[trigger] front[k]).key == entries[n].key;
                assert(entries[k].key == entries[n].key);
            }
        }
        let out = first_entries(entries);
        assert forall|j: int| 0 <= j < idx.len() implies {
            &&& 0 <= #[trigger] idx[j] < entries.len()
            &&& is_first(entries, idx[j])
            &&& out[j] == entries[idx[j]]
        } by {
            if j < before.len() {
                let i = before[j];
                assert(idx[j] == i);
                assert(front[i] == entries[i]);
                assert(out[j] == first_entries(front)[j]);
                assert forall|k: int| 0 <= k < i implies (#[trigger] entries[k]).key
                    != entries[i].key by {
                    assert(front[k] == entries[k]);
                }
            }
        }
        assert forall|i: int|
            0 <= i < entries.len() && #[trigger] is_first(entries, i) implies idx.contains(i) by {
            if i < n {
                assert forall|k: int| 0 <= k < i implies (#[trigger] front[k]).key
                    != front[i].key by {
                    assert(front[k] == entries[k]);
                }
                assert(is_first(front, i));
                let j = choose|j: int| 0 <= j < before.len() && before[j] == i;
                assert(idx[j] == i);
            } else {
                assert(idx[idx.len() - 1] == n);
            }
        }
        idx
    }
}

/// There is a group for each key, at the place where the key first appears. It shows
/// that entry.
pub proof fn lemma_groups(entries: Seq<Entry>) -> (idx: Seq<int>)
    ensures
        idx.len() == grouped(entries).len(),
        forall|j: int|
            0 <= j < idx.len() ==> {
                let i = #[trigger] idx[j];
                let g = grouped(entries)[j];
                &&& 0 <= i < entries.len()
                &&& is_first(entries, i)
                &&& g.key == entries[i].key
                &&& g.first == entries[i].line
                &&& g.count == count_key(entries, entries[i].key)
            },
        forall|j: int, k: int| 0 <= j < k < idx.len() ==> #[trigger] idx[j] < #[trigger] idx[k],
        forall|i: int|
            0 <= i < entries.len() && #[trigger] is_first(entries, i) ==> idx.contains(i),
{
    let idx = lemma_firsts(entries);
    assert forall|j: int| 0 <= j < idx.len() implies ({
        let i = #[trigger] idx[j];
        let g = grouped(entries)[j];
        &&& 0 <= i < entries.len()
        &&& is_first(entries, i)
        &&& g.key == entries[i].key
        &&& g.first == entries[i].line
        &&& g.count == count_key(entries, entries[i].key)
    }) by {
        assert(first_entries(entries)[j] == entries[idx[j]]);
    }
    idx
}

/// A group shows its first line, cut to a hundred characters, and how often it came
/// where that was more than once.
pub proof fn lemma_group_text(g: Group)
    ensures
        g.count <= 1 ==> group_text(g) == "   "@ + truncated(g.first, 100),
        g.count > 1 ==> group_text(g) == "   [×"@ + decimal(g.count) + "] "@ + truncated(
            g.first,
            100,
        ),
{
}

/// A section has a title, a row for each of the largest groups, and one that tells
/// how many were left out, where some were.
pub proof fn lemma_section(groups: Seq<Group>, title: Seq<char>, cap: nat, what: Seq<char>)
    ensures
        ({
            let rows = section(groups, title, cap, what);
            &&& rows[0] == title
            &&& forall|i: int|
                0 <= i < groups.len() && i < cap ==> #[trigger] rows[i + 1] == group_text(
                    ranked(groups)[i],
                )
            &&& groups.len() <= cap ==> rows.len() == groups.len() + 1
            &&& groups.len() > cap ==> {
                &&& rows.len() == cap + 2
                &&& rows[cap as int + 1] == "   ... +"@ + decimal((groups.len() - cap) as nat)
                    + " more unique "@ + what
            }
        }),
{
    lemma_ranked(groups, 0);
}

/// Where no more groups are there than can be shown, each of them is.
pub proof fn lemma_group_shown(
    groups: Seq<Group>,
    title: Seq<char>,
    cap: nat,
    what: Seq<char>,
    j: int,
)
    requires
        0 <= j < groups.len() <= cap,
    ensures
        section(groups, title, cap, what).contains(group_text(groups[j])),
{
    broadcast use vstd::seq_lib::group_to_multiset_ensures;

    let all = ranked(groups);
    let rows = section(groups, title, cap, what);
    lemma_ranked(groups, 0);
    lemma_section(groups, title, cap, what);
    assert(groups.contains(groups[j]));
    assert(groups.to_multiset().count(groups[j]) > 0);
    assert(all.contains(groups[j]));
    let i = choose|i: int| 0 <= i < all.len() && all[i] == groups[j];
    assert(rows[i + 1] == group_text(groups[j]));
}

/// The number of rows of a section of which at most `cap` groups are shown.
pub open spec fn section_rows(n: nat, cap: nat) -> nat {
    if n == 0 {
        0
    } else if n <= cap {
        n + 1
    } else {
        cap + 2
    }
}

/// The row at which the warnings start, where there are `n` groups of errors.
pub open spec fn warnings_row(n: nat) -> int {
    if n == 0 {
        5
    } else {
        6int + section_rows(n, 10)
    }
}

/// The summary, row by row: the totals, then the ten most frequent errors, then the
/// five most frequent warnings.
pub proof fn lemma_summary(entries: Seq<Entry>) -> (rows: Seq<Seq<char>>)
    ensures
        summary(entries) == joined(rows, "\n"@),
        ({
            let errors = of_severity(entries, Severity::Error);
            let warnings = of_severity(entries, Severity::Warning);
            let infos = of_severity(entries, Severity::Info);
            let e = grouped(errors).len();
            let w = grouped(warnings).len();
            let second = warnings_row(e);
            &&& rows.len() == second + section_rows(w, 5)
            &&& rows[0] == "Log Summary"@
            &&& rows[1] == "   [error] "@ + decimal(errors.len()) + " errors ("@ + decimal(e)
                + " unique)"@
            &&& rows[2] == "   [warn] "@ + decimal(warnings.len()) + " warnings ("@ + decimal(w)
                + " unique)"@
            &&& rows[3] == "   [info] "@ + decimal(infos.len()) + " info messages"@
            &&& rows[4] == ""@
            &&& forall|i: int|
                0 <= i < section_rows(e, 10) ==> #[trigger] rows[5 + i] == section(
                    grouped(errors),
                    "[ERRORS]"@,
                    10,
                    "errors"@,
                )[i]
            &&& e > 0 ==> rows[second - 1] == ""@
            &&& forall|i: int|
                0 <= i < section_rows(w, 5) ==> #[trigger] rows[second + i] == section(
                    grouped(warnings),
                    "[WARNINGS]"@,
                    5,
                    "warnings"@,
                )[i]
        }),
{
    let errors = of_severity(entries, Severity::Error);
    let warnings = of_severity(entries, Severity::Warning);
    let infos = of_severity(entries, Severity::Info);
    let e = grouped(errors);
    let w = grouped(warnings);
    let first = section(e, "[ERRORS]"@, 10, "errors"@);
    let second = section(w, "[WARNINGS]"@, 5, "warnings"@);
    lemma_section(e, "[ERRORS]"@, 10, "errors"@);
    lemma_section(w, "[WARNINGS]"@, 5, "warnings"@);
    let head = seq![
        "Log Summary"@,
        "   [error] "@ + decimal(errors.len()) + " errors ("@ + decimal(e.len()) + " unique)"@,
        "   [warn] "@ + decimal(warnings.len()) + " warnings ("@ + decimal(w.len()) + " unique)"@,
        "   [info] "@ + decimal(infos.len()) + " info messages"@,
        ""@,
    ];
    let error_rows = if e.len() == 0 {
        Seq::empty()
    } else {
        first + seq![""@]
    };
    let warning_rows = if w.len() == 0 {
        Seq::empty()
    } else {
        second
    };
    let rows = head + error_rows + warning_rows;
    assert(head.len() == 5);
    rows
}

/// Every line of a log makes one entry, in order: with the line itself, its key, and
/// its severity whatever case its words are in.
pub proof fn lemma_analyzed(content: Seq<char>) -> (entries: Seq<Entry>)
    ensures
        analyzed(content) == summary(entries),
        entries.len() == lines_of(content).len(),
        forall|i: int|
            0 <= i < entries.len() ==> {
                let line = lines_of(content)[i];
                &&& (#[trigger] entries[i]).line == line
                &&& entries[i].key == normalized(line)
                &&& entries[i].severity == severity_of(lowercased(line))
            },
{
    lines_of(content).map_values(|line: Seq<char>| entry_of(line))
}

} // verus!
