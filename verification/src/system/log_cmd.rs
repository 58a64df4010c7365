//! Groups repeated log lines and shows how often each occurred.
use crate::decimal::{decimal, decimal_text};
use crate::lines::{join, joined, lines, lines_of};
use crate::pattern::{replaced, Pattern};
use crate::text::{contains, has_substring, strs, texts, trim, trimmed};
use crate::utils::{truncate, truncated};
use vstd::prelude::*;
use vstd::string::*;

verus! {

/// A date and time at the front of a line.
pub const TIMESTAMP: &'static str =
    r"^\d{4}[-/]\d{2}[-/]\d{2}[T ]\d{2}:\d{2}:\d{2}[.,]?\d*\s*";

/// A UUID.
pub const UUID: &'static str =
    r"[0-9a-fA-F]{8}-[0-9a-fA-F]{4}-[0-9a-fA-F]{4}-[0-9a-fA-F]{4}-[0-9a-fA-F]{12}";

/// A hexadecimal number.
pub const HEX: &'static str = r"0x[0-9a-fA-F]+";

/// A number of four digits or more.
pub const NUM: &'static str = r"\b\d{4,}\b";

/// A path.
pub const PATH: &'static str = r"/[\w./\-]+";

/// The words of an error, and of what is worse than an error.
pub const ERROR_WORDS: [&'static str; 7] = [
    "error",
    "fatal",
    "panic",
    "critical",
    "alert",
    "emerg",
    "severe",
];

/// The words of a warning.
pub const WARNING_WORDS: [&'static str; 2] = ["warn", "notice"];

/// The words of an informational message.
pub const INFO_WORDS: [&'static str; 1] = ["info"];

/// How many errors are shown.
pub const MAX_LOG_ERRORS: usize = 10;

/// How many warnings are shown: they matter less than errors.
pub const MAX_LOG_WARNS: usize = 5;

/// How bad it is what a line says.
#[derive(Debug, Clone, Copy, PartialEq, Eq, Structural)]
pub enum Severity {
    Error,
    Warning,
    Info,
    Other,
}

/// What the analysis needs to know of a line.
pub struct Entry {
    /// The line itself.
    pub line: Seq<char>,
    /// What the line has in common with its repeats.
    pub key: Seq<char>,
    /// How bad it is.
    pub severity: Severity,
}

/// Lines with one key.
pub struct Group {
    /// The key that they share.
    pub key: Seq<char>,
    /// How many there are.
    pub count: nat,
    /// The first of them.
    pub first: Seq<char>,
}

/// What `str::to_lowercase` makes of a text.
pub uninterp spec fn lowercased(s: Seq<char>) -> Seq<char>;

/// The lowercase of an ASCII character.
pub open spec fn ascii_lower(c: char) -> char {
    if 'A' <= c && c <= 'Z' {
        (c as u32 + 32) as char
    } else {
        c
    }
}

/// `str::to_lowercase` depends on its argument alone. In a text of ASCII
/// characters it turns the letters `A` to `Z` into `a` to `z` and changes
/// nothing else.
pub assume_specification[ str::to_lowercase ](s: &str) -> (r: String)
    ensures
        r@ == lowercased(s@),
        is_ascii(s) ==> r@ == s@.map_values(|c: char| ascii_lower(c)),
;

/// Whether one of `words` occurs in `s`.
pub open spec fn mentions(s: Seq<char>, words: Seq<Seq<char>>) -> bool {
    exists|i: int| 0 <= i < words.len() && contains(s, #[trigger] words[i])
}

/// The severity of a line that reads `lower` in lowercase. The worst word
/// decides.
pub open spec fn severity_of(lower: Seq<char>) -> Severity {
    if mentions(lower, strs(ERROR_WORDS@)) {
        Severity::Error
    } else if mentions(lower, strs(WARNING_WORDS@)) {
        Severity::Warning
    } else if mentions(lower, strs(INFO_WORDS@)) {
        Severity::Info
    } else {
        Severity::Other
    }
}

/// `line` with what differs from one repeat to the next replaced.
pub open spec fn normalized(line: Seq<char>) -> Seq<char> {
    let a = replaced(TIMESTAMP@, line, ""@);
    let b = replaced(UUID@, a, "<UUID>"@);
    let c = replaced(HEX@, b, "<HEX>"@);
    let d = replaced(NUM@, c, "<NUM>"@);
    trimmed(replaced(PATH@, d, "<PATH>"@))
}

/// What the analysis knows of `line`.
pub open spec fn entry_of(line: Seq<char>) -> Entry {
    Entry { line, key: normalized(line), severity: severity_of(lowercased(line)) }
}

/// The entries with one severity.
pub open spec fn of_severity(entries: Seq<Entry>, severity: Severity) -> Seq<Entry> {
    entries.filter(|e: Entry| e.severity == severity)
}

/// Whether an entry has the key `key`.
pub open spec fn has_key(entries: Seq<Entry>, key: Seq<char>) -> bool {
    exists|i: int| 0 <= i < entries.len() && #[trigger] entries[i].key == key
}

/// How many entries have the key `key`.
pub open spec fn count_key(entries: Seq<Entry>, key: Seq<char>) -> nat
    decreases entries.len(),
{
    if entries.len() == 0 {
        0
    } else if entries.last().key == key {
        count_key(entries.drop_last(), key) + 1
    } else {
        count_key(entries.drop_last(), key)
    }
}

/// The entries whose key no earlier entry has.
pub open spec fn first_entries(entries: Seq<Entry>) -> Seq<Entry>
    decreases entries.len(),
{
    if entries.len() == 0 {
        Seq::empty()
    } else {
        let before = first_entries(entries.drop_last());
        if has_key(entries.drop_last(), entries.last().key) {
            before
        } else {
            before.push(entries.last())
        }
    }
}

/// The entries grouped by their key, in the order in which the keys appear.
pub open spec fn grouped(entries: Seq<Entry>) -> Seq<Group> {
    first_entries(entries).map_values(
        |e: Entry| Group { key: e.key, count: count_key(entries, e.key), first: e.line },
    )
}

/// `sorted` with `g` behind all groups that are no smaller.
pub open spec fn inserted(sorted: Seq<Group>, g: Group) -> Seq<Group>
    decreases sorted.len(),
{
    if sorted.len() == 0 || sorted.last().count >= g.count {
        sorted.push(g)
    } else {
        inserted(sorted.drop_last(), g).push(sorted.last())
    }
}

/// The groups, the largest first; those of one size in their order.
pub open spec fn ranked(groups: Seq<Group>) -> Seq<Group>
    decreases groups.len(),
{
    if groups.len() == 0 {
        Seq::empty()
    } else {
        inserted(ranked(groups.drop_last()), groups.last())
    }
}

/// How a group is shown.
pub open spec fn group_text(g: Group) -> Seq<char> {
    if g.count > 1 {
        "   [×"@ + decimal(g.count) + "] "@ + truncated(g.first, 100)
    } else {
        "   "@ + truncated(g.first, 100)
    }
}

/// The section for groups of one severity: at most `cap` of them are shown.
pub open spec fn section(
    groups: Seq<Group>,
    title: Seq<char>,
    cap: nat,
    what: Seq<char>,
) -> Seq<Seq<char>> {
    let all = ranked(groups);
    if all.len() > cap {
        seq![title] + all.take(cap as int).map_values(|g: Group| group_text(g)) + seq![
            "   ... +"@ + decimal((all.len() - cap) as nat) + " more unique "@ + what,
        ]
    } else {
        seq![title] + all.map_values(|g: Group| group_text(g))
    }
}

/// The lines that give the totals.
pub open spec fn summary_head(entries: Seq<Entry>) -> Seq<Seq<char>> {
    let errors = of_severity(entries, Severity::Error);
    let warnings = of_severity(entries, Severity::Warning);
    let infos = of_severity(entries, Severity::Info);
    seq![
        "Log Summary"@,
        "   [error] "@ + decimal(errors.len()) + " errors ("@ + decimal(grouped(errors).len())
            + " unique)"@,
        "   [warn] "@ + decimal(warnings.len()) + " warnings ("@ + decimal(
            grouped(warnings).len(),
        ) + " unique)"@,
        "   [info] "@ + decimal(infos.len()) + " info messages"@,
        ""@,
    ]
}

/// The summary of `entries`.
pub open spec fn summary(entries: Seq<Entry>) -> Seq<char> {
    let errors = grouped(of_severity(entries, Severity::Error));
    let warnings = grouped(of_severity(entries, Severity::Warning));
    let error_lines = if errors.len() == 0 {
        Seq::empty()
    } else {
        section(errors, "[ERRORS]"@, MAX_LOG_ERRORS as nat, "errors"@) + seq![""@]
    };
    let warning_lines = if warnings.len() == 0 {
        Seq::empty()
    } else {
        section(warnings, "[WARNINGS]"@, MAX_LOG_WARNS as nat, "warnings"@)
    };
    joined(summary_head(entries) + error_lines + warning_lines, "\n"@)
}

/// The analysis of a log.
pub open spec fn analyzed(content: Seq<char>) -> Seq<char> {
    summary(lines_of(content).map_values(|line: Seq<char>| entry_of(line)))
}

/// A key occurs as often as it is counted, and no more often than there are
/// entries.
pub proof fn lemma_count_key(entries: Seq<Entry>, key: Seq<char>)
    ensures
        count_key(entries, key) <= entries.len(),
        has_key(entries, key) <==> count_key(entries, key) > 0,
    decreases entries.len(),
{
    if entries.len() > 0 {
        let before = entries.drop_last();
        lemma_count_key(before, key);
        if has_key(before, key) {
            let i = choose|i: int| 0 <= i < before.len() && #[trigger] before[i].key == key;
            assert(entries[i].key == key);
        }
        if entries.last().key == key {
            assert(entries[entries.len() - 1].key == key);
        }
        if has_key(entries, key) && entries.last().key != key {
            let i = choose|i: int| 0 <= i < entries.len() && #[trigger] entries[i].key == key;
            assert(before[i].key == key);
        }
    }
}

/// Every group stands for lines that are there, the first of which it shows.
pub proof fn lemma_group_first(entries: Seq<Entry>, j: int)
    requires
        0 <= j < first_entries(entries).len(),
    ensures
        exists|i: int|
            #![trigger entries[i]]
            0 <= i < entries.len() && first_entries(entries)[j] == entries[i] && !has_key(
                entries.take(i),
                entries[i].key,
            ),
    decreases entries.len(),
{
    let before = entries.drop_last();
    let n = entries.len() - 1;
    if j < first_entries(before).len() {
        lemma_group_first(before, j);
        let i = choose|i: int|
            #![trigger before[i]]
            0 <= i < before.len() && first_entries(before)[j] == before[i] && !has_key(
                before.take(i),
                before[i].key,
            );
        assert(entries[i] == before[i]);
        assert(entries.take(i) =~= before.take(i));
    } else {
        assert(entries.take(n) =~= before);
        assert(first_entries(entries)[j] == entries[n]);
    }
}

/// Every entry belongs to a group.
pub proof fn lemma_group_of_entry(entries: Seq<Entry>, i: int)
    requires
        0 <= i < entries.len(),
    ensures
        exists|j: int|
            0 <= j < grouped(entries).len() && #[trigger] grouped(entries)[j].key
                == entries[i].key,
    decreases entries.len(),
{
    let before = entries.drop_last();
    let n = entries.len() - 1;
    if i < n || has_key(before, entries[n].key) {
        let k = if i < n {
            i
        } else {
            choose|k: int| 0 <= k < before.len() && #[trigger] before[k].key == entries[n].key
        };
        lemma_group_of_entry(before, k);
        let j = choose|j: int|
            0 <= j < grouped(before).len() && #[trigger] grouped(before)[j].key == before[k].key;
        assert(first_entries(before)[j] == first_entries(entries)[j]);
        assert(grouped(entries)[j].key == entries[i].key);
    } else {
        let j = first_entries(before).len() as int;
        assert(grouped(entries)[j].key == entries[i].key);
    }
}

/// No two groups have the same key.
pub proof fn lemma_groups_distinct(entries: Seq<Entry>, j: int, k: int)
    requires
        0 <= j < k < grouped(entries).len(),
    ensures
        grouped(entries)[j].key != grouped(entries)[k].key,
    decreases entries.len(),
{
    let before = entries.drop_last();
    if k < grouped(before).len() {
        lemma_groups_distinct(before, j, k);
        assert(first_entries(entries)[j] == first_entries(before)[j]);
        assert(first_entries(entries)[k] == first_entries(before)[k]);
        assert(grouped(before)[j].key != grouped(before)[k].key);
    } else {
        lemma_group_first(before, j);
        assert(first_entries(entries)[j] == first_entries(before)[j]);
    }
}

/// One more entry of a group makes the group larger, and no other.
proof fn lemma_group_grows(entries: Seq<Entry>, e: Entry, j: int)
    requires
        0 <= j < grouped(entries).len(),
        grouped(entries)[j].key == e.key,
    ensures
        grouped(entries.push(e)) == grouped(entries).update(
            j,
            Group {
                key: e.key,
                count: grouped(entries)[j].count + 1,
                first: grouped(entries)[j].first,
            },
        ),
{
    let now = entries.push(e);
    assert(now.drop_last() =~= entries);
    lemma_group_first(entries, j);
    assert(has_key(entries, e.key));
    assert forall|k: int| 0 <= k < grouped(entries).len() && k != j implies grouped(
        entries,
    )[k].key != e.key by {
        if k < j {
            lemma_groups_distinct(entries, k, j);
        } else {
            lemma_groups_distinct(entries, j, k);
        }
    }
    let grown = grouped(entries).update(
        j,
        Group {
            key: e.key,
            count: grouped(entries)[j].count + 1,
            first: grouped(entries)[j].first,
        },
    );
    assert forall|k: int| 0 <= k < grown.len() implies grouped(now)[k] == grown[k] by {
        assert(first_entries(now)[k] == first_entries(entries)[k]);
        assert(grouped(entries)[k].key == first_entries(entries)[k].key);
    }
    assert(grouped(now) =~= grown);
}

/// An entry with a new key makes a new group.
proof fn lemma_group_new(entries: Seq<Entry>, e: Entry)
    requires
        forall|k: int|
            0 <= k < grouped(entries).len() ==> #[trigger] grouped(entries)[k].key != e.key,
    ensures
        grouped(entries.push(e)) == grouped(entries).push(
            Group { key: e.key, count: 1, first: e.line },
        ),
{
    let now = entries.push(e);
    assert(now.drop_last() =~= entries);
    if has_key(entries, e.key) {
        let i = choose|i: int| 0 <= i < entries.len() && #[trigger] entries[i].key == e.key;
        lemma_group_of_entry(entries, i);
    }
    lemma_count_key(entries, e.key);
    let grown = grouped(entries).push(Group { key: e.key, count: 1, first: e.line });
    assert forall|k: int| 0 <= k < grown.len() implies grouped(now)[k] == grown[k] by {
        if k < grouped(entries).len() {
            assert(first_entries(now)[k] == first_entries(entries)[k]);
            assert(grouped(entries)[k].key == first_entries(entries)[k].key);
        }
    }
    assert(grouped(now) =~= grown);
}

/// The counts of all groups together.
pub open spec fn total_count(groups: Seq<Group>) -> nat
    decreases groups.len(),
{
    if groups.len() == 0 {
        0
    } else {
        total_count(groups.drop_last()) + groups.last().count
    }
}

proof fn lemma_total_update(groups: Seq<Group>, j: int, g: Group)
    requires
        0 <= j < groups.len(),
        g.count == groups[j].count + 1,
    ensures
        total_count(groups.update(j, g)) == total_count(groups) + 1,
    decreases groups.len(),
{
    let n = groups.len() - 1;
    if j == n {
        assert(groups.update(j, g).drop_last() =~= groups.drop_last());
    } else {
        lemma_total_update(groups.drop_last(), j, g);
        assert(groups.update(j, g).drop_last() =~= groups.drop_last().update(j, g));
    }
}

/// Every entry is counted, and counted once.
pub proof fn lemma_total_count(entries: Seq<Entry>)
    ensures
        total_count(grouped(entries)) == entries.len(),
    decreases entries.len(),
{
    if entries.len() > 0 {
        let before = entries.drop_last();
        let e = entries.last();
        lemma_total_count(before);
        assert(entries =~= before.push(e));
        if exists|j: int|
            0 <= j < grouped(before).len() && #[trigger] grouped(before)[j].key == e.key {
            let j = choose|j: int|
                0 <= j < grouped(before).len() && #[trigger] grouped(before)[j].key == e.key;
            lemma_group_grows(before, e, j);
            lemma_total_update(grouped(before), j, grouped(entries)[j]);
        } else {
            lemma_group_new(before, e);
            assert(grouped(entries).drop_last() =~= grouped(before));
        }
    }
}

/// The keys of `entries`.
pub open spec fn keys_of(entries: Seq<Entry>) -> Set<Seq<char>> {
    entries.map_values(|e: Entry| e.key).to_set()
}

/// There are as many groups as there are keys.
pub proof fn lemma_group_count(entries: Seq<Entry>)
    ensures
        keys_of(entries).finite(),
        grouped(entries).len() == keys_of(entries).len(),
    decreases entries.len(),
{
    let keys = entries.map_values(|e: Entry| e.key);
    if entries.len() > 0 {
        let before = entries.drop_last();
        let earlier = before.map_values(|e: Entry| e.key);
        let key = entries.last().key;
        lemma_group_count(before);
        assert(keys =~= earlier.push(key));
        assert forall|k: Seq<char>| keys_of(entries).contains(k) <==> keys_of(before).insert(
            key,
        ).contains(k) by {
            if keys_of(before).contains(k) {
                let i = choose|i: int| 0 <= i < earlier.len() && earlier[i] == k;
                assert(keys[i] == k);
            }
            if keys_of(entries).contains(k) && k != key {
                let i = choose|i: int| 0 <= i < keys.len() && keys[i] == k;
                assert(earlier[i] == k);
            }
            assert(keys[keys.len() - 1] == key);
        }
        assert(keys_of(entries) =~= keys_of(before).insert(key));
        assert(has_key(before, key) <==> keys_of(before).contains(key)) by {
            if has_key(before, key) {
                let i = choose|i: int| 0 <= i < before.len() && #[trigger] before[i].key == key;
                assert(earlier[i] == key);
            }
            if keys_of(before).contains(key) {
                let i = choose|i: int| 0 <= i < earlier.len() && earlier[i] == key;
                assert(before[i].key == key);
            }
        }
        if has_key(before, key) {
            assert(keys_of(entries) =~= keys_of(before));
        }
    } else {
        assert(keys_of(entries) =~= Set::empty());
    }
}

proof fn lemma_same_keys(a: Seq<Entry>, b: Seq<Entry>, key: Seq<char>)
    requires
        a.to_multiset() == b.to_multiset(),
        keys_of(a).contains(key),
    ensures
        keys_of(b).contains(key),
{
    broadcast use vstd::seq_lib::group_to_multiset_ensures;

    let first = a.map_values(|e: Entry| e.key);
    let second = b.map_values(|e: Entry| e.key);
    let i = choose|i: int| 0 <= i < first.len() && first[i] == key;
    assert(a.contains(a[i]));
    assert(a.to_multiset().count(a[i]) > 0);
    assert(b.contains(a[i]));
    let j = choose|j: int| 0 <= j < b.len() && b[j] == a[i];
    assert(second[j] == key);
}

/// The totals do not depend on the order of the lines.
pub proof fn lemma_totals_order_free(a: Seq<Entry>, b: Seq<Entry>)
    requires
        a.to_multiset() == b.to_multiset(),
    ensures
        summary_head(a) == summary_head(b),
{
    lemma_severity_order_free(a, b, Severity::Error);
    lemma_severity_order_free(a, b, Severity::Warning);
    lemma_severity_order_free(a, b, Severity::Info);
}

/// How many entries have one severity, and how many groups they make, does not
/// depend on their order.
pub proof fn lemma_severity_order_free(a: Seq<Entry>, b: Seq<Entry>, severity: Severity)
    requires
        a.to_multiset() == b.to_multiset(),
    ensures
        of_severity(a, severity).len() == of_severity(b, severity).len(),
        grouped(of_severity(a, severity)).len() == grouped(of_severity(b, severity)).len(),
{
    broadcast use vstd::seq_lib::group_to_multiset_ensures;

    let first = of_severity(a, severity);
    let second = of_severity(b, severity);
    lemma_filter_multiset(a, |e: Entry| e.severity == severity);
    lemma_filter_multiset(b, |e: Entry| e.severity == severity);
    assert(first.to_multiset() == second.to_multiset());
    assert(first.len() == first.to_multiset().len());
    assert(second.len() == second.to_multiset().len());
    lemma_group_count(first);
    lemma_group_count(second);
    assert(keys_of(first) =~= keys_of(second)) by {
        assert forall|key: Seq<char>| keys_of(first).contains(key) <==> keys_of(second).contains(
            key,
        ) by {
            if keys_of(first).contains(key) {
                lemma_same_keys(first, second, key);
            }
            if keys_of(second).contains(key) {
                lemma_same_keys(second, first, key);
            }
        }
    }
}

proof fn lemma_filter_multiset(entries: Seq<Entry>, keep: spec_fn(Entry) -> bool)
    ensures
        entries.filter(keep).to_multiset() == entries.to_multiset().filter(keep),
    decreases entries.len(),
{
    broadcast use vstd::seq_lib::group_to_multiset_ensures;

    reveal(Seq::filter);
    if entries.len() > 0 {
        let before = entries.drop_last();
        let last = entries.last();
        lemma_filter_multiset(before, keep);
        assert(entries =~= before.push(last));
        assert(entries.filter(keep).to_multiset() =~= entries.to_multiset().filter(keep));
    } else {
        assert(entries.filter(keep).to_multiset() =~= entries.to_multiset().filter(keep));
    }
}

/// Whether larger groups come first.
pub open spec fn is_ranked(groups: Seq<Group>) -> bool {
    forall|i: int, j: int|
        0 <= i < j < groups.len() ==> (#[trigger] groups[i]).count >= (#[trigger] groups[j]).count
}

/// The groups of one size.
pub open spec fn of_size(groups: Seq<Group>, size: nat) -> Seq<Group> {
    groups.filter(|g: Group| g.count == size)
}

proof fn lemma_of_size_push(groups: Seq<Group>, g: Group, size: nat)
    ensures
        of_size(groups.push(g), size) == (if g.count == size {
            of_size(groups, size).push(g)
        } else {
            of_size(groups, size)
        }),
{
    reveal(Seq::filter);
    assert(groups.push(g).drop_last() =~= groups);
}

proof fn lemma_inserted(sorted: Seq<Group>, g: Group, size: nat)
    requires
        is_ranked(sorted),
    ensures
        is_ranked(inserted(sorted, g)),
        inserted(sorted, g).len() == sorted.len() + 1,
        inserted(sorted, g).to_multiset() == sorted.to_multiset().insert(g),
        of_size(inserted(sorted, g), size) == of_size(sorted.push(g), size),
        forall|i: int|
            0 <= i < inserted(sorted, g).len() ==> inserted(sorted, g)[i] == g || sorted.contains(
                #[trigger] inserted(sorted, g)[i],
            ),
    decreases sorted.len(),
{
    broadcast use vstd::seq_lib::group_to_multiset_ensures;

    let out = inserted(sorted, g);
    if sorted.len() == 0 || sorted.last().count >= g.count {
        assert forall|i: int| 0 <= i < out.len() implies out[i] == g || sorted.contains(
            #[trigger] out[i],
        ) by {
            if i < sorted.len() {
                assert(sorted[i] == out[i]);
            }
        }
    } else {
        let shorter = sorted.drop_last();
        let last = sorted.last();
        let head = inserted(shorter, g);
        lemma_inserted(shorter, g, size);
        assert(sorted =~= shorter.push(last));
        assert forall|i: int| 0 <= i < out.len() implies out[i] == g || sorted.contains(
            #[trigger] out[i],
        ) by {
            if i < head.len() {
                assert(out[i] == head[i]);
                if head[i] != g {
                    let k = choose|k: int| 0 <= k < shorter.len() && shorter[k] == head[i];
                    assert(sorted[k] == out[i]);
                }
            } else {
                assert(sorted[sorted.len() - 1] == out[i]);
            }
        }
        assert forall|i: int, j: int| 0 <= i < j < out.len() implies (#[trigger] out[i]).count >= (
        #[trigger] out[j]).count by {
            if j < head.len() {
                assert(out[i] == head[i] && out[j] == head[j]);
            } else {
                assert(out[i] == head[i]);
                if head[i] != g {
                    let k = choose|k: int| 0 <= k < shorter.len() && shorter[k] == head[i];
                    assert(sorted[k] == out[i]);
                }
            }
        }
        assert(out.to_multiset() =~= sorted.to_multiset().insert(g));
        lemma_of_size_push(head, last, size);
        lemma_of_size_push(shorter, g, size);
        lemma_of_size_push(shorter, last, size);
        lemma_of_size_push(sorted, g, size);
    }
}

/// Ranking loses no group and adds none; larger groups come first, and groups
/// of one size stay in their order.
pub proof fn lemma_ranked(groups: Seq<Group>, size: nat)
    ensures
        is_ranked(ranked(groups)),
        ranked(groups).to_multiset() == groups.to_multiset(),
        of_size(ranked(groups), size) == of_size(groups, size),
        ranked(groups).len() == groups.len(),
    decreases groups.len(),
{
    broadcast use vstd::seq_lib::group_to_multiset_ensures;

    if groups.len() > 0 {
        let before = groups.drop_last();
        let g = groups.last();
        lemma_ranked(before, size);
        lemma_inserted(ranked(before), g, size);
        assert(groups =~= before.push(g));
        assert(ranked(groups).to_multiset() =~= groups.to_multiset());
        lemma_of_size_push(ranked(before), g, size);
        lemma_of_size_push(before, g, size);
    } else {
        assert(ranked(groups) =~= groups);
    }
}

/// A line and what is known of it.
pub struct LogRecord {
    /// The line itself.
    pub line: String,
    /// What the line has in common with its repeats.
    pub key: String,
    /// How bad it is.
    pub severity: Severity,
}

impl View for LogRecord {
    type V = Entry;

    open spec fn view(&self) -> Entry {
        Entry { line: self.line@, key: self.key@, severity: self.severity }
    }
}

/// Lines with one key.
pub struct LogGroup {
    /// The key that they share.
    pub key: String,
    /// How many there are.
    pub count: usize,
    /// The first of them.
    pub first: String,
}

impl View for LogGroup {
    type V = Group;

    open spec fn view(&self) -> Group {
        Group { key: self.key@, count: self.count as nat, first: self.first@ }
    }
}

/// The views of `records`.
pub open spec fn entries_of(records: Seq<LogRecord>) -> Seq<Entry> {
    Seq::new(records.len(), |i: int| records[i]@)
}

/// The views of `groups`.
pub open spec fn groups_of(groups: Seq<LogGroup>) -> Seq<Group> {
    Seq::new(groups.len(), |i: int| groups[i]@)
}

/// Where the group with the key `key` stands.
fn find_group(groups: &[LogGroup], key: &String) -> (r: Option<usize>)
    ensures
        match r {
            Some(j) => j < groups@.len() && groups@[j as int].key@ == key@,
            None => forall|k: int| 0 <= k < groups@.len() ==> (#[trigger] groups@[k]).key@ != key@,
        },
{
    let n: usize = groups.len();
    for j in 0..n
        invariant
            n == groups@.len(),
            forall|k: int| 0 <= k < j ==> (#[trigger] groups@[k]).key@ != key@,
    {
        if groups[j].key == *key {
            return Some(j);
        }
    }
    None
}

/// Adds one record to the groups.
fn count_record(groups: &mut Vec<LogGroup>, record: &LogRecord, Ghost(entries): Ghost<Seq<Entry>>)
    requires
        groups_of(old(groups)@) == grouped(entries),
        entries.len() < usize::MAX,
    ensures
        groups_of(final(groups)@) == grouped(entries.push(record@)),
{
    let ghost before = groups@;
    match find_group(groups.as_slice(), &record.key) {
        Some(j) => {
            assert(groups_of(before)[j as int] == before[j as int]@);
            proof {
                lemma_count_key(entries, first_entries(entries)[j as int].key);
                lemma_group_grows(entries, record@, j as int);
            }
            let count: usize = groups[j].count + 1;
            let first = groups[j].first.clone();
            groups.set(j, LogGroup { key: record.key.clone(), count, first });
            assert(groups_of(groups@) =~= grouped(entries.push(record@)));
        },
        None => {
            assert forall|k: int| 0 <= k < grouped(entries).len() implies #[trigger] grouped(
                entries,
            )[k].key != record@.key by {
                assert(groups_of(before)[k] == before[k]@);
            }
            proof {
                lemma_group_new(entries, record@);
            }
            groups.push(
                LogGroup { key: record.key.clone(), count: 1, first: record.line.clone() },
            );
            assert(groups_of(groups@) =~= grouped(entries.push(record@)));
        },
    }
}

/// The records with one severity grouped by their key, in the order in which
/// the keys appear.
pub fn group_records(records: &[LogRecord], severity: Severity) -> (r: Vec<LogGroup>)
    ensures
        groups_of(r@) == grouped(of_severity(entries_of(records@), severity)),
{
    let n: usize = records.len();
    let mut groups: Vec<LogGroup> = Vec::new();
    let ghost all = entries_of(records@);
    proof {
        reveal(Seq::filter);
        assert(groups_of(groups@) =~= grouped(of_severity(all.take(0), severity)));
    }
    for i in 0..n
        invariant
            n == records@.len(),
            all == entries_of(records@),
            groups_of(groups@) == grouped(of_severity(all.take(i as int), severity)),
            of_severity(all.take(i as int), severity).len() <= i,
    {
        let ghost before = of_severity(all.take(i as int), severity);
        proof {
            reveal(Seq::filter);
            assert(all.take(i + 1).drop_last() =~= all.take(i as int));
            assert(all.take(i + 1).last() == records@[i as int]@);
        }
        if records[i].severity == severity {
            assert(of_severity(all.take(i + 1), severity) == before.push(records@[i as int]@));
            count_record(&mut groups, &records[i], Ghost(before));
        }
    }
    assert(all.take(n as int) =~= all);
    groups
}

/// How many records have one severity.
pub fn count_records(records: &[LogRecord], severity: Severity) -> (r: usize)
    ensures
        r == of_severity(entries_of(records@), severity).len(),
{
    let n: usize = records.len();
    let mut count: usize = 0;
    let ghost all = entries_of(records@);
    proof {
        reveal(Seq::filter);
    }
    for i in 0..n
        invariant
            n == records@.len(),
            all == entries_of(records@),
            count == of_severity(all.take(i as int), severity).len(),
            count <= i,
    {
        proof {
            reveal(Seq::filter);
            assert(all.take(i + 1).drop_last() =~= all.take(i as int));
            assert(all.take(i + 1).last() == records@[i as int]@);
        }
        if records[i].severity == severity {
            count = count + 1;
        }
    }
    assert(all.take(n as int) =~= all);
    count
}

proof fn lemma_inserted_at(sorted: Seq<Group>, g: Group, at: int)
    requires
        0 <= at <= sorted.len(),
        at > 0 ==> sorted[at - 1].count >= g.count,
        forall|k: int| at <= k < sorted.len() ==> (#[trigger] sorted[k]).count < g.count,
    ensures
        inserted(sorted, g) == sorted.insert(at, g),
    decreases sorted.len(),
{
    if at == sorted.len() {
        assert(sorted.insert(at, g) =~= sorted.push(g));
    } else {
        lemma_inserted_at(sorted.drop_last(), g, at);
        assert(sorted.insert(at, g) =~= sorted.drop_last().insert(at, g).push(sorted.last()));
    }
}

/// The groups, the largest first; those of one size in their order.
pub fn rank_groups(groups: &[LogGroup]) -> (r: Vec<LogGroup>)
    ensures
        groups_of(r@) == ranked(groups_of(groups@)),
{
    let n: usize = groups.len();
    let mut out: Vec<LogGroup> = Vec::new();
    assert(groups_of(out@) =~= Seq::empty());
    for i in 0..n
        invariant
            n == groups@.len(),
            groups_of(out@) == ranked(groups_of(groups@).take(i as int)),
    {
        let ghost sorted = groups_of(out@);
        let ghost was = out@;
        assert(groups_of(groups@).take(i + 1).drop_last() =~= groups_of(groups@).take(i as int));
        let g = LogGroup {
            key: groups[i].key.clone(),
            count: groups[i].count,
            first: groups[i].first.clone(),
        };
        let mut at: usize = out.len();
        while at > 0 && out[at - 1].count < g.count
            invariant
                at <= out@.len(),
                sorted == groups_of(out@),
                forall|k: int| at <= k < sorted.len() ==> (#[trigger] sorted[k]).count < g@.count,
            decreases at,
        {
            assert(sorted[at - 1] == out@[at - 1]@);
            at = at - 1;
        }
        proof {
            if at > 0 {
                assert(sorted[at - 1] == out@[at - 1]@);
            }
            lemma_inserted_at(sorted, g@, at as int);
        }
        let ghost added = g@;
        out.insert(at, g);
        assert(groups_of(out@) =~= sorted.insert(at as int, added));
    }
    assert(groups_of(groups@).take(n as int) =~= groups_of(groups@));
    out
}

/// A message of at most a hundred characters, of which the last three are dots
/// if something was cut off. Both the test and the cut go by characters.
pub fn truncate_message(original: &str) -> (r: String)
    ensures
        r@ == truncated(original@, 100),
{
    truncate(original, 100)
}

/// How a group is shown.
pub fn group_line(group: &LogGroup) -> (r: String)
    ensures
        r@ == group_text(group@),
{
    let message = truncate_message(group.first.as_str());
    if group.count > 1 {
        let mut out = "   [×".to_owned();
        out.append(decimal_text(group.count).as_str());
        out.append("] ");
        out.append(message.as_str());
        out
    } else {
        "   ".to_owned().concat(message.as_str())
    }
}

/// Appends the section for groups of one severity to `out`.
pub fn push_section(
    out: &mut Vec<String>,
    groups: &[LogGroup],
    title: &str,
    cap: usize,
    what: &str,
)
    ensures
        texts(final(out)@) == texts(old(out)@) + section(
            groups_of(groups@),
            title@,
            cap as nat,
            what@,
        ),
{
    let all = rank_groups(groups);
    let n: usize = all.len();
    let shown: usize = if n > cap {
        cap
    } else {
        n
    };
    let ghost before = texts(out@);
    let ghost views = groups_of(all@);
    out.push(title.to_owned());
    assert(texts(out@) =~= before.push(title@));
    assert(texts(out@) =~= before.push(title@) + views.take(0).map_values(
        |g: Group| group_text(g),
    ));
    for i in 0..shown
        invariant
            shown <= n,
            n == all@.len(),
            views == groups_of(all@),
            texts(out@) == before.push(title@) + views.take(i as int).map_values(
                |g: Group| group_text(g),
            ),
    {
        let line = group_line(&all[i]);
        let ghost was = texts(out@);
        let ghost text = line@;
        out.push(line);
        assert(texts(out@) =~= was.push(text));
        assert(text == group_text(views[i as int]));
        assert(views.take(i + 1).map_values(|g: Group| group_text(g)) =~= views.take(
            i as int,
        ).map_values(|g: Group| group_text(g)).push(text));
        assert(texts(out@) =~= before.push(title@) + views.take(i + 1).map_values(
            |g: Group| group_text(g),
        ));
    }
    if n > cap {
        let mut more = "   ... +".to_owned();
        more.append(decimal_text(n - cap).as_str());
        more.append(" more unique ");
        more.append(what);
        let ghost was = texts(out@);
        let ghost text = more@;
        out.push(more);
        assert(texts(out@) =~= was.push(text));
    } else {
        assert(views.take(shown as int) =~= views);
    }
    assert(texts(out@) =~= before + section(groups_of(groups@), title@, cap as nat, what@));
}

/// A line of the summary: how many messages, and how many of them differ.
fn total_line(label: &str, total: usize, noun: &str, unique: usize) -> (r: String)
    ensures
        r@ == label@ + decimal(total as nat) + noun@ + decimal(unique as nat) + " unique)"@,
{
    let mut out = label.to_owned();
    out.append(decimal_text(total).as_str());
    out.append(noun);
    out.append(decimal_text(unique).as_str());
    out.append(" unique)");
    out
}

/// The summary of `records`.
pub fn summarize(records: &[LogRecord]) -> (r: String)
    ensures
        r@ == summary(entries_of(records@)),
{
    let errors = group_records(records, Severity::Error);
    let warnings = group_records(records, Severity::Warning);
    let total_errors: usize = count_records(records, Severity::Error);
    let total_warnings: usize = count_records(records, Severity::Warning);
    let total_info: usize = count_records(records, Severity::Info);
    let ghost entries = entries_of(records@);
    assert(groups_of(errors@).len() == errors@.len());
    assert(groups_of(warnings@).len() == warnings@.len());

    let mut out: Vec<String> = Vec::new();
    out.push("Log Summary".to_owned());
    out.push(total_line("   [error] ", total_errors, " errors (", errors.len()));
    out.push(total_line("   [warn] ", total_warnings, " warnings (", warnings.len()));
    let mut info = "   [info] ".to_owned();
    info.append(decimal_text(total_info).as_str());
    info.append(" info messages");
    out.push(info);
    out.push("".to_owned());
    assert(texts(out@) =~= summary_head(entries));

    let ghost head = texts(out@);
    if errors.len() > 0 {
        push_section(&mut out, errors.as_slice(), "[ERRORS]", MAX_LOG_ERRORS, "errors");
        let ghost was = texts(out@);
        out.push("".to_owned());
        assert(texts(out@) =~= was.push(""@));
    }
    let ghost middle = texts(out@);
    if warnings.len() > 0 {
        push_section(&mut out, warnings.as_slice(), "[WARNINGS]", MAX_LOG_WARNS, "warnings");
    }
    proof {
        let error_groups = grouped(of_severity(entries, Severity::Error));
        let warning_groups = grouped(of_severity(entries, Severity::Warning));
        let error_lines = if error_groups.len() == 0 {
            Seq::empty()
        } else {
            section(error_groups, "[ERRORS]"@, MAX_LOG_ERRORS as nat, "errors"@) + seq![""@]
        };
        let warning_lines = if warning_groups.len() == 0 {
            Seq::empty()
        } else {
            section(warning_groups, "[WARNINGS]"@, MAX_LOG_WARNS as nat, "warnings"@)
        };
        assert(middle =~= head + error_lines);
        assert(texts(out@) =~= head + error_lines + warning_lines);
    }
    join(out.as_slice(), "\n")
}

/// Whether one of `words` occurs in `s`.
fn mentions_any(s: &str, words: &[&str]) -> (r: bool)
    ensures
        r == mentions(s@, strs(words@)),
{
    let n: usize = words.len();
    for i in 0..n
        invariant
            n == words@.len(),
            forall|k: int| 0 <= k < i ==> !contains(s@, #[trigger] strs(words@)[k]),
    {
        if has_substring(s, words[i]) {
            assert(contains(s@, strs(words@)[i as int]));
            return true;
        }
    }
    false
}

/// The severity of a line that reads `lower` in lowercase.
pub fn classify(lower: &str) -> (r: Severity)
    ensures
        r == severity_of(lower@),
{
    if mentions_any(lower, &ERROR_WORDS) {
        Severity::Error
    } else if mentions_any(lower, &WARNING_WORDS) {
        Severity::Warning
    } else if mentions_any(lower, &INFO_WORDS) {
        Severity::Info
    } else {
        Severity::Other
    }
}

/// The severity of `line`, whatever case its words are in.
pub fn severity(line: &str) -> (r: Severity)
    ensures
        r == severity_of(lowercased(line@)),
        is_ascii(line) ==> r == severity_of(line@.map_values(|c: char| ascii_lower(c))),
{
    let lower = line.to_lowercase();
    classify(lower.as_str())
}

/// The patterns of what differs from one repeat of a line to the next.
pub struct LogPatterns {
    timestamp: Pattern,
    uuid: Pattern,
    hex: Pattern,
    num: Pattern,
    path: Pattern,
}

impl LogPatterns {
    /// Whether the patterns are those that they are named after.
    #[verifier::type_invariant]
    pub closed spec fn wf(self) -> bool {
        &&& self.timestamp@ == TIMESTAMP@
        &&& self.uuid@ == UUID@
        &&& self.hex@ == HEX@
        &&& self.num@ == NUM@
        &&& self.path@ == PATH@
    }

    /// Compiles the patterns.
    pub fn new() -> (r: LogPatterns)
        ensures
            r.wf(),
    {
        LogPatterns {
            timestamp: Pattern::new(TIMESTAMP),
            uuid: Pattern::new(UUID),
            hex: Pattern::new(HEX),
            num: Pattern::new(NUM),
            path: Pattern::new(PATH),
        }
    }

    /// `line` with what differs from one repeat to the next replaced.
    pub fn normalize_log_line(&self, line: &str) -> (r: String)
        ensures
            r@ == normalized(line@),
    {
        proof {
            use_type_invariant(self);
        }
        let a = self.timestamp.replace_all(line, "");
        let b = self.uuid.replace_all(a.as_str(), "<UUID>");
        let c = self.hex.replace_all(b.as_str(), "<HEX>");
        let d = self.num.replace_all(c.as_str(), "<NUM>");
        let e = self.path.replace_all(d.as_str(), "<PATH>");
        trim(e.as_str()).to_owned()
    }
}

/// The analysis of a log: totals, then the most frequent errors and warnings.
pub fn analyze_logs(content: &str) -> (r: String)
    ensures
        r@ == analyzed(content@),
{
    let all = lines(content);
    let patterns = LogPatterns::new();
    let n: usize = all.len();
    let mut records: Vec<LogRecord> = Vec::new();
    for i in 0..n
        invariant
            n == all@.len(),
            records@.len() == i,
            forall|k: int| 0 <= k < i ==> (#[trigger] records@[k])@ == entry_of(all@[k]@),
    {
        let line = all[i].as_str();
        records.push(
            LogRecord {
                line: line.to_owned(),
                key: patterns.normalize_log_line(line),
                severity: severity(line),
            },
        );
    }
    assert(entries_of(records@) =~= lines_of(content@).map_values(
        |line: Seq<char>| entry_of(line),
    )) by {
        assert(texts(all@).len() == all@.len());
    }
    summarize(records.as_slice())
}

/// The analysis of a log that is at hand as a text.
pub fn run_stdin_str(content: &str) -> (r: String)
    ensures
        r@ == analyzed(content@),
{
    analyze_logs(content)
}

} // verus!
