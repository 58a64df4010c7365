//! Compact filter for `wc`: drops redundant paths and alignment padding.
//!
//! - `wc file.py` gives `30L 96W 978B`
//! - `wc -l file.py` gives `30`
//! - `wc -l *.py` gives a table without the directory that all paths share
use crate::decimal::{is_count, reads_as_count};
use crate::lines::{join, join_strs, joined, lines, lines_of};
use crate::text::{
    cut, first_word_end, has_prefix, is_white, lemma_first_word, lemma_trim_start_again,
    lemma_word_length, same, starts_with, strs, texts, to_chars, trim, trim_start, trimmed,
    trimmed_start, word_length, words, words_of,
};
use vstd::prelude::*;
use vstd::string::*;

verus! {

/// Which columns were asked for.
#[derive(Debug, Clone, Copy, PartialEq, Eq)]
pub enum WcMode {
    /// Lines, words and bytes.
    Full,
    /// Lines only (`-l`).
    Lines,
    /// Words only (`-w`).
    Words,
    /// Bytes only (`-c`).
    Bytes,
    /// Characters only (`-m`).
    Chars,
    /// Several of them.
    Mixed,
}

/// Whether `c` asks for a column.
pub open spec fn asks_column(c: char) -> bool {
    c == 'l' || c == 'w' || c == 'c' || c == 'm'
}

/// The letters in `args` that ask for a column. An argument with a leading
/// `-` may hold several of them.
pub open spec fn column_letters(args: Seq<Seq<char>>) -> Seq<char>
    decreases args.len(),
{
    if args.len() == 0 {
        Seq::empty()
    } else {
        let before = column_letters(args.drop_last());
        let arg = args.last();
        if arg.len() > 0 && arg[0] == '-' {
            before + arg.skip(1).filter(|c: char| asks_column(c))
        } else {
            before
        }
    }
}

/// The columns that these letters ask for.
pub open spec fn mode_of(letters: Seq<char>) -> WcMode {
    if letters.len() == 0 {
        WcMode::Full
    } else if letters.len() > 1 {
        WcMode::Mixed
    } else if letters[0] == 'l' {
        WcMode::Lines
    } else if letters[0] == 'w' {
        WcMode::Words
    } else if letters[0] == 'c' {
        WcMode::Bytes
    } else {
        WcMode::Chars
    }
}

/// The counts at the front of `rest`, at most `max` of them, and what follows
/// them.
pub open spec fn peeled(rest: Seq<char>, max: nat) -> (Seq<Seq<char>>, Seq<char>)
    decreases max,
{
    let n = word_length(rest) as int;
    if max == 0 || !is_count(rest.take(n)) {
        (Seq::empty(), rest)
    } else {
        let (counts, name) = peeled(trimmed_start(rest.skip(n)), (max - 1) as nat);
        (seq![rest.take(n)] + counts, name)
    }
}

/// The counts at the front of `line`.
pub open spec fn line_counts(line: Seq<char>, max: nat) -> Seq<Seq<char>> {
    peeled(trimmed_start(line), max).0
}

/// The name that follows the counts of `line`.
pub open spec fn line_name(line: Seq<char>, max: nat) -> Option<Seq<char>> {
    let rest = peeled(trimmed_start(line), max).1;
    if rest.len() == 0 {
        None
    } else {
        Some(rest)
    }
}

/// How many columns there can be.
pub open spec fn max_columns(mode: WcMode) -> nat {
    match mode {
        WcMode::Full => 3,
        WcMode::Mixed => 4,
        _ => 1,
    }
}

/// Whether the first `n` characters of the first path are a directory that all
/// paths lie in.
pub open spec fn shared_directory(paths: Seq<Seq<char>>, n: int) -> bool {
    &&& 0 < n <= paths[0].len()
    &&& paths[0][n - 1] == '/'
    &&& forall|i: int|
        0 <= i < paths.len() ==> starts_with(#[trigger] paths[i], paths[0].take(n))
}

/// The length of the longest directory, up to `n`, that all paths lie in.
pub open spec fn longest_shared(paths: Seq<Seq<char>>, n: nat) -> nat
    decreases n,
{
    if n == 0 || shared_directory(paths, n as int) {
        n
    } else {
        longest_shared(paths, (n - 1) as nat)
    }
}

/// The longest directory that all paths lie in, if there are several paths.
pub open spec fn common_prefix(paths: Seq<Seq<char>>) -> Seq<char> {
    if paths.len() <= 1 {
        Seq::empty()
    } else {
        paths[0].take(longest_shared(paths, paths[0].len()) as int)
    }
}

/// `path` without `prefix`, if it starts with it.
pub open spec fn without_prefix(path: Seq<char>, prefix: Seq<char>) -> Seq<char> {
    if starts_with(path, prefix) {
        path.skip(prefix.len() as int)
    } else {
        path
    }
}

/// The names in `lines`, without that of the line with the totals.
pub open spec fn file_names(lines: Seq<Seq<char>>, max: nat) -> Seq<Seq<char>>
    decreases lines.len(),
{
    if lines.len() == 0 {
        Seq::empty()
    } else {
        let before = file_names(lines.drop_last(), max);
        match line_name(lines.last(), max) {
            Some(name) => if name == "total"@ {
                before
            } else {
                before.push(name)
            },
            None => before,
        }
    }
}

/// The `i`th count, or a zero if there are fewer.
pub open spec fn count_at(counts: Seq<Seq<char>>, i: int) -> Seq<char> {
    if 0 <= i < counts.len() {
        counts[i]
    } else {
        "0"@
    }
}

/// Three counts with their units.
pub open spec fn with_units(counts: Seq<Seq<char>>) -> Seq<char> {
    count_at(counts, 0) + "L "@ + count_at(counts, 1) + "W "@ + count_at(counts, 2) + "B"@
}

/// `counts` and, after a blank, `name` if there is one.
pub open spec fn with_name(counts: Seq<char>, name: Option<Seq<char>>) -> Seq<char> {
    match name {
        Some(n) => counts + " "@ + n,
        None => counts,
    }
}

/// The row of the table for one line, given its counts and its name. `text` is
/// the line without whitespace around it.
pub open spec fn table_row(
    counts: Seq<Seq<char>>,
    name: Option<Seq<char>>,
    text: Seq<char>,
    mode: WcMode,
    prefix: Seq<char>,
) -> Seq<char> {
    let total = name == Some("total"@);
    let short = match name {
        Some(n) => Some(without_prefix(n, prefix)),
        None => None,
    };
    match mode {
        WcMode::Full => if total {
            "Σ "@ + with_units(counts)
        } else if counts.len() >= 3 {
            with_name(with_units(counts), short)
        } else {
            text
        },
        WcMode::Mixed => if total {
            "Σ "@ + joined(counts, " "@)
        } else if counts.len() == 0 {
            text
        } else {
            with_name(joined(counts, " "@), short)
        },
        _ => if total {
            "Σ "@ + count_at(counts, 0)
        } else {
            with_name(count_at(counts, 0), short)
        },
    }
}

/// The rows of the table. A line with neither counts nor a name gives none.
pub open spec fn table_rows(
    lines: Seq<Seq<char>>,
    mode: WcMode,
    prefix: Seq<char>,
) -> Seq<Seq<char>>
    decreases lines.len(),
{
    if lines.len() == 0 {
        Seq::empty()
    } else {
        let before = table_rows(lines.drop_last(), mode, prefix);
        let line = lines.last();
        let counts = line_counts(line, max_columns(mode));
        let name = line_name(line, max_columns(mode));
        if counts.len() == 0 && name is None {
            before
        } else {
            before.push(table_row(counts, name, trimmed(line), mode, prefix))
        }
    }
}

/// What is shown of several lines.
pub open spec fn table(lines: Seq<Seq<char>>, mode: WcMode) -> Seq<char> {
    let prefix = common_prefix(file_names(lines, max_columns(mode)));
    joined(table_rows(lines, mode, prefix), "\n"@)
}

/// What is shown of a single line.
pub open spec fn single_line(line: Seq<char>, mode: WcMode) -> Seq<char> {
    let parts = words_of(line);
    match mode {
        WcMode::Full => if parts.len() >= 3 {
            with_units(parts)
        } else {
            trimmed(line)
        },
        WcMode::Mixed => if line_counts(line, 4).len() == 0 {
            trimmed(line)
        } else {
            joined(line_counts(line, 4), " "@)
        },
        _ => if parts.len() == 0 {
            Seq::empty()
        } else {
            parts[0]
        },
    }
}

/// What is shown of the output of `wc`.
pub open spec fn filtered(raw: Seq<char>, mode: WcMode) -> Seq<char> {
    let all = lines_of(trimmed(raw));
    if all.len() == 0 {
        Seq::empty()
    } else if all.len() == 1 {
        single_line(all[0], mode)
    } else {
        table(all, mode)
    }
}

proof fn lemma_longest_shared(paths: Seq<Seq<char>>, n: nat)
    ensures
        longest_shared(paths, n) <= n,
        longest_shared(paths, n) > 0 ==> shared_directory(paths, longest_shared(paths, n) as int),
        forall|k: int|
            longest_shared(paths, n) < k <= n ==> !#[trigger] shared_directory(paths, k),
    decreases n,
{
    if n > 0 && !shared_directory(paths, n as int) {
        lemma_longest_shared(paths, (n - 1) as nat);
    }
}

/// The common prefix is a directory that all paths lie in, or empty; no longer
/// directory holds all of them.
pub proof fn lemma_common_prefix(paths: Seq<Seq<char>>)
    requires
        paths.len() > 1,
    ensures
        common_prefix(paths).len() > 0 ==> common_prefix(paths).last() == '/',
        forall|i: int|
            0 <= i < paths.len() ==> starts_with(#[trigger] paths[i], common_prefix(paths)),
        forall|k: int|
            common_prefix(paths).len() < k ==> !#[trigger] shared_directory(paths, k),
{
    let n = longest_shared(paths, paths[0].len());
    lemma_longest_shared(paths, paths[0].len());
    if n == 0 {
        assert forall|i: int| 0 <= i < paths.len() implies starts_with(
            #[trigger] paths[i],
            common_prefix(paths),
        ) by {
            assert(paths[i].take(0) =~= common_prefix(paths));
        }
    }
}

/// A path can be read back from its short form: it is the prefix and what is
/// left of it.
pub proof fn lemma_without_prefix(path: Seq<char>, prefix: Seq<char>)
    ensures
        starts_with(path, prefix) ==> prefix + without_prefix(path, prefix) == path,
        !starts_with(path, prefix) ==> without_prefix(path, prefix) == path,
{
    if starts_with(path, prefix) {
        assert(path.take(prefix.len() as int) + path.skip(prefix.len() as int) =~= path);
    }
}

proof fn lemma_peeled(rest: Seq<char>, max: nat)
    requires
        trimmed_start(rest) == rest,
    ensures
        peeled(rest, max).0.len() <= max,
        forall|i: int|
            0 <= i < peeled(rest, max).0.len() ==> is_count(#[trigger] peeled(rest, max).0[i]),
        peeled(rest, max).0 + words_of(peeled(rest, max).1) == words_of(rest),
        trimmed_start(peeled(rest, max).1) == peeled(rest, max).1,
        peeled(rest, max).1.len() <= rest.len(),
        peeled(rest, max).1 == rest.skip(rest.len() - peeled(rest, max).1.len()),
        peeled(rest, max).0.len() < max ==> !is_count(
            peeled(rest, max).1.take(word_length(peeled(rest, max).1) as int),
        ),
    decreases max,
{
    let n = word_length(rest) as int;
    let (counts, name) = peeled(rest, max);
    lemma_first_word(rest);
    if max == 0 || !is_count(rest.take(n)) {
        assert(counts + words_of(name) =~= words_of(rest));
        assert(rest.skip(0) =~= rest);
    } else {
        let tail = trimmed_start(rest.skip(n));
        let (more, left) = peeled(tail, (max - 1) as nat);
        lemma_trim_start_again(rest.skip(n));
        lemma_first_word(rest.skip(n));
        lemma_peeled(tail, (max - 1) as nat);
        assert(rest.len() > 0) by {
            if rest.len() == 0 {
                assert(rest.take(n) =~= Seq::empty());
            }
        }
        assert(counts + words_of(name) =~= seq![rest.take(n)] + (more + words_of(left)));
        assert(name =~= rest.skip(rest.len() - name.len()));
        assert forall|i: int| 0 <= i < counts.len() implies is_count(#[trigger] counts[i]) by {
            if i > 0 {
                assert(counts[i] == more[i - 1]);
            }
        }
    }
}

/// Splitting a line loses no word: the counts, each of which reads as a number,
/// and the words of the name are the words of the line, in order. The name is
/// the end of the line as it stands, spaces included, and its first word reads
/// as a number only if there were as many counts as asked for.
pub proof fn lemma_split_line(line: Seq<char>, max: nat)
    ensures
        line_counts(line, max).len() <= max,
        forall|i: int|
            0 <= i < line_counts(line, max).len() ==> is_count(
                #[trigger] line_counts(line, max)[i],
            ),
        match line_name(line, max) {
            Some(name) => {
                &&& words_of(line) == line_counts(line, max) + words_of(name)
                &&& 0 < name.len() <= line.len()
                &&& name == line.skip(line.len() - name.len())
                &&& !is_white(name[0])
                &&& line_counts(line, max).len() < max ==> !is_count(words_of(name)[0])
            },
            None => words_of(line) == line_counts(line, max),
        },
{
    let rest = trimmed_start(line);
    let left = peeled(rest, max).1;
    lemma_trim_start_again(line);
    lemma_first_word(line);
    lemma_peeled(rest, max);
    lemma_first_word(left);
    if left.len() > 0 {
        assert(left =~= line.skip(line.len() - left.len()));
    } else {
        assert(line_counts(line, max) + words_of(left) =~= line_counts(line, max));
    }
}

/// Whether `count` is the number of `letters`, up to two, and `letter` the
/// first of them.
spec fn counted(letters: Seq<char>, count: usize, letter: char) -> bool {
    &&& count == (if letters.len() > 1 {
        2
    } else {
        letters.len() as int
    })
    &&& count > 0 ==> letters[0] == letter
    &&& forall|k: int| 0 <= k < letters.len() ==> asks_column(#[trigger] letters[k])
}

/// The columns that `args` ask for.
pub fn detect_mode(args: &[String]) -> (r: WcMode)
    ensures
        r == mode_of(column_letters(texts(args@))),
{
    let n: usize = args.len();
    let mut count: usize = 0;
    let mut letter: char = ' ';
    for i in 0..n
        invariant
            n == args@.len(),
            counted(column_letters(texts(args@).take(i as int)), count, letter),
    {
        let ghost now = texts(args@).take(i + 1);
        assert(now.drop_last() =~= texts(args@).take(i as int));
        let ghost before = column_letters(texts(args@).take(i as int));
        let chars = to_chars(args[i].as_str());
        let len: usize = chars.len();
        if len > 0 && chars[0] == '-' {
            let ghost rest = chars@.skip(1);
            assert(rest.take(0).filter(|c: char| asks_column(c)) =~= Seq::empty());
            assert(before + Seq::empty() =~= before);
            for k in 1..len
                invariant
                    len == chars@.len(),
                    rest == chars@.skip(1),
                    counted(
                        before + rest.take(k - 1).filter(|c: char| asks_column(c)),
                        count,
                        letter,
                    ),
            {
                let c = chars[k];
                let ghost seen = rest.take(k - 1).filter(|c: char| asks_column(c));
                assert(rest.take(k as int).drop_last() =~= rest.take(k - 1));
                assert(rest.take(k as int).last() == c);
                proof {
                    reveal(Seq::filter);
                }
                if c == 'l' || c == 'w' || c == 'c' || c == 'm' {
                    assert(before + seen.push(c) =~= (before + seen).push(c));
                    if count == 0 {
                        letter = c;
                    }
                    if count < 2 {
                        count = count + 1;
                    }
                }
            }
            assert(rest.take(len - 1) =~= rest);
        }
    }
    assert(texts(args@).take(n as int) =~= texts(args@));
    if count == 0 {
        WcMode::Full
    } else if count > 1 {
        WcMode::Mixed
    } else if letter == 'l' {
        WcMode::Lines
    } else if letter == 'w' {
        WcMode::Words
    } else if letter == 'c' {
        WcMode::Bytes
    } else {
        WcMode::Chars
    }
}

/// Filters the output of `wc`.
pub fn filter_wc_output(raw: &str, mode: &WcMode) -> (r: String)
    ensures
        r@ == filtered(raw@, *mode),
{
    let all = lines(trim(raw));
    let n: usize = all.len();
    if n == 0 {
        return String::new();
    }
    assert(texts(all@)[0] == all@[0]@);
    if n == 1 {
        return format_single_line(all[0].as_str(), mode);
    }
    format_multi_line(all.as_slice(), mode)
}

/// Splits a line into the counts at its front, at most `max_counts` of them,
/// and the name that follows, whose spacing is kept.
pub fn split_counts_and_name(line: &str, max_counts: usize) -> (r: (Vec<&str>, Option<&str>))
    ensures
        strs(r.0@) == line_counts(line@, max_counts as nat),
        match r.1 {
            Some(name) => line_name(line@, max_counts as nat) == Some(name@),
            None => line_name(line@, max_counts as nat) is None,
        },
{
    let mut counts: Vec<&str> = Vec::new();
    let mut rest = trim_start(line);
    let ghost goal = peeled(rest@, max_counts as nat);
    assert(goal.0 =~= strs(counts@) + goal.0);
    let mut done = false;
    while !done && counts.len() < max_counts
        invariant
            counts@.len() <= max_counts,
            goal.0 == strs(counts@) + peeled(rest@, (max_counts - counts@.len()) as nat).0,
            goal.1 == peeled(rest@, (max_counts - counts@.len()) as nat).1,
            done ==> peeled(rest@, (max_counts - counts@.len()) as nat).0.len() == 0 && peeled(
                rest@,
                (max_counts - counts@.len()) as nat,
            ).1 == rest@,
        decreases max_counts - counts@.len(), (if done { 0int } else { 1int }),
    {
        proof {
            lemma_word_length(rest@);
        }
        let end: usize = first_word_end(rest);
        let (token, tail) = cut(rest, end);
        if !reads_as_count(token) {
            done = true;
        } else {
            let ghost before = strs(counts@);
            let ghost left = (max_counts - counts@.len()) as nat;
            counts.push(token);
            assert(strs(counts@) =~= before.push(token@));
            rest = trim_start(tail);
            assert(goal.0 =~= strs(counts@) + peeled(rest@, (left - 1) as nat).0);
        }
    }
    assert(goal.0 =~= strs(counts@));
    let name = if rest.unicode_len() == 0 {
        None
    } else {
        Some(rest)
    };
    (counts, name)
}

/// The `i`th count, or a zero if there are fewer.
fn nth_count<'a>(counts: &[&'a str], i: usize) -> (r: &'a str)
    ensures
        r@ == count_at(strs(counts@), i as int),
{
    if i < counts.len() {
        counts[i]
    } else {
        "0"
    }
}

/// Three counts with their units.
fn unit_text(counts: &[&str]) -> (r: String)
    ensures
        r@ == with_units(strs(counts@)),
{
    let mut out = nth_count(counts, 0).to_owned();
    out.append("L ");
    out.append(nth_count(counts, 1));
    out.append("W ");
    out.append(nth_count(counts, 2));
    out.append("B");
    out
}

/// What is shown of a single line.
pub fn format_single_line(line: &str, mode: &WcMode) -> (r: String)
    ensures
        r@ == single_line(line@, *mode),
{
    match *mode {
        WcMode::Lines | WcMode::Words | WcMode::Bytes | WcMode::Chars => {
            let parts = words(line);
            if parts.len() == 0 {
                String::new()
            } else {
                assert(strs(parts@)[0] == parts@[0]@);
                parts[0].to_owned()
            }
        },
        WcMode::Full => {
            let parts = words(line);
            if parts.len() >= 3 {
                unit_text(parts.as_slice())
            } else {
                trim(line).to_owned()
            }
        },
        WcMode::Mixed => {
            let (counts, _name) = split_counts_and_name(line, 4);
            if counts.len() == 0 {
                trim(line).to_owned()
            } else {
                join_strs(counts.as_slice(), " ")
            }
        },
    }
}

/// `counts` and, after a blank, `name` if there is one.
fn append_name(counts: String, name: Option<&str>) -> (r: String)
    ensures
        r@ == with_name(
            counts@,
            match name {
                Some(n) => Some(n@),
                None => None,
            },
        ),
{
    let mut out = counts;
    if let Some(n) = name {
        out.append(" ");
        out.append(n);
    }
    out
}

/// The row of the table for one line, given its counts and its name. `text` is
/// the line without whitespace around it.
pub fn format_row(
    counts: &[&str],
    name: Option<&str>,
    text: &str,
    mode: &WcMode,
    prefix: &str,
) -> (r: String)
    ensures
        r@ == table_row(
            strs(counts@),
            match name {
                Some(n) => Some(n@),
                None => None,
            },
            text@,
            *mode,
            prefix@,
        ),
{
    let is_total = match name {
        Some(n) => same(n, "total"),
        None => false,
    };
    let short = match name {
        Some(n) => Some(strip_prefix(n, prefix)),
        None => None,
    };
    match *mode {
        WcMode::Lines | WcMode::Words | WcMode::Bytes | WcMode::Chars => {
            if is_total {
                "Σ ".to_owned().concat(nth_count(counts, 0))
            } else {
                append_name(nth_count(counts, 0).to_owned(), short)
            }
        },
        WcMode::Full => {
            if is_total {
                "Σ ".to_owned().concat(unit_text(counts).as_str())
            } else if counts.len() >= 3 {
                append_name(unit_text(counts), short)
            } else {
                text.to_owned()
            }
        },
        WcMode::Mixed => {
            if is_total {
                "Σ ".to_owned().concat(join_strs(counts, " ").as_str())
            } else if counts.len() == 0 {
                text.to_owned()
            } else {
                append_name(join_strs(counts, " "), short)
            }
        },
    }
}

/// The names in `lines`, without that of the line with the totals.
fn collect_names<'a>(lines: &'a [String], max_counts: usize) -> (r: Vec<&'a str>)
    ensures
        strs(r@) == file_names(texts(lines@), max_counts as nat),
{
    let n: usize = lines.len();
    let mut names: Vec<&'a str> = Vec::new();
    assert(strs(names@) =~= Seq::empty());
    for i in 0..n
        invariant
            n == lines@.len(),
            strs(names@) == file_names(texts(lines@).take(i as int), max_counts as nat),
    {
        assert(texts(lines@).take(i + 1).drop_last() =~= texts(lines@).take(i as int));
        let (_counts, name) = split_counts_and_name(lines[i].as_str(), max_counts);
        if let Some(name) = name {
            if !same(name, "total") {
                let ghost before = strs(names@);
                names.push(name);
                assert(strs(names@) =~= before.push(name@));
            }
        }
    }
    assert(texts(lines@).take(n as int) =~= texts(lines@));
    names
}

/// What is shown of several lines: a table without the directory that all
/// files lie in.
pub fn format_multi_line(lines: &[String], mode: &WcMode) -> (r: String)
    ensures
        r@ == table(texts(lines@), *mode),
{
    let max_counts: usize = match *mode {
        WcMode::Lines | WcMode::Words | WcMode::Bytes | WcMode::Chars => 1,
        WcMode::Full => 3,
        WcMode::Mixed => 4,
    };
    let names = collect_names(lines, max_counts);
    let prefix = find_common_prefix(names.as_slice());
    let n: usize = lines.len();
    let mut rows: Vec<String> = Vec::new();
    assert(texts(rows@) =~= Seq::empty());
    for i in 0..n
        invariant
            n == lines@.len(),
            max_counts == max_columns(*mode),
            texts(rows@) == table_rows(texts(lines@).take(i as int), *mode, prefix@),
    {
        assert(texts(lines@).take(i + 1).drop_last() =~= texts(lines@).take(i as int));
        let line = lines[i].as_str();
        let (counts, name) = split_counts_and_name(line, max_counts);
        if counts.len() > 0 || name.is_some() {
            let row = format_row(counts.as_slice(), name, trim(line), mode, prefix.as_str());
            let ghost before = texts(rows@);
            let ghost text = row@;
            rows.push(row);
            assert(texts(rows@) =~= before.push(text));
        }
    }
    assert(texts(lines@).take(n as int) =~= texts(lines@));
    join(rows.as_slice(), "\n")
}

/// Whether all paths start with `prefix`.
fn all_start_with(paths: &[&str], prefix: &str) -> (r: bool)
    ensures
        r == (forall|i: int|
            0 <= i < paths@.len() ==> starts_with(#[trigger] strs(paths@)[i], prefix@)),
{
    let n: usize = paths.len();
    for i in 0..n
        invariant
            n == paths@.len(),
            forall|k: int| 0 <= k < i ==> starts_with(#[trigger] strs(paths@)[k], prefix@),
    {
        if !has_prefix(paths[i], prefix) {
            assert(!starts_with(strs(paths@)[i as int], prefix@));
            return false;
        }
    }
    true
}

/// The longest directory that all paths lie in, if there are several paths.
pub fn find_common_prefix(paths: &[&str]) -> (r: String)
    ensures
        r@ == common_prefix(strs(paths@)),
{
    if paths.len() <= 1 {
        return String::new();
    }
    let first = paths[0];
    let chars = to_chars(first);
    let mut n: usize = chars.len();
    assert(strs(paths@)[0] == first@);
    while n > 0
        invariant
            paths@.len() > 1,
            chars@ == first@,
            first@ == strs(paths@)[0],
            n <= chars@.len(),
            longest_shared(strs(paths@), first@.len()) == longest_shared(strs(paths@), n as nat),
        decreases n,
    {
        if chars[n - 1] == '/' {
            let (prefix, _tail) = cut(first, n);
            if all_start_with(paths, prefix) {
                assert(shared_directory(strs(paths@), n as int));
                return prefix.to_owned();
            }
        }
        n = n - 1;
    }
    assert(first@.take(0) =~= Seq::empty());
    String::new()
}

/// `path` without `prefix`, if it starts with it.
pub fn strip_prefix<'a>(path: &'a str, prefix: &str) -> (r: &'a str)
    ensures
        r@ == without_prefix(path@, prefix@),
{
    if has_prefix(path, prefix) {
        let (_head, tail) = cut(path, prefix.unicode_len());
        tail
    } else {
        path
    }
}

} // verus!
