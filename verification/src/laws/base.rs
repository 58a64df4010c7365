//! Patterns, trimming, lines, numbers and reports.
use crate::decimal::{decimal, is_count, is_digit, lemma_decimal_value, value_of};
use crate::jvm::marker::{omission_marker, repeat_marker};
use crate::jvm::report::{kept_lines, rendered};
use crate::lines::{
    joined, lemma_joined_add, lemma_split_add, lemma_split_joined, lemma_split_last,
    lemma_split_plain, lines_of, split_newlines, without_return,
};
use crate::pattern::{
    any_matched, matched, regex_compiles, regex_is_match, regex_replaced, replaced,
};
use crate::text::{
    blank, contains, is_white, lemma_trim_commutes, lemma_trimmed_blank, occurs_at, starts_with,
    trimmed, trimmed_end, trimmed_start, word_length, words_of,
};
use crate::utils::{truncated, without_ansi, ANSI_ESCAPE};
use vstd::prelude::*;
use vstd::string::*;

verus! {

/// A pattern that compiles answers what the regular expression answers.
pub proof fn lemma_matched(source: Seq<char>, text: Seq<char>, replacement: Seq<char>)
    ensures
        regex_compiles(source) ==> {
            &&& matched(source, text) <==> regex_is_match(source, text)
            &&& replaced(source, text, replacement) == regex_replaced(source, text, replacement)
        },
        !regex_compiles(source) ==> {
            &&& !matched(source, text)
            &&& replaced(source, text, replacement) == text
        },
{
}

/// Several patterns match where one of them does, and none matches where there
/// are none.
pub proof fn lemma_any_matched(a: Seq<Seq<char>>, b: Seq<Seq<char>>, text: Seq<char>)
    ensures
        any_matched(a + b, text) <==> any_matched(a, text) || any_matched(b, text),
        a.len() == 1 ==> (any_matched(a, text) <==> matched(a[0], text)),
        a.len() == 0 ==> !any_matched(a, text),
{
    let both = a + b;
    if any_matched(a, text) {
        let i = choose|i: int| 0 <= i < a.len() && matched(#[trigger] a[i], text);
        assert(matched(both[i], text));
    }
    if any_matched(b, text) {
        let i = choose|i: int| 0 <= i < b.len() && matched(#[trigger] b[i], text);
        assert(matched(both[a.len() + i], text));
    }
    if any_matched(both, text) {
        let i = choose|i: int| 0 <= i < both.len() && matched(#[trigger] both[i], text);
        if i < a.len() {
            assert(matched(a[i], text));
        } else {
            assert(matched(b[i - a.len()], text));
        }
    }
    if a.len() == 1 && matched(a[0], text) {
        assert(any_matched(a, text));
    }
}

/// Escape sequences are taken out, and nothing else is.
pub proof fn lemma_ansi(text: Seq<char>, plain: Seq<char>)
    requires
        replaced(ANSI_ESCAPE@, text, ""@) == plain,
    ensures
        without_ansi(text) == plain,
{
}

/// The whitespace characters.
pub proof fn lemma_white(c: char)
    ensures
        is_white(c) <==> seq![
            '\t',
            '\n',
            '\u{b}',
            '\u{c}',
            '\r',
            ' ',
            '\u{85}',
            '\u{a0}',
            '\u{1680}',
            '\u{2000}',
            '\u{2001}',
            '\u{2002}',
            '\u{2003}',
            '\u{2004}',
            '\u{2005}',
            '\u{2006}',
            '\u{2007}',
            '\u{2008}',
            '\u{2009}',
            '\u{200a}',
            '\u{2028}',
            '\u{2029}',
            '\u{202f}',
            '\u{205f}',
            '\u{3000}',
        ].contains(c),
{
    let all = seq![
        '\t',
        '\n',
        '\u{b}',
        '\u{c}',
        '\r',
        ' ',
        '\u{85}',
        '\u{a0}',
        '\u{1680}',
        '\u{2000}',
        '\u{2001}',
        '\u{2002}',
        '\u{2003}',
        '\u{2004}',
        '\u{2005}',
        '\u{2006}',
        '\u{2007}',
        '\u{2008}',
        '\u{2009}',
        '\u{200a}',
        '\u{2028}',
        '\u{2029}',
        '\u{202f}',
        '\u{205f}',
        '\u{3000}',
    ];
    let n = c as u32;
    assert(all[0] == '\t' && all[1] == '\n' && all[2] == '\u{b}' && all[3] == '\u{c}');
    assert(all[4] == '\r' && all[5] == ' ' && all[6] == '\u{85}' && all[7] == '\u{a0}');
    assert(all[8] == '\u{1680}' && all[20] == '\u{2028}' && all[21] == '\u{2029}');
    assert(all[22] == '\u{202f}' && all[23] == '\u{205f}' && all[24] == '\u{3000}');
    if 0x2000 <= n <= 0x200a {
        assert(all[n - 0x2000 + 9] == c);
    }
}

/// Parts are joined in order, with the separator between each two and nowhere else.
pub proof fn lemma_joined(part: Seq<char>, rest: Seq<Seq<char>>, sep: Seq<char>)
    ensures
        joined(Seq::empty(), sep) == Seq::<char>::empty(),
        joined(seq![part], sep) == part,
        rest.len() > 0 ==> joined(seq![part] + rest, sep) == part + sep + joined(rest, sep),
{
    if rest.len() > 0 {
        lemma_joined_add(seq![part], rest, sep);
    }
}

/// A text is blank if all its parts are, down to single characters.
pub proof fn lemma_blank(a: Seq<char>, b: Seq<char>, c: char)
    ensures
        blank(Seq::<char>::empty()),
        blank(seq![c]) <==> is_white(c),
        blank(a + b) <==> blank(a) && blank(b),
{
    let both = a + b;
    let one = seq![c];
    assert(one[0] == c);
    if blank(both) {
        assert forall|i: int| 0 <= i < a.len() implies is_white(#[trigger] a[i]) by {
            assert(both[i] == a[i]);
        }
        assert forall|i: int| 0 <= i < b.len() implies is_white(#[trigger] b[i]) by {
            assert(both[a.len() + i] == b[i]);
        }
    }
}

/// A text starts with a prefix exactly if it is the prefix and a rest.
pub proof fn lemma_starts_with(s: Seq<char>, prefix: Seq<char>)
    ensures
        starts_with(s, prefix) <==> exists|rest: Seq<char>| s == #[trigger] (prefix + rest),
{
    if starts_with(s, prefix) {
        let rest = s.skip(prefix.len() as int);
        assert(s =~= prefix + rest);
    }
    if exists|rest: Seq<char>| s == #[trigger] (prefix + rest) {
        let rest = choose|rest: Seq<char>| s == #[trigger] (prefix + rest);
        assert(s.take(prefix.len() as int) =~= prefix);
    }
}

/// A text contains another exactly if that stands between two other parts of it.
pub proof fn lemma_contains(s: Seq<char>, needle: Seq<char>)
    ensures
        contains(s, needle) <==> exists|a: Seq<char>, b: Seq<char>|
            s == #[trigger] (a + needle + b),
{
    if contains(s, needle) {
        let at = choose|at: int| #[trigger] occurs_at(s, needle, at);
        let a = s.take(at);
        let b = s.skip(at + needle.len());
        assert(s =~= a + needle + b);
    }
    if exists|a: Seq<char>, b: Seq<char>| s == #[trigger] (a + needle + b) {
        let (a, b) = choose|a: Seq<char>, b: Seq<char>| s == #[trigger] (a + needle + b);
        assert(s.subrange(a.len() as int, a.len() as int + needle.len()) =~= needle);
        assert(occurs_at(s, needle, a.len() as int));
    }
}

/// A text is what is left of it after trimming, between whitespace; what is left
/// neither starts nor ends with whitespace where it was trimmed.
pub proof fn lemma_trimmed(s: Seq<char>) -> (r: (Seq<char>, Seq<char>))
    ensures
        blank(r.0) && blank(r.1),
        s == r.0 + trimmed(s) + r.1,
        trimmed(s).len() > 0 ==> !is_white(trimmed(s)[0]) && !is_white(trimmed(s).last()),
{
    lemma_trim_commutes(s);
    let front = lemma_trimmed_start(s);
    let back = lemma_trimmed_end(trimmed_start(s));
    lemma_trimmed_start(trimmed_end(s));
    assert(s =~= front + trimmed(s) + back);
    (front, back)
}

/// What stands in front of a text that was trimmed at its start is whitespace.
pub proof fn lemma_trimmed_start(s: Seq<char>) -> (front: Seq<char>)
    ensures
        blank(front),
        s == front + trimmed_start(s),
        trimmed_start(s).len() > 0 ==> !is_white(trimmed_start(s)[0]),
    decreases s.len(),
{
    if s.len() > 0 && is_white(s[0]) {
        let rest = lemma_trimmed_start(s.skip(1));
        let front = seq![s[0]] + rest;
        assert forall|i: int| 0 <= i < front.len() implies is_white(#[trigger] front[i]) by {
            if i > 0 {
                assert(front[i] == rest[i - 1]);
            }
        }
        assert(s =~= seq![s[0]] + s.skip(1));
        assert(s =~= front + trimmed_start(s));
        front
    } else {
        assert(s =~= Seq::empty() + s);
        Seq::empty()
    }
}

/// What stands behind a text that was trimmed at its end is whitespace.
pub proof fn lemma_trimmed_end(s: Seq<char>) -> (back: Seq<char>)
    ensures
        blank(back),
        s == trimmed_end(s) + back,
        trimmed_end(s).len() > 0 ==> !is_white(trimmed_end(s).last()),
    decreases s.len(),
{
    if s.len() > 0 && is_white(s.last()) {
        let rest = lemma_trimmed_end(s.drop_last());
        let back = rest.push(s.last());
        assert forall|i: int| 0 <= i < back.len() implies is_white(#[trigger] back[i]) by {
            if i < rest.len() {
                assert(back[i] == rest[i]);
            }
        }
        assert(s =~= s.drop_last().push(s.last()));
        assert(s =~= trimmed_end(s) + back);
        back
    } else {
        assert(s =~= s + Seq::empty());
        Seq::empty()
    }
}

/// Whether `s` holds no whitespace.
pub open spec fn solid(s: Seq<char>) -> bool {
    forall|i: int| 0 <= i < s.len() ==> !is_white(#[trigger] s[i])
}

proof fn lemma_solid(s: Seq<char>)
    ensures
        word_length(s) <= s.len(),
        solid(s.take(word_length(s) as int)),
        word_length(s) < s.len() ==> is_white(s[word_length(s) as int]),
    decreases s.len(),
{
    let n = word_length(s) as int;
    if s.len() > 0 && !is_white(s[0]) {
        let rest = s.skip(1);
        lemma_solid(rest);
        let word = s.take(n);
        assert forall|i: int| 0 <= i < word.len() implies !is_white(#[trigger] word[i]) by {
            if i > 0 {
                assert(word[i] == rest.take(n - 1)[i - 1]);
            }
        }
    }
}

/// The words of a text: whitespace alone has none; a text with whitespace in
/// front has the words of the rest; and a word before whitespace or the end is
/// followed by the words of what comes behind it.
pub proof fn lemma_words(gap: Seq<char>, word: Seq<char>, rest: Seq<char>)
    requires
        blank(gap),
        solid(word) && word.len() > 0,
        rest.len() > 0 ==> is_white(rest[0]),
    ensures
        words_of(gap) == Seq::<Seq<char>>::empty(),
        words_of(gap + word + rest) == seq![word] + words_of(rest),
{
    lemma_trimmed_blank(gap);
    let text = word + rest;
    assert(word[0] == text[0]);
    assert(trimmed_start(text) == text);
    lemma_trim_gap(gap, text);
    assert(gap + word + rest =~= gap + text);
    lemma_word_front(word, rest);
    assert(text.take(word.len() as int) =~= word);
    assert(text.skip(word.len() as int) =~= rest);
}

/// Whitespace in front is trimmed.
pub proof fn lemma_trim_gap(gap: Seq<char>, text: Seq<char>)
    requires
        blank(gap),
    ensures
        trimmed_start(gap + text) == trimmed_start(text),
    decreases gap.len(),
{
    if gap.len() > 0 {
        let rest = gap.skip(1);
        assert(is_white(gap[0]));
        assert forall|i: int| 0 <= i < rest.len() implies is_white(#[trigger] rest[i]) by {
            assert(rest[i] == gap[i + 1]);
        }
        lemma_trim_gap(rest, text);
        assert((gap + text)[0] == gap[0]);
        assert((gap + text).skip(1) =~= rest + text);
    } else {
        assert(gap + text =~= text);
    }
}

proof fn lemma_word_front(word: Seq<char>, rest: Seq<char>)
    requires
        solid(word),
        rest.len() > 0 ==> is_white(rest[0]),
    ensures
        word_length(word + rest) == word.len(),
    decreases word.len(),
{
    let text = word + rest;
    if word.len() > 0 {
        let tail = word.skip(1);
        assert(!is_white(word[0]));
        assert(text[0] == word[0]);
        assert forall|i: int| 0 <= i < tail.len() implies !is_white(#[trigger] tail[i]) by {
            assert(tail[i] == word[i + 1]);
        }
        lemma_word_front(tail, rest);
        assert(text.skip(1) =~= tail + rest);
    } else {
        assert(text =~= rest);
    }
}

/// The lines of a text: a line and its line ending in front give the line and the
/// lines of the rest; what no newline ends is one line, unless it is empty.
pub proof fn lemma_lines(line: Seq<char>, rest: Seq<char>)
    requires
        !line.contains('\n'),
    ensures
        line.len() == 0 ==> lines_of(line) == Seq::<Seq<char>>::empty(),
        line.len() > 0 ==> lines_of(line) == seq![line],
        lines_of(line + seq!['\r', '\n'] + rest) == seq![line] + lines_of(rest),
        line.len() == 0 || line.last() != '\r' ==> lines_of(line + seq!['\n'] + rest) == seq![line]
            + lines_of(rest),
{
    reveal_strlit("\n");
    lemma_split_plain(line);
    assert(split_newlines(line).drop_last() =~= Seq::empty());
    if line.len() == 0 {
        assert(lines_of(line) =~= Seq::empty());
    } else {
        assert(lines_of(line) =~= seq![line]);
    }
    let ended = line.push('\r');
    assert forall|k: int| 0 <= k < ended.len() implies ended[k] != '\n' by {
        if k < line.len() {
            assert(line[k] != '\n');
        }
    }
    lemma_split_plain(ended);
    lemma_lines_piece(ended, rest);
    assert(ended + "\n"@ + rest =~= line + seq!['\r', '\n'] + rest);
    assert(ended.drop_last() =~= line);
    lemma_lines_piece(line, rest);
    assert(line + "\n"@ + rest =~= line + seq!['\n'] + rest);
}

proof fn lemma_lines_piece(piece: Seq<char>, rest: Seq<char>)
    requires
        split_newlines(piece) == seq![piece],
    ensures
        lines_of(piece + "\n"@ + rest) == seq![without_return(piece)] + lines_of(rest),
{
    lemma_split_add(piece, rest);
    lemma_split_last(rest);
    let all = split_newlines(piece + "\n"@ + rest);
    let tail = split_newlines(rest);
    assert(all =~= seq![piece] + tail);
    assert(all.last() == tail.last());
    assert(lines_of(piece + "\n"@ + rest) =~= seq![without_return(piece)] + lines_of(rest));
}

/// A number is written without leading zeros, and two numbers are written
/// differently.
pub proof fn lemma_decimal(m: nat, n: nat)
    ensures
        decimal(n).len() > 0,
        forall|i: int| 0 <= i < decimal(n).len() ==> is_digit(#[trigger] decimal(n)[i]),
        value_of(decimal(n)) == n,
        n > 0 ==> decimal(n)[0] != '0',
        decimal(m) == decimal(n) ==> m == n,
        decimal(10 * m + n % 10) == (if m == 0 {
            decimal(n % 10)
        } else {
            decimal(m) + decimal(n % 10)
        }),
    decreases n,
{
    lemma_decimal_value(m);
    lemma_decimal_value(n);
    if n >= 10 {
        lemma_decimal(m, n / 10);
    }
    let k = 10 * m + n % 10;
    assert(k / 10 == m && k % 10 == n % 10);
    assert(decimal(k) =~= (if m == 0 {
        decimal(n % 10)
    } else {
        decimal(m) + decimal(n % 10)
    }));
}

/// Zeros in front of a number do not count, and neither does one plus sign in
/// front of those; a number is a count if it fits in 64 bits.
pub proof fn lemma_count(zeros: Seq<char>, n: nat)
    requires
        forall|i: int| 0 <= i < zeros.len() ==> #[trigger] zeros[i] == '0',
    ensures
        value_of(zeros + decimal(n)) == n,
        is_count(zeros + decimal(n)) <==> n <= u64::MAX,
        is_count(seq!['+'] + (zeros + decimal(n))) <==> n <= u64::MAX,
{
    let s = zeros + decimal(n);
    lemma_decimal_value(n);
    lemma_zeros(zeros, decimal(n));
    assert forall|i: int| 0 <= i < s.len() implies is_digit(#[trigger] s[i]) by {
        if i < zeros.len() {
            assert(zeros[i] == '0');
        } else {
            assert(is_digit(decimal(n)[i - zeros.len()]));
        }
    }
    assert(is_digit(s[0]));
    assert((seq!['+'] + s).skip(1) =~= s);
}

proof fn lemma_zeros(zeros: Seq<char>, digits: Seq<char>)
    requires
        forall|i: int| 0 <= i < zeros.len() ==> #[trigger] zeros[i] == '0',
    ensures
        value_of(zeros + digits) == value_of(digits),
    decreases zeros.len() + digits.len(),
{
    let s = zeros + digits;
    if digits.len() > 0 {
        lemma_zeros(zeros, digits.drop_last());
        assert(s.drop_last() =~= zeros + digits.drop_last());
    } else if zeros.len() > 0 {
        assert(zeros[zeros.len() - 1] == '0');
        lemma_zeros(zeros.drop_last(), digits);
        assert(s.drop_last() =~= zeros.drop_last() + digits);
    }
}

/// A count is digits, with a plus sign in front of them at most.
pub proof fn lemma_count_form(s: Seq<char>)
    requires
        is_count(s),
    ensures
        s.len() > 0,
        s[0] == '+' ==> s.len() > 1,
        s[0] == '+' || is_digit(s[0]),
        forall|i: int| 1 <= i < s.len() ==> is_digit(#[trigger] s[i]),
{
    if s.len() > 0 && s[0] == '+' {
        let rest = s.skip(1);
        assert forall|i: int| 1 <= i < s.len() implies is_digit(#[trigger] s[i]) by {
            assert(rest[i - 1] == s[i]);
        }
    }
}

/// The count can be read back from a marker.
pub proof fn lemma_markers(n: nat)
    ensures
        repeat_marker(n) == "(... repeated "@ + decimal(n) + " more times ...)"@,
        omission_marker(n) == "(... "@ + decimal(n) + " frames omitted ...)"@,
{
}

/// A text that fits is unchanged; of another one the start is kept, followed by
/// three dots, and it fits where three dots do.
pub proof fn lemma_truncated(s: Seq<char>, max: nat)
    ensures
        s.len() <= max ==> truncated(s, max) == s,
        s.len() > max && max < 3 ==> truncated(s, max) == "..."@,
        s.len() > max && max >= 3 ==> {
            &&& truncated(s, max).len() == max
            &&& forall|i: int| 0 <= i < max - 3 ==> truncated(s, max)[i] == s[i]
            &&& forall|i: int| max - 3 <= i < max ==> truncated(s, max)[i] == '.'
        },
{
    reveal_strlit("...");
}

/// The lines that are kept, told by their indices: in order, all those that are
/// neither dropped nor blank, and no others.
pub proof fn lemma_kept_indices(lines: Seq<Seq<char>>, dropped: Seq<bool>) -> (idx: Seq<int>)
    requires
        lines.len() == dropped.len(),
    ensures
        idx.len() == kept_lines(lines, dropped).len(),
        forall|j: int|
            0 <= j < idx.len() ==> {
                &&& 0 <= #[trigger] idx[j] < lines.len()
                &&& !dropped[idx[j]]
                &&& !blank(lines[idx[j]])
                &&& kept_lines(lines, dropped)[j] == lines[idx[j]]
            },
        forall|j: int, k: int| 0 <= j < k < idx.len() ==> #[trigger] idx[j] < #[trigger] idx[k],
        forall|i: int|
            0 <= i < lines.len() && !dropped[i] && !blank(#[trigger] lines[i]) ==> idx.contains(i),
    decreases lines.len(),
{
    if lines.len() == 0 {
        Seq::empty()
    } else {
        let n = lines.len() - 1;
        let front = lines.drop_last();
        let flags = dropped.drop_last();
        let before = lemma_kept_indices(front, flags);
        let kept = kept_lines(lines, dropped);
        let idx = if dropped[n] || blank(lines[n]) {
            before
        } else {
            before.push(n)
        };
        assert forall|j: int| 0 <= j < idx.len() implies {
            &&& 0 <= #[trigger] idx[j] < lines.len()
            &&& !dropped[idx[j]]
            &&& !blank(lines[idx[j]])
            &&& kept[j] == lines[idx[j]]
        } by {
            if j < before.len() {
                assert(idx[j] == before[j]);
                assert(front[before[j]] == lines[before[j]]);
                assert(flags[before[j]] == dropped[before[j]]);
            }
        }
        assert forall|i: int|
            0 <= i < lines.len() && !dropped[i] && !blank(#[trigger] lines[i]) implies idx.contains(
            i,
        ) by {
            if i < n {
                assert(front[i] == lines[i]);
                let j = choose|j: int| 0 <= j < before.len() && before[j] == i;
                assert(idx[j] == i);
            } else {
                assert(idx[idx.len() - 1] == n);
            }
        }
        idx
    }
}

/// A report is its lines, cut to the width, one below the other.
pub proof fn lemma_rendered(lines: Seq<Seq<char>>, width: nat, when_empty: Seq<char>)
    requires
        width >= 3,
        forall|i: int| 0 <= i < lines.len() ==> !(#[trigger] lines[i]).contains('\n'),
    ensures
        lines.len() == 0 ==> rendered(lines, width, when_empty) == when_empty,
        lines.len() > 0 ==> {
            let rows = split_newlines(rendered(lines, width, when_empty));
            &&& rows.len() == lines.len()
            &&& forall|i: int|
                0 <= i < lines.len() ==> #[trigger] rows[i] == truncated(lines[i], width)
        },
{
    if lines.len() > 0 {
        let cut = lines.map_values(|line: Seq<char>| truncated(line, width));
        assert forall|i: int| 0 <= i < cut.len() implies !(#[trigger] cut[i]).contains('\n') by {
            lemma_truncated(lines[i], width);
            if cut[i].contains('\n') {
                let k = choose|k: int| 0 <= k < cut[i].len() && cut[i][k] == '\n';
                assert(!lines[i].contains('\n'));
                if lines[i].len() <= width || k < width - 3 {
                    assert(lines[i][k] == '\n');
                }
            }
        }
        lemma_split_joined(cut);
    }
}

} // verus!
