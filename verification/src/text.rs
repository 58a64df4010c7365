//! Characters and strings: trimming, searching and slicing, by character.
use vstd::prelude::*;
use vstd::string::*;

verus! {

/// Whether `c` has the Unicode property `White_Space`.
pub open spec fn is_white(c: char) -> bool {
    let n = c as u32;
    ||| 0x09 <= n <= 0x0d
    ||| n == 0x20
    ||| n == 0x85
    ||| n == 0xa0
    ||| n == 0x1680
    ||| 0x2000 <= n <= 0x200a
    ||| n == 0x2028
    ||| n == 0x2029
    ||| n == 0x202f
    ||| n == 0x205f
    ||| n == 0x3000
}

/// `s` without its leading whitespace.
pub open spec fn trimmed_start(s: Seq<char>) -> Seq<char>
    decreases s.len(),
{
    if s.len() > 0 && is_white(s[0]) {
        trimmed_start(s.skip(1))
    } else {
        s
    }
}

/// `s` without its trailing whitespace.
pub open spec fn trimmed_end(s: Seq<char>) -> Seq<char>
    decreases s.len(),
{
    if s.len() > 0 && is_white(s.last()) {
        trimmed_end(s.drop_last())
    } else {
        s
    }
}

/// `s` without the whitespace at either end.
pub open spec fn trimmed(s: Seq<char>) -> Seq<char> {
    trimmed_start(trimmed_end(s))
}

/// Whether `s` holds nothing but whitespace.
pub open spec fn blank(s: Seq<char>) -> bool {
    forall|i: int| 0 <= i < s.len() ==> is_white(#[trigger] s[i])
}

/// Whether `s` begins with `prefix`.
pub open spec fn starts_with(s: Seq<char>, prefix: Seq<char>) -> bool {
    prefix.len() <= s.len() && s.take(prefix.len() as int) == prefix
}

/// Whether `needle` occurs in `s` at the offset `at`.
pub open spec fn occurs_at(s: Seq<char>, needle: Seq<char>, at: int) -> bool {
    0 <= at <= s.len() - needle.len() && s.subrange(at, at + needle.len()) == needle
}

/// Whether `needle` occurs anywhere in `s`.
pub open spec fn contains(s: Seq<char>, needle: Seq<char>) -> bool {
    exists|at: int| #[trigger] occurs_at(s, needle, at)
}

/// How many characters `s` has before the first whitespace.
pub open spec fn word_length(s: Seq<char>) -> nat
    decreases s.len(),
{
    if s.len() > 0 && !is_white(s[0]) {
        1 + word_length(s.skip(1))
    } else {
        0
    }
}

/// The parts of `s` between the whitespace.
pub open spec fn words_of(s: Seq<char>) -> Seq<Seq<char>>
    decreases s.len(),
{
    let rest = trimmed_start(s);
    if rest.len() == 0 {
        Seq::empty()
    } else {
        proof {
            lemma_first_word(s);
        }
        seq![rest.take(word_length(rest) as int)] + words_of(rest.skip(word_length(rest) as int))
    }
}

/// The texts of a sequence of strings.
pub open spec fn texts(v: Seq<String>) -> Seq<Seq<char>> {
    Seq::new(v.len(), |i: int| v[i]@)
}

/// The texts of a sequence of string slices.
pub open spec fn strs(v: Seq<&str>) -> Seq<Seq<char>> {
    Seq::new(v.len(), |i: int| v[i]@)
}

/// Without its leading whitespace a text is no longer than before, and what is
/// left starts with a word.
pub proof fn lemma_first_word(s: Seq<char>)
    ensures
        trimmed_start(s).len() <= s.len(),
        trimmed_start(s) == s.skip(s.len() - trimmed_start(s).len()),
        word_length(trimmed_start(s)) <= trimmed_start(s).len(),
        trimmed_start(s).len() > 0 ==> !is_white(trimmed_start(s)[0]) && word_length(
            trimmed_start(s),
        ) > 0,
    decreases s.len(),
{
    lemma_word_length(trimmed_start(s));
    if s.len() > 0 && is_white(s[0]) {
        lemma_first_word(s.skip(1));
        assert(s.skip(1).skip(s.len() - 1 - trimmed_start(s).len()) =~= s.skip(
            s.len() - trimmed_start(s).len(),
        ));
    } else {
        assert(s.skip(0) =~= s);
    }
}

/// A text that was trimmed has nothing more to trim, and the same words.
pub proof fn lemma_trim_start_again(s: Seq<char>)
    ensures
        trimmed_start(trimmed_start(s)) == trimmed_start(s),
        words_of(trimmed_start(s)) == words_of(s),
    decreases s.len(),
{
    if s.len() > 0 && is_white(s[0]) {
        lemma_trim_start_again(s.skip(1));
    }
}

/// A word lies within the text.
pub proof fn lemma_word_length(s: Seq<char>)
    ensures
        word_length(s) <= s.len(),
    decreases s.len(),
{
    if s.len() > 0 && !is_white(s[0]) {
        lemma_word_length(s.skip(1));
    }
}

/// The trailing whitespace of a text does not depend on its first character,
/// unless nothing else is left.
proof fn lemma_trim_end_skip(s: Seq<char>)
    requires
        s.len() > 0,
    ensures
        trimmed_end(s).len() > 0 ==> trimmed_end(s)[0] == s[0] && trimmed_end(s).skip(1)
            == trimmed_end(s.skip(1)),
        trimmed_end(s).len() == 0 ==> trimmed_end(s.skip(1)).len() == 0,
    decreases s.len(),
{
    if is_white(s.last()) {
        if s.len() > 1 {
            lemma_trim_end_skip(s.drop_last());
            assert(s.skip(1).drop_last() =~= s.drop_last().skip(1));
        }
    } else if s.len() == 1 {
        assert(s.skip(1) =~= Seq::empty());
    }
}

/// It does not matter at which end a text is trimmed first.
pub proof fn lemma_trim_commutes(s: Seq<char>)
    ensures
        trimmed(s) == trimmed_end(trimmed_start(s)),
    decreases s.len(),
{
    if s.len() > 0 {
        lemma_trim_end_skip(s);
        if is_white(s[0]) {
            lemma_trim_commutes(s.skip(1));
            assert(trimmed_end(s).len() == 0 ==> trimmed_end(s) =~= trimmed_end(s.skip(1)));
        }
    }
}

/// A text that was trimmed at its end has nothing more to trim there.
pub proof fn lemma_trim_end_again(s: Seq<char>)
    ensures
        trimmed_end(trimmed_end(s)) == trimmed_end(s),
    decreases s.len(),
{
    if s.len() > 0 && is_white(s.last()) {
        lemma_trim_end_again(s.drop_last());
    }
}

/// A blank text, and no other, is empty when it is trimmed.
pub proof fn lemma_trimmed_blank(s: Seq<char>)
    ensures
        blank(s) <==> trimmed(s).len() == 0,
        blank(s) <==> trimmed_start(s).len() == 0,
{
    lemma_blank_start(s);
    lemma_trim_commutes(s);
    lemma_first_word(s);
    let rest = trimmed_start(s);
    if rest.len() > 0 {
        lemma_trim_end_front(rest);
    }
}

proof fn lemma_blank_start(s: Seq<char>)
    ensures
        blank(s) <==> trimmed_start(s).len() == 0,
    decreases s.len(),
{
    if s.len() > 0 && is_white(s[0]) {
        lemma_blank_start(s.skip(1));
        assert forall|i: int| blank(s.skip(1)) && 0 <= i < s.len() implies is_white(
            #[trigger] s[i],
        ) by {
            if i > 0 {
                assert(s.skip(1)[i - 1] == s[i]);
            }
        }
        assert(blank(s) ==> blank(s.skip(1)));
    }
}

proof fn lemma_trim_end_front(s: Seq<char>)
    requires
        s.len() > 0,
        !is_white(s[0]),
    ensures
        trimmed_end(s).len() > 0,
    decreases s.len(),
{
    if is_white(s.last()) {
        lemma_trim_end_front(s.drop_last());
    }
}

/// What is left of a text with one more character.
pub proof fn lemma_trim_start_push(s: Seq<char>, c: char)
    ensures
        trimmed_start(s.push(c)) == (if trimmed_start(s).len() == 0 && is_white(c) {
            Seq::empty()
        } else {
            trimmed_start(s).push(c)
        }),
    decreases s.len(),
{
    if s.len() > 0 && is_white(s[0]) {
        lemma_trim_start_push(s.skip(1), c);
        assert(s.push(c).skip(1) =~= s.skip(1).push(c));
    } else if s.len() == 0 {
        assert(s.push(c).skip(1) =~= s);
    }
}

/// `String::push` appends one character.
pub assume_specification[ String::push ](s: &mut String, ch: char)
    ensures
        final(s)@ == old(s)@.push(ch),
;

/// Whether `c` is a whitespace character.
pub fn is_whitespace(c: char) -> (r: bool)
    ensures
        r == is_white(c),
{
    let n: u32 = c as u32;
    (0x09 <= n && n <= 0x0d) || n == 0x20 || n == 0x85 || n == 0xa0 || n == 0x1680 || (0x2000 <= n
        && n <= 0x200a) || n == 0x2028 || n == 0x2029 || n == 0x202f || n == 0x205f || n == 0x3000
}

/// The characters of `s`, in order.
pub fn to_chars(s: &str) -> (r: Vec<char>)
    ensures
        r@ == s@,
{
    let mut v: Vec<char> = Vec::new();
    for c in it: s.chars()
        invariant
            v@ == s@.take(it.index()),
            it.seq() == s@,
    {
        v.push(c);
    }
    v
}

/// Whether two strings are equal.
pub fn same(a: &str, b: &str) -> (r: bool)
    ensures
        r == (a@ == b@),
{
    a.to_owned() == b.to_owned()
}

/// `s` without its leading whitespace.
pub fn trim_start(s: &str) -> (r: &str)
    ensures
        r@ == trimmed_start(s@),
{
    let chars = to_chars(s);
    let n: usize = chars.len();
    let mut i: usize = 0;
    assert(s@.skip(0) =~= s@);
    while i < n && is_whitespace(chars[i])
        invariant
            i <= n,
            n == chars@.len(),
            chars@ == s@,
            trimmed_start(s@) == trimmed_start(s@.skip(i as int)),
        decreases n - i,
    {
        assert(s@.skip(i as int).skip(1) =~= s@.skip(i + 1));
        i = i + 1;
    }
    assert(s@.skip(i as int) =~= s@.subrange(i as int, n as int));
    s.substring_char(i, n)
}

/// `s` without its trailing whitespace.
pub fn trim_end(s: &str) -> (r: &str)
    ensures
        r@ == trimmed_end(s@),
{
    let chars = to_chars(s);
    let mut n: usize = chars.len();
    assert(s@.take(n as int) =~= s@);
    while n > 0 && is_whitespace(chars[n - 1])
        invariant
            n <= chars@.len(),
            chars@ == s@,
            trimmed_end(s@) == trimmed_end(s@.take(n as int)),
        decreases n,
    {
        assert(s@.take(n as int).drop_last() =~= s@.take(n - 1));
        n = n - 1;
    }
    assert(s@.take(n as int) =~= s@.subrange(0, n as int));
    s.substring_char(0, n)
}

/// `s` without the whitespace at either end.
pub fn trim(s: &str) -> (r: &str)
    ensures
        r@ == trimmed(s@),
{
    trim_start(trim_end(s))
}

/// Whether `s` holds nothing but whitespace.
pub fn is_blank(s: &str) -> (r: bool)
    ensures
        r == blank(s@),
{
    let chars = to_chars(s);
    let n: usize = chars.len();
    for i in 0..n
        invariant
            n == chars@.len(),
            chars@ == s@,
            forall|k: int| 0 <= k < i ==> is_white(#[trigger] s@[k]),
    {
        if !is_whitespace(chars[i]) {
            return false;
        }
    }
    true
}

/// `s` cut behind its first `n` characters.
pub fn cut(s: &str, n: usize) -> (r: (&str, &str))
    requires
        n <= s@.len(),
    ensures
        r.0@ == s@.take(n as int),
        r.1@ == s@.skip(n as int),
{
    let total: usize = s.unicode_len();
    assert(s@.subrange(0, n as int) =~= s@.take(n as int));
    assert(s@.subrange(n as int, total as int) =~= s@.skip(n as int));
    (s.substring_char(0, n), s.substring_char(n, total))
}

/// How many characters `s` has before the first whitespace.
pub fn first_word_end(s: &str) -> (r: usize)
    ensures
        r == word_length(s@),
{
    let chars = to_chars(s);
    let n: usize = chars.len();
    let mut i: usize = 0;
    assert(s@.skip(0) =~= s@);
    while i < n && !is_whitespace(chars[i])
        invariant
            i <= n,
            n == chars@.len(),
            chars@ == s@,
            word_length(s@) == i + word_length(s@.skip(i as int)),
        decreases n - i,
    {
        assert(s@.skip(i as int).skip(1) =~= s@.skip(i + 1));
        i = i + 1;
    }
    i
}

/// The parts of `s` between the whitespace.
pub fn words(s: &str) -> (r: Vec<&str>)
    ensures
        strs(r@) == words_of(s@),
{
    let mut out: Vec<&str> = Vec::new();
    let mut rest = trim_start(s);
    let mut left: usize = rest.unicode_len();
    proof {
        lemma_first_word(s@);
        lemma_trim_start_again(s@);
        assert(strs(out@) + words_of(rest@) =~= words_of(s@));
    }
    while left > 0
        invariant
            left == rest@.len(),
            trimmed_start(rest@) == rest@,
            strs(out@) + words_of(rest@) == words_of(s@),
        decreases left,
    {
        let n: usize = first_word_end(rest);
        proof {
            lemma_first_word(rest@);
            lemma_first_word(rest@.skip(n as int));
            lemma_trim_start_again(rest@.skip(n as int));
        }
        let (word, tail) = cut(rest, n);
        let ghost before = strs(out@);
        out.push(word);
        assert(strs(out@) =~= before.push(word@));
        rest = trim_start(tail);
        left = rest.unicode_len();
        assert(before.push(word@) + words_of(rest@) =~= before + (seq![word@] + words_of(tail@)));
    }
    assert(strs(out@) + words_of(rest@) =~= strs(out@));
    out
}

/// Whether `needle` stands in `hay` at the offset `at`.
fn found_at(hay: &[char], needle: &[char], at: usize) -> (r: bool)
    requires
        at + needle@.len() <= hay@.len(),
    ensures
        r == occurs_at(hay@, needle@, at as int),
{
    let n: usize = needle.len();
    let total: usize = hay.len();
    for i in 0..n
        invariant
            n == needle@.len(),
            at + n <= total,
            total == hay@.len(),
            forall|k: int| 0 <= k < i ==> hay@[at + k] == #[trigger] needle@[k],
    {
        if hay[at + i] != needle[i] {
            assert(hay@.subrange(at as int, at + n)[i as int] != needle@[i as int]);
            return false;
        }
    }
    assert(hay@.subrange(at as int, at + n) =~= needle@);
    true
}

/// Whether `s` begins with `prefix`.
pub fn has_prefix(s: &str, prefix: &str) -> (r: bool)
    ensures
        r == starts_with(s@, prefix@),
{
    let hay = to_chars(s);
    let needle = to_chars(prefix);
    if hay.len() < needle.len() {
        return false;
    }
    assert(s@.subrange(0, prefix@.len() as int) =~= s@.take(prefix@.len() as int));
    found_at(hay.as_slice(), needle.as_slice(), 0)
}

/// Whether `needle` occurs anywhere in `s`.
pub fn has_substring(s: &str, needle: &str) -> (r: bool)
    ensures
        r == contains(s@, needle@),
{
    let hay = to_chars(s);
    let part = to_chars(needle);
    if hay.len() < part.len() {
        return false;
    }
    let last: usize = hay.len() - part.len();
    let mut at: usize = 0;
    while at < last
        invariant
            hay@ == s@,
            part@ == needle@,
            at <= last,
            last == hay@.len() - part@.len(),
            forall|k: int| 0 <= k < at ==> !occurs_at(s@, needle@, k),
        decreases last - at,
    {
        if found_at(hay.as_slice(), part.as_slice(), at) {
            return true;
        }
        at = at + 1;
    }
    found_at(hay.as_slice(), part.as_slice(), last)
}

} // verus!
