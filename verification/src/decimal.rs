//! Numbers written in base ten.
use crate::text::to_chars;
use vstd::prelude::*;
use vstd::string::*;

verus! {

/// The character for the digit `d`, which is below ten.
pub open spec fn digit(d: nat) -> char {
    (48 + d) as char
}

/// `n` in base ten, without leading zeros.
pub open spec fn decimal(n: nat) -> Seq<char>
    decreases n,
{
    if n < 10 {
        seq![digit(n)]
    } else {
        decimal(n / 10).push(digit(n % 10))
    }
}

/// Whether `c` is one of the ten ASCII digits.
pub open spec fn is_digit(c: char) -> bool {
    '0' <= c <= '9'
}

/// What the digit `c` counts; nothing where it is none.
pub open spec fn digit_value(c: char) -> nat {
    if is_digit(c) {
        (c as nat - 48) as nat
    } else {
        0
    }
}

/// The number that `s` writes in base ten.
pub open spec fn value_of(s: Seq<char>) -> nat
    decreases s.len(),
{
    if s.len() == 0 {
        0
    } else {
        value_of(s.drop_last()) * 10 + digit_value(s.last())
    }
}

/// Whether `s` holds digits only.
pub open spec fn all_digits(s: Seq<char>) -> bool {
    forall|i: int| 0 <= i < s.len() ==> is_digit(#[trigger] s[i])
}

/// `s` without a plus sign in front.
pub open spec fn without_plus(s: Seq<char>) -> Seq<char> {
    if s.len() > 0 && s[0] == '+' {
        s.skip(1)
    } else {
        s
    }
}

/// Whether `s` reads as a number of 64 bits: an optional plus sign, then one
/// or more digits, and no more than `u64` holds.
pub open spec fn is_count(s: Seq<char>) -> bool {
    let digits = without_plus(s);
    &&& digits.len() > 0
    &&& all_digits(digits)
    &&& value_of(digits) <= u64::MAX
}

/// What is written for `n` reads as `n`.
pub proof fn lemma_decimal_value(n: nat)
    ensures
        decimal(n).len() > 0,
        all_digits(decimal(n)),
        value_of(decimal(n)) == n,
    decreases n,
{
    let last = n % 10;
    assert(decimal(n).last() == digit(last));
    assert(digit_value(digit(last)) == last);
    if n < 10 {
        assert(decimal(n).drop_last() =~= Seq::empty());
        assert(value_of(Seq::<char>::empty()) == 0);
    } else {
        lemma_decimal_value(n / 10);
        assert(decimal(n).drop_last() =~= decimal(n / 10));
    }
}

/// A count of up to 64 bits, as it is written, reads as a count.
pub proof fn lemma_decimal_is_count(n: u64)
    ensures
        is_count(decimal(n as nat)),
{
    lemma_decimal_value(n as nat);
    assert(is_digit(decimal(n as nat)[0]));
}

/// More characters never make a smaller number.
proof fn lemma_value_grows(s: Seq<char>, n: int)
    requires
        0 <= n <= s.len(),
    ensures
        value_of(s.take(n)) <= value_of(s),
    decreases s.len(),
{
    if n == s.len() {
        assert(s.take(n) =~= s);
    } else {
        assert(s.drop_last().take(n) =~= s.take(n));
        lemma_value_grows(s.drop_last(), n);
    }
}

/// `n` in base ten, without leading zeros.
pub fn decimal_text(n: usize) -> (r: String)
    ensures
        r@ == decimal(n as nat),
    decreases n,
{
    let mut out = if n < 10 {
        String::new()
    } else {
        decimal_text(n / 10)
    };
    let d: u8 = 48 + (n % 10) as u8;
    out.push(d as char);
    assert(n < 10 ==> out@ =~= seq![digit(n as nat)]);
    out
}

/// Whether `s` holds digits only, and no more than `u64` holds.
fn digits_fit(s: &str) -> (r: bool)
    ensures
        r == (all_digits(s@) && value_of(s@) <= u64::MAX),
{
    let chars = to_chars(s);
    let n: usize = chars.len();
    let mut value: u64 = 0;
    for i in 0..n
        invariant
            n == chars@.len(),
            chars@ == s@,
            value == value_of(s@.take(i as int)),
            forall|k: int| 0 <= k < i ==> is_digit(#[trigger] s@[k]),
    {
        let c = chars[i];
        proof {
            assert(s@.take(i + 1).drop_last() =~= s@.take(i as int));
            lemma_value_grows(s@, i + 1);
        }
        if !('0' <= c && c <= '9') {
            assert(!is_digit(s@[i as int]));
            return false;
        }
        let d: u64 = (c as u32 - 48) as u64;
        if value > (u64::MAX - d) / 10 {
            return false;
        }
        value = value * 10 + d;
    }
    assert(s@.take(n as int) =~= s@);
    true
}

/// Whether `s` reads as a number of 64 bits.
pub fn reads_as_count(s: &str) -> (r: bool)
    ensures
        r == is_count(s@),
{
    let n: usize = s.unicode_len();
    let digits = if n > 0 && s.get_char(0) == '+' {
        assert(s@.subrange(1, n as int) =~= s@.skip(1));
        s.substring_char(1, n)
    } else {
        s
    };
    digits.unicode_len() > 0 && digits_fit(digits)
}

} // verus!
