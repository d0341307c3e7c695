//! Reading numbers from text.
use vstd::prelude::*;
use crate::text::chars_of;
#[allow(unused_imports)]
use crate::text::{dec, dec_int};

verus! {

/// The character is a decimal digit.
pub open spec fn is_digit(c: char) -> bool {
    '0' <= c && c <= '9'
}

/// The number that a digit stands for.
pub open spec fn digit_value(c: char) -> int {
    c as int - '0' as int
}

/// The text is a row of digits.
pub open spec fn all_digits(s: Seq<char>) -> bool {
    s.len() > 0 && forall|i: int| 0 <= i < s.len() ==> is_digit(#[trigger] s[i])
}

/// The number that a row of digits stands for.
pub open spec fn digits_value(s: Seq<char>) -> int
    decreases s.len(),
{
    if s.len() == 0 {
        0
    } else {
        10 * digits_value(s.drop_last()) + digit_value(s.last())
    }
}

/// The text behind its first character where that is `sign`.
pub open spec fn behind(s: Seq<char>, sign: char) -> Option<Seq<char>> {
    if s.len() > 0 && s[0] == sign { Some(s.skip(1)) } else { None }
}

/// The number that a text stands for: digits, with or without a `+`.
pub open spec fn unsigned_value(s: Seq<char>) -> Option<int> {
    let d = match behind(s, '+') {
        Some(d) => d,
        None => s,
    };
    if all_digits(d) { Some(digits_value(d)) } else { None }
}

/// The number that a text stands for: digits, with or without a sign.
pub open spec fn signed_value(s: Seq<char>) -> Option<int> {
    match behind(s, '-') {
        Some(d) => if all_digits(d) { Some(-digits_value(d)) } else { None },
        None => unsigned_value(s),
    }
}

/// `v`, where it is not above `max`.
pub open spec fn at_most(v: Option<int>, max: int) -> Option<int> {
    match v {
        Some(n) => if n <= max { Some(n) } else { None },
        None => None,
    }
}

proof fn lemma_prefix_value(s: Seq<char>, n: int)
    requires
        all_digits(s),
        0 <= n <= s.len(),
    ensures
        0 <= digits_value(s.take(n)) <= digits_value(s),
    decreases s.len() - n,
{
    lemma_value_nonnegative(s.take(n));
    if n == s.len() {
        assert(s.take(n) =~= s);
    } else {
        lemma_prefix_value(s, n + 1);
        assert(s.take(n + 1).drop_last() =~= s.take(n));
        assert(is_digit(s[n]));
    }
}

proof fn lemma_value_nonnegative(s: Seq<char>)
    requires
        forall|i: int| 0 <= i < s.len() ==> is_digit(#[trigger] s[i]),
    ensures
        0 <= digits_value(s),
    decreases s.len(),
{
    if s.len() > 0 {
        lemma_value_nonnegative(s.drop_last());
        assert(is_digit(s[s.len() - 1]));
    }
}

/// The value of the digits from `from` on, where they are digits and not above `max`.
fn read_digits(chars: &Vec<char>, from: usize, max: u64) -> (r: Option<u64>)
    requires
        from <= chars@.len(),
    ensures
        match r {
            Some(n) => all_digits(chars@.skip(from as int)) && n == digits_value(chars@.skip(from as int)) && n <= max,
            None => !all_digits(chars@.skip(from as int)) || digits_value(chars@.skip(from as int)) > max,
        },
{
    let ghost s = chars@.skip(from as int);
    if from == chars.len() {
        return None;
    }
    let mut i: usize = from;
    let mut acc: u128 = 0;
    while i < chars.len()
        invariant
            from <= i <= chars@.len(),
            s == chars@.skip(from as int),
            forall|j: int| 0 <= j < i - from ==> is_digit(#[trigger] s[j]),
            acc == digits_value(s.take(i - from)),
            acc <= max,
        decreases chars.len() - i,
    {
        let c = chars[i];
        assert(s[i - from] == c);
        if c < '0' || c > '9' {
            return None;
        }
        assert(s.take(i + 1 - from).drop_last() =~= s.take(i - from));
        acc = 10 * acc + (c as u32 - '0' as u32) as u128;
        if acc > max as u128 {
            proof {
                if all_digits(s) {
                    lemma_prefix_value(s, i + 1 - from);
                }
            }
            return None;
        }
        i += 1;
    }
    assert(s.take(i - from) =~= s);
    Some(acc as u64)
}

/// `str::parse::<u64>`: the number that a text stands for, where it fits.
pub fn parse_u64(text: &str) -> (r: Option<u64>)
    ensures
        match r {
            Some(n) => unsigned_value(text@) == Some(n as int),
            None => at_most(unsigned_value(text@), u64::MAX as int) is None,
        },
{
    let chars = chars_of(text);
    if chars.len() > 0 && chars[0] == '+' {
        read_digits(&chars, 1, u64::MAX)
    } else {
        assert(chars@.skip(0) =~= chars@);
        read_digits(&chars, 0, u64::MAX)
    }
}

/// `str::parse::<i64>`: the number that a text stands for, where it fits.
pub fn parse_i64(text: &str) -> (r: Option<i64>)
    ensures
        match r {
            Some(n) => signed_value(text@) == Some(n as int),
            None => match signed_value(text@) {
                Some(n) => n < i64::MIN || n > i64::MAX,
                None => true,
            },
        },
{
    let chars = chars_of(text);
    if chars.len() > 0 && chars[0] == '-' {
        match read_digits(&chars, 1, 0x8000_0000_0000_0000) {
            Some(n) => if n == 0x8000_0000_0000_0000 {
                Some(i64::MIN)
            } else {
                Some(-(n as i64))
            },
            None => None,
        }
    } else if chars.len() > 0 && chars[0] == '+' {
        match read_digits(&chars, 1, 0x7fff_ffff_ffff_ffff) {
            Some(n) => Some(n as i64),
            None => None,
        }
    } else {
        assert(chars@.skip(0) =~= chars@);
        match read_digits(&chars, 0, 0x7fff_ffff_ffff_ffff) {
            Some(n) => Some(n as i64),
            None => None,
        }
    }
}

/// `str::parse::<usize>`: the number that a text stands for, where it fits.
pub fn parse_usize(text: &str) -> (r: Option<usize>)
    ensures
        match r {
            Some(n) => unsigned_value(text@) == Some(n as int),
            None => at_most(unsigned_value(text@), usize::MAX as int) is None,
        },
{
    match parse_u64(text) {
        Some(n) => if n <= usize::MAX as u64 {
            Some(n as usize)
        } else {
            None
        },
        None => None,
    }
}

/// `str::parse::<u32>`: the number that a text stands for, where it fits.
pub fn parse_u32(text: &str) -> (r: Option<u32>)
    ensures
        match r {
            Some(n) => unsigned_value(text@) == Some(n as int),
            None => at_most(unsigned_value(text@), u32::MAX as int) is None,
        },
{
    match parse_u64(text) {
        Some(n) => if n <= u32::MAX as u64 {
            Some(n as u32)
        } else {
            None
        },
        None => None,
    }
}

/// A number in decimal is a row of digits that stands for it.
pub proof fn lemma_digits(n: nat)
    ensures
        all_digits(dec(n)),
        digits_value(dec(n)) == n,
    decreases n,
{
    let s = dec(n);
    if n < 10 {
        assert(s.drop_last() =~= Seq::<char>::empty());
        assert(digits_value(s.drop_last()) == 0);
    } else {
        let d = dec(n / 10);
        lemma_digits(n / 10);
        assert(s.drop_last() =~= d);
        assert forall|i: int| 0 <= i < s.len() implies is_digit(#[trigger] s[i]) by {
            if i < d.len() {
                assert(s[i] == d[i]);
            }
        }
    }
}

/// A number that was written in decimal is read back.
pub proof fn lemma_number_read_back(n: int)
    ensures
        n >= 0 ==> unsigned_value(dec(n as nat)) == Some(n),
        signed_value(dec_int(n)) == Some(n),
        n < 0 ==> unsigned_value(dec_int(n)) is None,
{
    if n >= 0 {
        lemma_digits(n as nat);
        assert(is_digit(dec(n as nat)[0]));
    } else {
        let d = dec((-n) as nat);
        lemma_digits((-n) as nat);
        assert(dec_int(n)[0] == '-');
        assert(dec_int(n).skip(1) =~= d);
        assert(!is_digit(dec_int(n)[0]));
    }
}

} // verus!
