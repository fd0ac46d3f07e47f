//! Numbers written in decimal.
use vstd::prelude::*;

use crate::text::chars_of;

verus! {

pub open spec fn is_digit(c: char) -> bool {
    '0' <= c <= '9'
}

pub open spec fn all_digits(s: Seq<char>) -> bool {
    forall|i: int| 0 <= i < s.len() ==> is_digit(#[trigger] s[i])
}

/// The number that digits stand for.
pub open spec fn digits_value(s: Seq<char>) -> nat
    decreases s.len(),
{
    if s.len() == 0 {
        0
    } else {
        (digits_value(s.drop_last()) * 10 + (s.last() as nat - '0' as nat)) as nat
    }
}

/// The number that a text stands for: digits, perhaps behind a sign.
pub open spec fn integer_value(s: Seq<char>) -> Option<int> {
    let signed = s.len() > 0 && (s[0] == '+' || s[0] == '-');
    let digits = if signed {
        s.skip(1)
    } else {
        s
    };
    if digits.len() == 0 || !all_digits(digits) {
        None
    } else if signed && s[0] == '-' {
        Some(-(digits_value(digits) as int))
    } else {
        Some(digits_value(digits) as int)
    }
}

/// The integer of 64 bits that a text stands for.
pub open spec fn i64_value(s: Seq<char>) -> Option<int> {
    match integer_value(s) {
        Some(n) if i64::MIN <= n <= i64::MAX => Some(n),
        _ => None,
    }
}

/// The integer of 64 bits without a sign that a text stands for.
pub open spec fn u64_value(s: Seq<char>) -> Option<int> {
    match integer_value(s) {
        Some(n) if s[0] != '-' && n <= u64::MAX => Some(n),
        _ => None,
    }
}

/// What some characters stand for.
pub enum Digits {
    /// Something else than digits.
    Other,
    /// A number beyond what fits.
    Large,
    Value(u64),
}

/// Reads digits.
pub fn read_digits(chars: &Vec<char>, from: usize, to: usize) -> (r: Digits)
    requires
        from <= to <= chars.len(),
    ensures
        ({
            let s = chars@.subrange(from as int, to as int);
            match r {
                Digits::Other => !all_digits(s),
                Digits::Large => all_digits(s) && digits_value(s) > u64::MAX,
                Digits::Value(n) => all_digits(s) && digits_value(s) == n,
            }
        }),
{
    let ghost s = chars@.subrange(from as int, to as int);
    let mut value: u64 = 0;
    let mut large = false;
    let mut i: usize = from;
    assert(s.take(0).len() == 0);
    while i < to
        invariant
            from <= i <= to <= chars.len(),
            s == chars@.subrange(from as int, to as int),
            all_digits(s.take(i - from)),
            large ==> digits_value(s.take(i - from)) > u64::MAX,
            !large ==> digits_value(s.take(i - from)) == value,
        decreases to - i,
    {
        let c = chars[i];
        let ghost at = i - from;
        assert(s[at] == c);
        if c < '0' || c > '9' {
            assert(!is_digit(s[at]));
            return Digits::Other;
        }
        proof {
            assert(s.take(at + 1).drop_last() =~= s.take(at));
            assert(s.take(at + 1).last() == c);
            assert forall|k: int| 0 <= k < s.take(at + 1).len() implies is_digit(#[trigger] s.take(at + 1)[k]) by {
                if k < at {
                    assert(s.take(at)[k] == s.take(at + 1)[k]);
                }
            }
        }
        let digit: u64 = c as u64 - '0' as u64;
        if !large {
            if value > (u64::MAX - digit) / 10 {
                large = true;
            } else {
                value = value * 10 + digit;
            }
        }
        i += 1;
    }
    assert(s.take(i - from) =~= s);
    if large {
        Digits::Large
    } else {
        Digits::Value(value)
    }
}

/// Reads an integer as far as 64 bits hold it.
pub fn parse_i64(s: &str) -> (r: Option<i64>)
    ensures
        match r {
            Some(n) => i64_value(s@) == Some(n as int),
            None => i64_value(s@) is None,
        },
{
    let chars = chars_of(s);
    let count: usize = chars.len();
    let signed = count > 0 && (chars[0] == '+' || chars[0] == '-');
    let from: usize = if signed { 1 } else { 0 };
    assert(chars@.subrange(0, count as int) =~= s@);
    assert(signed ==> chars@.subrange(1, count as int) =~= s@.skip(1));
    if from == count {
        return None;
    }
    match read_digits(&chars, from, count) {
        Digits::Value(n) => {
            if signed && chars[0] == '-' {
                if n > 0x8000_0000_0000_0000 {
                    None
                } else {
                    let wide: i128 = -(n as i128);
                    Some(wide as i64)
                }
            } else if n > 0x7fff_ffff_ffff_ffff {
                None
            } else {
                Some(n as i64)
            }
        },
        _ => None,
    }
}

/// Reads an integer without a minus sign as far as 64 bits hold it.
pub fn parse_u64(s: &str) -> (r: Option<u64>)
    ensures
        match r {
            Some(n) => u64_value(s@) == Some(n as int),
            None => u64_value(s@) is None,
        },
{
    let chars = chars_of(s);
    let count: usize = chars.len();
    let signed = count > 0 && (chars[0] == '+' || chars[0] == '-');
    let from: usize = if signed { 1 } else { 0 };
    assert(chars@.subrange(0, count as int) =~= s@);
    assert(signed ==> chars@.subrange(1, count as int) =~= s@.skip(1));
    if from == count || chars[0] == '-' {
        return None;
    }
    match read_digits(&chars, from, count) {
        Digits::Value(n) => Some(n),
        _ => None,
    }
}

proof fn lemma_digits_value_push(s: Seq<char>, c: char)
    ensures
        digits_value(s.push(c)) == (digits_value(s) * 10 + (c as nat - '0' as nat)) as nat,
{
    assert(s.push(c).drop_last() =~= s);
}

/// Reading what a number is written as gives the number back.
pub proof fn law_decimal_reads_back(n: nat)
    ensures
        all_digits(crate::text::decimal(n)),
        crate::text::decimal(n).len() > 0,
        digits_value(crate::text::decimal(n)) == n,
    decreases n,
{
    let d = crate::text::decimal(n);
    if n < 10 {
        assert(digits_value(d.drop_last()) == 0);
    } else {
        law_decimal_reads_back(n / 10);
        lemma_digits_value_push(crate::text::decimal(n / 10), crate::text::digit_char(n % 10));
    }
}

} // verus!
