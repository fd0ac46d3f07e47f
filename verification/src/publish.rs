//! Publishing a place: what Studio's log says of it, what may be uploaded, and what came of it.
use vstd::prelude::*;

use crate::json::{get, put, Json, JsonModel, Member, Number, NumberModel};
use crate::links::opt_text;
use crate::numbers::{all_digits, digits_value, i64_value, is_digit, parse_i64, parse_u64, read_digits, u64_value, Digits};
use crate::order::{ascending, SortedSet};
use crate::paths::{extension_of, last_name, slash_text, split_extension, FilePath, PathParts};
use crate::table::{key_views, Table};
use crate::text::{
    chars_of, contains_part, cut, decimal, find_part, joined, join_texts, joined_by, lemma_texts_push, occurs, occurs_at, pieces,
    same, split_at_char, split_once, text_from, texts, to_decimal, trim, trimmed,
};

verus! {

broadcast use vstd::seq_lib::group_seq_properties;

/// The largest place that can be uploaded.
pub const MAX_PLACE_BYTES: u64 = 104_857_600;

/// How long a publish may take.
pub const PUBLISH_SECONDS: u64 = 120;

/// How much of the end of a log is read.
pub const LOG_LINES: usize = 4000;

/// `a / b`, rounded toward zero.
pub open spec fn toward_zero(a: int, b: int) -> int {
    if a >= 0 {
        a / b
    } else {
        -((-a) / b)
    }
}

/// What is left of `a` after a division by `b` that rounds toward zero.
pub open spec fn leftover(a: int, b: int) -> int {
    a - b * toward_zero(a, b)
}

/// Days from the first of January 1970 to a date, with years that begin in March.
pub open spec fn days_to(year: int, month: int, day: int) -> int {
    let shifted = if month <= 2 {
        year - 1
    } else {
        year
    };
    let era = shifted / 400;
    let year_of_era = shifted - era * 400;
    let month_index = leftover(month + 9, 12);
    let day_of_year = toward_zero(153 * month_index + 2, 5) + day - 1;
    let day_of_era = year_of_era * 365 + year_of_era / 4 - year_of_era / 100 + day_of_year;
    era * 146_097 + day_of_era - 719_468
}

fn divided(a: i128, b: i128) -> (r: i128)
    requires
        b > 0,
        a > i128::MIN,
    ensures
        r == toward_zero(a as int, b as int),
        a >= 0 ==> 0 <= r <= a,
        a < 0 ==> a <= r <= 0,
{
    if a >= 0 {
        let q = (a as u128) / (b as u128);
        proof {
            vstd::arithmetic::div_mod::lemma_div_is_ordered_by_denominator(a as int, 1, b as int);
            vstd::arithmetic::div_mod::lemma_div_pos_is_pos(a as int, b as int);
        }
        q as i128
    } else {
        let q = ((-a) as u128) / (b as u128);
        proof {
            vstd::arithmetic::div_mod::lemma_div_is_ordered_by_denominator(-(a as int), 1, b as int);
            vstd::arithmetic::div_mod::lemma_div_pos_is_pos(-(a as int), b as int);
        }
        -(q as i128)
    }
}

/// Counts the days from the first of January 1970 to a date.
pub fn days_from_civil(year: i64, month: i64, day: i64) -> (r: i128)
    ensures
        r == days_to(year as int, month as int, day as int),
        -0x200_0000_0000_0000_0000 < r < 0x200_0000_0000_0000_0000,
{
    let shifted: i128 = if month <= 2 {
        year as i128 - 1
    } else {
        year as i128
    };
    let era: i128 = if shifted >= 0 {
        divided(shifted, 400)
    } else {
        divided(shifted - 399, 400)
    };
    assert(era == (shifted as int) / 400);
    let year_of_era: i128 = shifted - era * 400;
    assert(0 <= year_of_era < 400);
    let ahead: i128 = month as i128 + 9;
    let turns = divided(ahead, 12);
    let month_index: i128 = ahead - 12 * turns;
    assert(-12 < month_index < 12);
    let day_of_year: i128 = divided(153 * month_index + 2, 5) + day as i128 - 1;
    let day_of_era: i128 = year_of_era * 365 + divided(year_of_era, 4) - divided(year_of_era, 100) + day_of_year;
    era * 146_097 + day_of_era - 719_468
}

/// A date: its year, month and day.
pub struct CivilDate {
    pub year: i128,
    pub month: i128,
    pub day: i128,
}

#[verifier::ext_equal]
pub struct DateModel {
    pub year: int,
    pub month: int,
    pub day: int,
}

/// The date some days after the first of January 1970.
pub open spec fn date_after(days: int) -> DateModel {
    let shifted = days + 719_468;
    let era = shifted / 146_097;
    let day_of_era = shifted - era * 146_097;
    let year_of_era = (day_of_era - day_of_era / 1460 + day_of_era / 36_524 - day_of_era / 146_096) / 365;
    let year = year_of_era + era * 400;
    let day_of_year = day_of_era - (365 * year_of_era + year_of_era / 4 - year_of_era / 100);
    let month_index = (5 * day_of_year + 2) / 153;
    let day = day_of_year - (153 * month_index + 2) / 5 + 1;
    let month = if month_index < 10 {
        month_index + 3
    } else {
        month_index - 9
    };
    DateModel {
        year: if month <= 2 {
            year + 1
        } else {
            year
        },
        month,
        day,
    }
}

pub open spec fn is_leap_year(year: int) -> bool {
    year % 4 == 0 && (year % 100 != 0 || year % 400 == 0)
}

/// How many days a month has.
pub open spec fn month_length(year: int, month: int) -> int {
    if month == 2 {
        if is_leap_year(year) {
            29
        } else {
            28
        }
    } else if month == 4 || month == 6 || month == 9 || month == 11 {
        30
    } else {
        31
    }
}

/// A year of four hundred that ends on the day numbered 365 is followed by one that is divisible as a leap
/// year is.
proof fn lemma_last_day(doe: int, yoe: int)
    requires
        0 <= doe <= 146_096,
        yoe == (doe - doe / 1460 + doe / 36_524 - doe / 146_096) / 365,
        doe - (365 * yoe + yoe / 4 - yoe / 100) == 365,
    ensures
        (yoe + 1) % 4 == 0,
        (yoe + 1) % 100 != 0 || yoe + 1 == 400,
{
    let century = doe / 36_524;
    assert(0 <= century <= 4);
    assert(0 <= yoe <= 399);
    let rest = doe - 36_524 * century;
    assert(0 <= rest < 36_524);
}

proof fn lemma_same_leap(x: int, era: int)
    ensures
        (x + era * 400) % 4 == x % 4,
        (x + era * 400) % 100 == x % 100,
        (x + era * 400) % 400 == x % 400,
{
}

proof fn lemma_month_of_day(doy: int)
    requires
        0 <= doy <= 365,
    ensures
        ({
            let index = (5 * doy + 2) / 153;
            let day = doy - (153 * index + 2) / 5 + 1;
            &&& 0 <= index <= 11
            &&& 1 <= day <= 31
            &&& index == 1 || index == 3 || index == 6 || index == 8 ==> day <= 30
            &&& index == 11 ==> day <= 29 && (day == 29 ==> doy == 365)
        }),
{
}

/// A date that days lead to is one of the calendar, and leads back to the same days.
pub proof fn law_dates_lead_back(days: int)
    ensures
        ({
            let date = date_after(days);
            &&& 1 <= date.month <= 12
            &&& 1 <= date.day <= month_length(date.year, date.month)
            &&& days_to(date.year, date.month, date.day) == days
        }),
{
    lemma_dates_lead_back(days);
    let shifted = days + 719_468;
    let era = shifted / 146_097;
    let doe = shifted - era * 146_097;
    let yoe = (doe - doe / 1460 + doe / 36_524 - doe / 146_096) / 365;
    let doy = doe - (365 * yoe + yoe / 4 - yoe / 100);
    lemma_days_in_range(days);
    lemma_month_of_day(doy);
    let date = date_after(days);
    if date.month == 2 && date.day == 29 {
        lemma_last_day(doe, yoe);
        lemma_same_leap(yoe + 1, era);
        assert(date.year == yoe + 1 + era * 400);
        assert(is_leap_year(date.year));
    }
}

proof fn lemma_days_in_range(days: int)
    ensures
        ({
            let shifted = days + 719_468;
            let doe = shifted - (shifted / 146_097) * 146_097;
            let yoe = (doe - doe / 1460 + doe / 36_524 - doe / 146_096) / 365;
            let doy = doe - (365 * yoe + yoe / 4 - yoe / 100);
            &&& 0 <= doe <= 146_096
            &&& 0 <= yoe <= 399
            &&& 0 <= doy <= 365
        }),
{
}

proof fn lemma_dates_lead_back(days: int)
    ensures
        ({
            let date = date_after(days);
            &&& 1 <= date.month <= 12
            &&& 1 <= date.day <= 31
            &&& days_to(date.year, date.month, date.day) == days
        }),
{
    let shifted = days + 719_468;
    let era = shifted / 146_097;
    let doe = shifted - era * 146_097;
    assert(0 <= doe <= 146_096);
    let numbered = doe - doe / 1460 + doe / 36_524 - doe / 146_096;
    let yoe = numbered / 365;
    assert(0 <= yoe <= 399);
    let doy = doe - (365 * yoe + yoe / 4 - yoe / 100);
    assert(0 <= doy <= 365);
    let index = (5 * doy + 2) / 153;
    assert(0 <= index <= 11);
    let date = date_after(days);
    assert(leftover(date.month + 9, 12) == index);
    let year = yoe + era * 400;
    assert(year / 400 == era);
}

/// Finds the date some days after the first of January 1970.
pub fn civil_from_days(days: i64) -> (r: CivilDate)
    ensures
        date_after(days as int) == (DateModel { year: r.year as int, month: r.month as int, day: r.day as int }),
{
    let shifted: i128 = days as i128 + 719_468;
    let era: i128 = if shifted >= 0 {
        divided(shifted, 146_097)
    } else {
        divided(shifted - 146_096, 146_097)
    };
    assert(era == (shifted as int) / 146_097);
    let day_of_era: i128 = shifted - era * 146_097;
    assert(0 <= day_of_era < 146_097);
    let numbered: i128 = day_of_era - divided(day_of_era, 1460) + divided(day_of_era, 36_524) - divided(day_of_era, 146_096);
    let year_of_era = divided(numbered, 365);
    let year: i128 = year_of_era + era * 400;
    let day_of_year: i128 = day_of_era - (365 * year_of_era + divided(year_of_era, 4) - divided(year_of_era, 100));
    proof {
        lemma_dates_lead_back(days as int);
        lemma_days_in_range(days as int);
    }
    let month_index = divided(5 * day_of_year + 2, 153);
    let day: i128 = day_of_year - divided(153 * month_index + 2, 5) + 1;
    let month: i128 = if month_index < 10 {
        month_index + 3
    } else {
        month_index - 9
    };
    CivilDate {
        year: if month <= 2 {
            year + 1
        } else {
            year
        },
        month,
        day,
    }
}

/// The first `n` of some digits, filled up with zeros.
pub open spec fn padded(s: Seq<char>, n: int) -> Seq<char> {
    Seq::new(
        if n < 0 {
            0
        } else {
            n as nat
        },
        |i: int|
            if i < s.len() {
                s[i]
            } else {
                '0'
            },
    )
}

/// A number in two parts: what stands before an `e` and the exponent behind it, which is zero where there
/// is none.
pub open spec fn with_exponent(s: Seq<char>) -> Option<(Seq<char>, int)> {
    let (mantissa, exponent) = match (cut(s, 'e'), cut(s, 'E')) {
        (Some((mantissa, exponent)), _) => (mantissa, Some(exponent)),
        (None, Some((mantissa, exponent))) => (mantissa, Some(exponent)),
        (None, None) => (s, None),
    };
    match exponent {
        None => Some((mantissa, 0)),
        Some(text) => match i64_value(text) {
            Some(n) => Some((mantissa, n)),
            None => None,
        },
    }
}

/// The most nanoseconds that seconds of 64 bits come to.
pub open spec fn most_nanos() -> nat {
    u64::MAX as nat * 1_000_000_000 + 999_999_999
}

/// Seconds with a fraction and an exponent, in nanoseconds; what is less than one is cut off.
pub open spec fn second_nanos(s: Seq<char>) -> Option<int> {
    let signed = s.len() > 0 && (s[0] == '+' || s[0] == '-');
    let rest = if signed {
        s.skip(1)
    } else {
        s
    };
    match with_exponent(rest) {
        None => None,
        Some((mantissa, exponent)) => {
            let (whole, part) = match cut(mantissa, '.') {
                Some(parts) => parts,
                None => (mantissa, Seq::empty()),
            };
            let nanos = digits_value(padded(whole + part, whole.len() + exponent + 9));
            if whole.len() + part.len() == 0 || !all_digits(whole) || !all_digits(part) || nanos > most_nanos() {
                None
            } else if signed && s[0] == '-' {
                Some(-(nanos as int))
            } else {
                Some(nanos as int)
            }
        },
    }
}

proof fn lemma_digits_grow(s: Seq<char>, n: int)
    requires
        0 <= n <= s.len(),
        all_digits(s),
    ensures
        digits_value(s.take(n)) <= digits_value(s),
    decreases s.len(),
{
    if n < s.len() {
        assert(s.drop_last().take(n) =~= s.take(n));
        assert(is_digit(s.last()));
        lemma_digits_grow(s.drop_last(), n);
    } else {
        assert(s.take(n) =~= s);
    }
}

proof fn lemma_zeros(s: Seq<char>, n: int)
    requires
        0 <= n <= s.len(),
        digits_value(s.take(n)) == 0,
        forall|i: int| n <= i < s.len() ==> #[trigger] s[i] == '0',
    ensures
        digits_value(s) == 0,
    decreases s.len(),
{
    if n < s.len() {
        assert(s.drop_last().take(n) =~= s.take(n));
        lemma_zeros(s.drop_last(), n);
    } else {
        assert(s.take(n) =~= s);
    }
}

/// The number that the first `places` of some digits stand for, filled up with zeros, where it is not too
/// large.
fn padded_value(digits: &Vec<char>, places: i128) -> (r: Option<i128>)
    requires
        all_digits(digits@),
    ensures
        match r {
            Some(n) => n == digits_value(padded(digits@, places as int)) && n <= most_nanos(),
            None => digits_value(padded(digits@, places as int)) > most_nanos(),
        },
{
    let most: i128 = 18_446_744_073_709_551_615_999_999_999;
    let ghost all = padded(digits@, places as int);
    assert(all_digits(all)) by {
        assert forall|i: int| 0 <= i < all.len() implies is_digit(#[trigger] all[i]) by {
            if i < digits@.len() {
                assert(is_digit(digits@[i]));
            }
        }
    }
    let mut value: i128 = 0;
    let mut i: i128 = 0;
    let count: usize = digits.len();
    assert(all.take(0) =~= Seq::empty());
    while i < places && (i < count as i128 || value > 0)
        invariant
            0 <= i,
            i <= places || (places < 0 && i == 0),
            all == padded(digits@, places as int),
            all_digits(all),
            count == digits@.len(),
            most == most_nanos(),
            0 <= value <= most,
            value == digits_value(all.take(i as int)),
        decreases places - i,
    {
        let c = if i < count as i128 {
            digits[i as usize]
        } else {
            '0'
        };
        assert(c == all[i as int]);
        assert(is_digit(all[i as int]));
        assert(all.take(i + 1).drop_last() =~= all.take(i as int));
        value = value * 10 + (c as u32 - '0' as u32) as i128;
        i += 1;
        assert(value == digits_value(all.take(i as int)));
        if value > most {
            proof {
                lemma_digits_grow(all, i as int);
            }
            return None;
        }
    }
    proof {
        if i < places {
            lemma_zeros(all, i as int);
        } else {
            assert(all.take(i as int) =~= all);
        }
    }
    Some(value)
}

/// Reads seconds with a fraction and an exponent, as far as 64 bits hold the seconds, to the nanosecond.
pub fn parse_seconds(s: &str) -> (r: Option<i128>)
    ensures
        match r {
            Some(n) => second_nanos(s@) == Some(n as int),
            None => second_nanos(s@) is None,
        },
        r is Some ==> -0x1_0000_0000_0000_0000_0000_0000 < r->0 < 0x1_0000_0000_0000_0000_0000_0000,
{
    let chars = chars_of(s);
    let count: usize = chars.len();
    let signed = count > 0 && (chars[0] == '+' || chars[0] == '-');
    let from: usize = if signed { 1 } else { 0 };
    let rest = text_from(&chars, from, count);
    assert(signed ==> rest@ =~= s@.skip(1));
    assert(!signed ==> rest@ =~= s@);
    let lower = split_once(&rest, 'e');
    let upper = split_once(&rest, 'E');
    let (mantissa, exponent): (String, i64) = match (lower, upper) {
        (Some((mantissa, text)), _) => match parse_i64(&text) {
            Some(n) => (mantissa, n),
            None => {
                return None;
            },
        },
        (None, Some((mantissa, text))) => match parse_i64(&text) {
            Some(n) => (mantissa, n),
            None => {
                return None;
            },
        },
        (None, None) => (rest, 0),
    };
    let (whole, part) = match split_once(&mantissa, '.') {
        Some((whole, part)) => (chars_of(&whole), chars_of(&part)),
        None => (chars_of(&mantissa), Vec::new()),
    };
    if whole.len() == 0 && part.len() == 0 {
        return None;
    }
    let whole_count: usize = whole.len();
    let part_count: usize = part.len();
    assert(whole@.subrange(0, whole_count as int) =~= whole@);
    assert(part@.subrange(0, part_count as int) =~= part@);
    match (read_digits(&whole, 0, whole_count), read_digits(&part, 0, part_count)) {
        (Digits::Other, _) => {
            return None;
        },
        (_, Digits::Other) => {
            return None;
        },
        _ => {},
    }
    let places: i128 = whole_count as i128 + exponent as i128 + 9;
    let ghost first = whole@;
    let ghost second = part@;
    let mut digits = whole;
    let mut more = part;
    digits.append(&mut more);
    assert(digits@ =~= first + second);
    assert(all_digits(digits@)) by {
        assert forall|i: int| 0 <= i < digits@.len() implies is_digit(#[trigger] digits@[i]) by {
            if i < first.len() {
                assert(is_digit(first[i]));
            } else {
                assert(is_digit(second[i - first.len()]));
            }
        }
    }
    match padded_value(&digits, places) {
        None => None,
        Some(nanos) => if signed && chars[0] == '-' {
            Some(-nanos)
        } else {
            Some(nanos)
        },
    }
}

/// The moment that a time stamp such as `2026-09-22T13:15:11.403Z` names, in nanoseconds after the
/// beginning of 1970.
pub open spec fn stamp_nanos(s: Seq<char>) -> Option<int> {
    if s.len() == 0 || s.last() != 'Z' {
        None
    } else {
        match cut(s.drop_last(), 'T') {
            None => None,
            Some((date, time)) => {
                let d = pieces(date, '-');
                let t = pieces(time, ':');
                if d.len() < 3 || t.len() < 3 {
                    None
                } else {
                    match (i64_value(d[0]), i64_value(d[1]), i64_value(d[2]), i64_value(t[0]), i64_value(t[1]), second_nanos(t[2])) {
                        (Some(year), Some(month), Some(day), Some(hour), Some(minute), Some(second)) => {
                            let total = (days_to(year, month, day) * 86_400 + hour * 3_600 + minute * 60) * 1_000_000_000
                                + second;
                            if total < 0 {
                                None
                            } else {
                                Some(total)
                            }
                        },
                        _ => None,
                    }
                }
            },
        }
    }
}

/// Reads a time stamp, to the nanosecond.
pub fn humantime_parse(stamp: &str) -> (r: Option<u128>)
    ensures
        match r {
            Some(n) => stamp_nanos(stamp@) == Some(n as int),
            None => stamp_nanos(stamp@) is None,
        },
{
    let chars = chars_of(stamp);
    let count: usize = chars.len();
    if count == 0 || chars[count - 1] != 'Z' {
        return None;
    }
    let inner = text_from(&chars, 0, count - 1);
    assert(inner@ =~= stamp@.drop_last());
    let (date, time) = match split_once(&inner, 'T') {
        Some(parts) => parts,
        None => {
            return None;
        },
    };
    let d = split_at_char(&date, '-');
    let t = split_at_char(&time, ':');
    assert(texts(d@).len() == d@.len());
    assert(texts(t@).len() == t@.len());
    if d.len() < 3 || t.len() < 3 {
        return None;
    }
    assert(texts(d@)[0] == d@[0]@ && texts(d@)[1] == d@[1]@ && texts(d@)[2] == d@[2]@);
    assert(texts(t@)[0] == t@[0]@ && texts(t@)[1] == t@[1]@ && texts(t@)[2] == t@[2]@);
    match (parse_i64(&d[0]), parse_i64(&d[1]), parse_i64(&d[2]), parse_i64(&t[0]), parse_i64(&t[1]), parse_seconds(&t[2])) {
        (Some(year), Some(month), Some(day), Some(hour), Some(minute), Some(second)) => {
            let days = days_from_civil(year, month, day);
            let seconds: i128 = days * 86_400 + hour as i128 * 3_600 + minute as i128 * 60;
            let total: i128 = seconds * 1_000_000_000 + second;
            if total < 0 {
                None
            } else {
                Some(total as u128)
            }
        },
        _ => None,
    }
}

/// What a line of Studio's log says of a publish.
#[derive(Debug, PartialEq, Eq)]
pub enum StudioPublishEvent {
    Succeeded { version: Option<u64> },
    Failed(String),
}

#[verifier::ext_equal]
pub enum EventModel {
    Succeeded { version: Option<u64> },
    Failed(Seq<char>),
}

impl View for StudioPublishEvent {
    type V = EventModel;

    open spec fn view(&self) -> EventModel {
        match self {
            StudioPublishEvent::Succeeded { version } => EventModel::Succeeded { version: *version },
            StudioPublishEvent::Failed(detail) => EventModel::Failed(detail@),
        }
    }
}

/// The end of the digits that start at `from`.
pub open spec fn digits_end(s: Seq<char>, from: int) -> int
    decreases s.len() - from,
{
    if from < 0 || from >= s.len() || !is_digit(s[from]) {
        from
    } else {
        digits_end(s, from + 1)
    }
}

/// The number that the digits at a place stand for, where there are any and 64 bits hold it.
pub open spec fn number_at(s: Seq<char>, from: int) -> Option<u64> {
    let digits = s.subrange(from, digits_end(s, from));
    if digits.len() == 0 || digits_value(digits) > u64::MAX {
        None
    } else {
        Some(digits_value(digits) as u64)
    }
}

pub open spec fn is_first_occurrence(s: Seq<char>, part: Seq<char>, at: int) -> bool {
    occurs_at(s, part, at) && forall|i: int| 0 <= i < at ==> !#[trigger] occurs_at(s, part, i)
}

/// The version that the first mention of publish notes names.
pub open spec fn noted_version(rest: Seq<char>) -> Option<u64> {
    let at = choose|at: int| is_first_occurrence(rest, "Add publish notes to v"@, at);
    number_at(rest, at + "Add publish notes to v"@.len())
}

/// What the rest of a line, after the stamp, says.
pub open spec fn event_in(rest: Seq<char>) -> Option<EventModel> {
    if occurs(rest, "[FLog::PublishSessionStateController] Go to PublishSuccessful"@) || occurs(
        rest,
        "[FLog::CreatorOutput] Place published."@,
    ) {
        Some(EventModel::Succeeded { version: None })
    } else if occurs(rest, "Add publish notes to v"@) {
        Some(EventModel::Succeeded { version: noted_version(rest) })
    } else if occurs(rest, "[FLog::PublishSessionStateController] Go to PublishFailed"@) || occurs(
        rest,
        "[FLog::PublishSessionStateController] Go to PublishCanceled"@,
    ) || occurs(rest, "[FLog::PublishSessionStateController] Go to PublishCancelled"@) || occurs(
        rest,
        "PublishPlaceToRobloxIsCanceled"@,
    ) {
        Some(EventModel::Failed(trimmed(rest)))
    } else {
        None
    }
}

/// What a line says of a publish that began at some moment: lines with an earlier stamp, or none, say
/// nothing.
#[verifier::opaque]
pub open spec fn event_of(line: Seq<char>, since: int) -> Option<EventModel> {
    match cut(line, ',') {
        None => None,
        Some((stamp, rest)) => match stamp_nanos(stamp) {
            None => None,
            Some(at) => if at < since {
                None
            } else {
                event_in(rest)
            },
        },
    }
}

fn read_number_at(chars: &Vec<char>, from: usize) -> (r: Option<u64>)
    requires
        from <= chars.len(),
    ensures
        r == number_at(chars@, from as int),
{
    let mut end: usize = from;
    while end < chars.len() && chars[end] >= '0' && chars[end] <= '9'
        invariant
            from <= end <= chars.len(),
            digits_end(chars@, from as int) == digits_end(chars@, end as int),
        decreases chars.len() - end,
    {
        end += 1;
    }
    if end == from {
        return None;
    }
    match read_digits(chars, from, end) {
        Digits::Value(n) => Some(n),
        Digits::Large => None,
        Digits::Other => {
            proof {
                lemma_digits_up_to(chars@, from as int, end as int);
            }
            None
        },
    }
}

proof fn lemma_digits_up_to(s: Seq<char>, from: int, end: int)
    requires
        0 <= from <= s.len(),
        end == digits_end(s, from),
    ensures
        from <= end <= s.len(),
        all_digits(s.subrange(from, end)),
    decreases s.len() - from,
{
    if from < s.len() && is_digit(s[from]) {
        lemma_digits_up_to(s, from + 1, end);
        assert forall|i: int| 0 <= i < s.subrange(from, end).len() implies is_digit(#[trigger] s.subrange(from, end)[i]) by {
            if i > 0 {
                assert(s.subrange(from + 1, end)[i - 1] == s[from + i]);
            }
        }
    }
}

/// Reads what a line of Studio's log says of a publish that began at some moment.
#[verifier::spinoff_prover]
#[verifier::rlimit(30)]
pub fn studio_publish_event(line: &str, since: u128) -> (r: Option<StudioPublishEvent>)
    ensures
        match r {
            Some(event) => event_of(line@, since as int) == Some(event@),
            None => event_of(line@, since as int) is None,
        },
{
    reveal(event_of);
    let (stamp, rest) = match split_once(line, ',') {
        Some(parts) => parts,
        None => {
            return None;
        },
    };
    let at = match humantime_parse(&stamp) {
        Some(at) => at,
        None => {
            return None;
        },
    };
    if at < since {
        return None;
    }
    if contains_part(&rest, "[FLog::PublishSessionStateController] Go to PublishSuccessful") || contains_part(
        &rest,
        "[FLog::CreatorOutput] Place published.",
    ) {
        return Some(StudioPublishEvent::Succeeded { version: None });
    }
    let chars = chars_of(&rest);
    let count: usize = chars.len();
    match find_part(&chars, "Add publish notes to v", 0) {
        Some(place) => {
            proof {
                let notes = "Add publish notes to v"@;
                reveal_strlit("Add publish notes to v");
                assert(notes.len() == 22);
                assert(occurs_at(rest@, notes, place as int));
                assert(place + 22 <= rest@.len());
                assert(count == rest@.len());
                assert(is_first_occurrence(rest@, notes, place as int));
                let other = choose|at: int| is_first_occurrence(rest@, notes, at);
                if other < place {
                    assert(!occurs_at(rest@, notes, other));
                } else if place < other {
                    assert(!occurs_at(rest@, notes, place as int));
                }
            }
            let version = read_number_at(&chars, place + 22);
            return Some(StudioPublishEvent::Succeeded { version });
        },
        None => {
            assert(!occurs(rest@, "Add publish notes to v"@)) by {
                assert forall|i: int| !occurs_at(rest@, "Add publish notes to v"@, i) by {
                    if 0 <= i {
                    }
                }
            }
        },
    }
    if contains_part(&rest, "[FLog::PublishSessionStateController] Go to PublishFailed") || contains_part(
        &rest,
        "[FLog::PublishSessionStateController] Go to PublishCanceled",
    ) || contains_part(&rest, "[FLog::PublishSessionStateController] Go to PublishCancelled") || contains_part(
        &rest,
        "PublishPlaceToRobloxIsCanceled",
    ) {
        return Some(StudioPublishEvent::Failed(trim(&rest)));
    }
    None
}

/// What the last lines of a log say: the last failure, or whether the publish succeeded and the latest
/// version that was named.
#[verifier::ext_equal]
pub struct LogReading {
    pub failed: Option<Seq<char>>,
    pub succeeded: bool,
    pub version: Option<u64>,
}

/// What the last `n` lines say, read from the end.
pub open spec fn read_back(lines: Seq<Seq<char>>, since: int, n: nat) -> LogReading
    decreases n,
{
    if n == 0 {
        LogReading { failed: None, succeeded: false, version: None }
    } else {
        let later = read_back(lines, since, (n - 1) as nat);
        if later.failed is Some {
            later
        } else {
            match event_of(lines[lines.len() - n], since) {
                Some(EventModel::Succeeded { version }) => LogReading {
                    failed: None,
                    succeeded: true,
                    version: if later.version is Some {
                        later.version
                    } else {
                        version
                    },
                },
                Some(EventModel::Failed(detail)) => LogReading { failed: Some(detail), ..later },
                None => later,
            }
        }
    }
}

/// What to do after a look at the log.
#[derive(Debug, PartialEq, Eq)]
pub enum PublishStep {
    Published { version: Option<u64> },
    Failed(String),
    /// Look again later.
    Wait,
    /// Nothing was said in time.
    TimedOut,
}

#[verifier::ext_equal]
pub enum PublishStepModel {
    Published { version: Option<u64> },
    Failed(Seq<char>),
    Wait,
    TimedOut,
}

impl View for PublishStep {
    type V = PublishStepModel;

    open spec fn view(&self) -> PublishStepModel {
        match self {
            PublishStep::Published { version } => PublishStepModel::Published { version: *version },
            PublishStep::Failed(detail) => PublishStepModel::Failed(detail@),
            PublishStep::Wait => PublishStepModel::Wait,
            PublishStep::TimedOut => PublishStepModel::TimedOut,
        }
    }
}

/// What a look at the log, before or after the deadline, comes to.
pub open spec fn step_after(lines: Seq<Seq<char>>, since: int, in_time: bool) -> PublishStepModel {
    let n = if lines.len() < LOG_LINES {
        lines.len()
    } else {
        LOG_LINES as nat
    };
    let reading = read_back(lines, since, n);
    match reading.failed {
        Some(detail) => PublishStepModel::Failed(detail),
        None => if reading.succeeded {
            PublishStepModel::Published { version: reading.version }
        } else if in_time {
            PublishStepModel::Wait
        } else {
            PublishStepModel::TimedOut
        },
    }
}

proof fn lemma_failure_stays(lines: Seq<Seq<char>>, since: int, a: nat, b: nat)
    requires
        a <= b,
        read_back(lines, since, a).failed is Some,
    ensures
        read_back(lines, since, b) == read_back(lines, since, a),
    decreases b,
{
    if a < b {
        lemma_failure_stays(lines, since, a, (b - 1) as nat);
    }
}

/// Looks through the end of a log, from the last line back, for what became of a publish.
#[verifier::spinoff_prover]
#[verifier::rlimit(30)]
pub fn studio_publish_step(lines: &Vec<String>, since: u128, in_time: bool) -> (r: PublishStep)
    ensures
        r@ == step_after(texts(lines@), since as int, in_time),
{
    let ghost all = texts(lines@);
    let count: usize = lines.len();
    assert(all.len() == count);
    let wanted: usize = if count < LOG_LINES {
        count
    } else {
        LOG_LINES
    };
    let mut succeeded = false;
    let mut version: Option<u64> = None;
    let mut n: usize = 0;
    while n < wanted
        invariant
            n <= wanted <= count,
            count == lines@.len(),
            all == texts(lines@),
            wanted == if all.len() < LOG_LINES {
                all.len() as int
            } else {
                LOG_LINES as int
            },
            read_back(all, since as int, n as nat) == (LogReading { failed: None, succeeded, version }),
        decreases wanted - n,
    {
        assert(all[all.len() - (n + 1)] == lines@[count - n - 1]@);
        match studio_publish_event(&lines[count - n - 1], since) {
            Some(StudioPublishEvent::Succeeded { version: found }) => {
                succeeded = true;
                if version.is_none() {
                    version = found;
                }
            },
            Some(StudioPublishEvent::Failed(detail)) => {
                proof {
                    lemma_failure_stays(all, since as int, (n + 1) as nat, wanted as nat);
                }
                return PublishStep::Failed(detail);
            },
            None => {},
        }
        n += 1;
    }
    if succeeded {
        PublishStep::Published { version }
    } else if in_time {
        PublishStep::Wait
    } else {
        PublishStep::TimedOut
    }
}

/// A failure in the part of a log that counts, with only good news after it, is what is reported.
pub proof fn law_failure_is_reported(lines: Seq<Seq<char>>, since: int, in_time: bool, n: nat)
    requires
        0 < n <= lines.len(),
        n <= LOG_LINES,
        read_back(lines, since, (n - 1) as nat).failed is None,
        event_of(lines[lines.len() - n], since) is Some,
        event_of(lines[lines.len() - n], since)->0 is Failed,
    ensures
        step_after(lines, since, in_time) == PublishStepModel::Failed(event_of(lines[lines.len() - n], since)->0->Failed_0),
{
    let all = if lines.len() < LOG_LINES {
        lines.len()
    } else {
        LOG_LINES as nat
    };
    lemma_failure_stays(lines, since, n, all);
}

/// Whether a refusal means that places can not be saved from plugins here.
pub fn save_place_api_refused(message: &str) -> (r: bool)
    ensures
        r == (occurs(message@, "Save Place API"@) || occurs(message@, "SavePlace"@)),
{
    contains_part(message, "Save Place API") || contains_part(message, "SavePlace")
}

/// Whether a place is of a size that can be uploaded.
pub fn validate_size(bytes: u64) -> (r: bool)
    ensures
        r == (0 < bytes <= MAX_PLACE_BYTES),
{
    bytes > 0 && bytes <= MAX_PLACE_BYTES
}

/// Classes whose instances an upload does not keep.
pub open spec fn is_unsupported(class_name: Seq<char>) -> bool {
    ||| class_name == "EditableImage"@
    ||| class_name == "EditableMesh"@
    ||| class_name == "PartOperation"@
    ||| class_name == "SurfaceAppearance"@
    ||| class_name == "BaseWrap"@
}

/// A class and the classes that it derives from, at most `steps` of them. The map gives each class that
/// derives from another the one it derives from.
pub open spec fn class_chain(above: Map<Seq<char>, Seq<char>>, class: Seq<char>, steps: nat) -> Seq<Seq<char>>
    decreases steps,
{
    if steps == 0 || !above.dom().contains(class) {
        seq![class]
    } else {
        seq![class] + class_chain(above, above[class], (steps - 1) as nat)
    }
}

proof fn lemma_chain_shape(above: Map<Seq<char>, Seq<char>>, class: Seq<char>, steps: nat)
    ensures
        class_chain(above, class, steps).len() >= 1,
        class_chain(above, class, steps).len() <= steps + 1,
        forall|i: int|
            0 <= i < class_chain(above, class, steps).len() - 1 ==> above.dom().contains(
                #[trigger] class_chain(above, class, steps)[i],
            ),
        class_chain(above, class, steps).len() < steps + 1 ==> !above.dom().contains(class_chain(above, class, steps).last()),
    decreases steps,
{
    if steps > 0 && above.dom().contains(class) {
        let rest = class_chain(above, above[class], (steps - 1) as nat);
        lemma_chain_shape(above, above[class], (steps - 1) as nat);
        let whole = class_chain(above, class, steps);
        assert(whole == seq![class] + rest);
        assert(whole.last() == rest.last());
        assert forall|i: int| 0 <= i < whole.len() - 1 implies above.dom().contains(#[trigger] whole[i]) by {
            if i > 0 {
                assert(whole[i] == rest[i - 1]);
            }
        }
    }
}

/// A walk up the classes that names no class twice ends at a class that derives from no other.
pub proof fn law_chain_ends_at_the_top(above: Map<Seq<char>, Seq<char>>, class: Seq<char>)
    requires
        above.dom().finite(),
        class_chain(above, class, above.dom().len()).no_duplicates(),
    ensures
        !above.dom().contains(class_chain(above, class, above.dom().len()).last()),
{
    let n = above.dom().len();
    let chain = class_chain(above, class, n);
    lemma_chain_shape(above, class, n);
    if above.dom().contains(chain.last()) {
        chain.unique_seq_to_set();
        assert forall|c: Seq<char>| chain.to_set().contains(c) implies above.dom().contains(c) by {
            let i = choose|i: int| 0 <= i < chain.len() && chain[i] == c;
            if i == chain.len() - 1 {
                assert(c == chain.last());
            }
        }
        vstd::set_lib::lemma_len_subset(chain.to_set(), above.dom());
    }
}

/// The class of an instance and the classes that it derives from. The table gives each class that derives
/// from another the one it derives from; no class derives from itself, and the walk ends, should one do so,
/// after as many steps as there are classes in the table.
pub fn superclass_chain(above: &Table<String, String>, class: &String) -> (r: Vec<String>)
    ensures
        texts(r@) == class_chain(above@, class@, above@.dom().len()),
{
    let keys = above.keys();
    let ghost views = key_views(keys@);
    proof {
        views.unique_seq_to_set();
        assert(views.to_set() =~= above@.dom());
    }
    let mut out: Vec<String> = Vec::new();
    let mut current: String = class.clone();
    let mut steps: usize = keys.len();
    assert(texts(out@) + class_chain(above@, current@, steps as nat) =~= class_chain(above@, class@, above@.dom().len()));
    while steps > 0
        invariant
            texts(out@) + class_chain(above@, current@, steps as nat) == class_chain(above@, class@, above@.dom().len()),
        decreases steps,
    {
        match above.get(&current) {
            None => {
                steps = 0;
            },
            Some(next) => {
                let ghost before = texts(out@);
                let ghost rest = class_chain(above@, next@, (steps - 1) as nat);
                let next = next.clone();
                proof {
                    lemma_texts_push(out@, current);
                    assert(before + (seq![current@] + rest) =~= before.push(current@) + rest);
                }
                out.push(current);
                current = next;
                steps -= 1;
            },
        }
    }
    proof {
        lemma_texts_push(out@, current);
        assert(texts(out@) + seq![current@] =~= texts(out@).push(current@));
    }
    out.push(current);
    out
}

/// An instance, given by its class and the classes that it derives from, that an upload does not keep.
pub open spec fn chain_is_unsupported(chain: Seq<Seq<char>>) -> bool {
    exists|i: int| 0 <= i < chain.len() && is_unsupported(#[trigger] chain[i])
}

/// Whether an upload does not keep an instance, given by its class and the classes that it derives from.
pub fn is_unsupported_chain(chain: &Vec<String>) -> (r: bool)
    ensures
        r == chain_is_unsupported(texts(chain@)),
{
    let ghost all = texts(chain@);
    let mut i: usize = 0;
    while i < chain.len()
        invariant
            i <= chain.len(),
            all == texts(chain@),
            forall|j: int| 0 <= j < i ==> !is_unsupported(#[trigger] all[j]),
        decreases chain.len() - i,
    {
        let name = &chain[i];
        assert(all[i as int] == name@);
        if same(name, "EditableImage") || same(name, "EditableMesh") || same(name, "PartOperation") || same(
            name,
            "SurfaceAppearance",
        ) || same(name, "BaseWrap") {
            return true;
        }
        i += 1;
    }
    false
}

pub open spec fn chains(v: Seq<Vec<String>>) -> Seq<Seq<Seq<char>>> {
    Seq::new(v.len(), |i: int| texts(v[i]@))
}

/// An instance of some class that an upload does not keep.
pub open spec fn counts_for(chain: Seq<Seq<char>>, class_name: Seq<char>) -> bool {
    chain.len() > 0 && chain[0] == class_name && chain_is_unsupported(chain)
}

/// How many of the first `n` instances are of a class that an upload does not keep.
pub open spec fn unsupported_count(v: Seq<Seq<Seq<char>>>, class_name: Seq<char>, n: nat) -> nat
    decreases n,
{
    if n == 0 {
        0
    } else {
        unsupported_count(v, class_name, (n - 1) as nat) + if counts_for(v[n - 1], class_name) {
            1nat
        } else {
            0
        }
    }
}

/// A class with how many of its instances an upload does not keep.
pub struct UnsupportedClass {
    pub class_name: String,
    pub count: usize,
}

pub open spec fn class_names(v: Seq<UnsupportedClass>) -> Seq<Seq<char>> {
    Seq::new(v.len(), |i: int| v[i].class_name@)
}

/// Counts the instances that an upload does not keep, by class, in the order of the classes' names.
/// Each instance is given by its class and the classes that it derives from.
pub fn unsupported_classes(instances: &Vec<Vec<String>>) -> (r: Vec<UnsupportedClass>)
    ensures
        ascending::<String>(class_names(r@)),
        forall|name: Seq<char>| #[trigger]
            class_names(r@).contains(name) <==> exists|i: int|
                0 <= i < instances@.len() && counts_for(#[trigger] chains(instances@)[i], name),
        forall|k: int|
            0 <= k < r@.len() ==> (#[trigger] r@[k]).count == unsupported_count(
                chains(instances@),
                r@[k].class_name@,
                instances@.len(),
            ),
{
    let ghost all = chains(instances@);
    let mut names: SortedSet<String> = SortedSet::new();
    let mut i: usize = 0;
    while i < instances.len()
        invariant
            i <= instances.len(),
            all == chains(instances@),
            ascending::<String>(names@),
            forall|name: Seq<char>| #[trigger]
                names@.contains(name) <==> exists|j: int| 0 <= j < i && counts_for(#[trigger] all[j], name),
        decreases instances.len() - i,
    {
        assert(all[i as int] == texts(instances@[i as int]@));
        assert(all[i as int].len() == instances@[i as int]@.len());
        let ghost before = names@;
        if instances[i].len() > 0 && is_unsupported_chain(&instances[i]) {
            let name = instances[i][0].clone();
            assert(all[i as int][0] == name@);
            names.insert(name);
            assert(counts_for(all[i as int], name@));
        }
        assert forall|name: Seq<char>| #[trigger]
            names@.contains(name) <==> exists|j: int| 0 <= j < i + 1 && counts_for(#[trigger] all[j], name) by {
            assert(before.contains(name) <==> exists|j: int| 0 <= j < i && counts_for(#[trigger] all[j], name));
            if exists|j: int| 0 <= j < i + 1 && counts_for(#[trigger] all[j], name) {
                let j = choose|j: int| 0 <= j < i + 1 && counts_for(#[trigger] all[j], name);
                if j < i {
                    assert(before.contains(name));
                }
            }
        }
        i += 1;
    }
    let names = names.into_items();
    let ghost found = key_views(names@);
    let mut out: Vec<UnsupportedClass> = Vec::new();
    let mut k: usize = 0;
    while k < names.len()
        invariant
            k <= names.len(),
            k == out@.len(),
            all == chains(instances@),
            found == key_views(names@),
            class_names(out@) =~= found.take(k as int),
            forall|x: int|
                0 <= x < k ==> (#[trigger] out@[x]).count == unsupported_count(all, out@[x].class_name@, instances@.len()),
        decreases names.len() - k,
    {
        let mut count: usize = 0;
        let mut n: usize = 0;
        while n < instances.len()
            invariant
                n <= instances.len(),
                k < names.len(),
                all == chains(instances@),
                count <= n,
                count == unsupported_count(all, names@[k as int]@, n as nat),
            decreases instances.len() - n,
        {
            assert(all[n as int] == texts(instances@[n as int]@));
            assert(all[n as int].len() == instances@[n as int]@.len());
            if instances[n].len() > 0 {
                assert(all[n as int][0] == instances@[n as int]@[0]@);
                if same(&instances[n][0], &names[k]) && is_unsupported_chain(&instances[n]) {
                    count += 1;
                }
            }
            n += 1;
        }
        out.push(UnsupportedClass { class_name: names[k].clone(), count });
        assert(found[k as int] == names@[k as int]@);
        k += 1;
    }
    assert(found.take(k as int) =~= found);
    out
}

/// One class with its count, as it is reported.
pub open spec fn class_report(class_name: Seq<char>, count: nat) -> Seq<char> {
    class_name + " ("@ + decimal(count) + ")"@
}

/// Reports the classes that an upload does not keep.
pub fn unsupported_text(classes: &Vec<UnsupportedClass>) -> (r: String)
    ensures
        r@ == joined_by(
            Seq::new(classes@.len(), |i: int| class_report(classes@[i].class_name@, classes@[i].count as nat)),
            ", "@,
        ),
{
    let ghost wanted = Seq::new(
        classes@.len(),
        |i: int| class_report(classes@[i].class_name@, classes@[i].count as nat),
    );
    let mut parts: Vec<String> = Vec::new();
    let mut i: usize = 0;
    while i < classes.len()
        invariant
            i <= classes.len(),
            wanted == Seq::new(
                classes@.len(),
                |i: int| class_report(classes@[i].class_name@, classes@[i].count as nat),
            ),
            texts(parts@) =~= wanted.take(i as int),
        decreases classes.len() - i,
    {
        let opened = joined(&classes[i].class_name, " (");
        let counted = joined(&opened, &to_decimal(classes[i].count as u128));
        let part = joined(&counted, ")");
        proof {
            lemma_texts_push(parts@, part);
            assert(wanted[i as int] == part@);
        }
        parts.push(part);
        i += 1;
    }
    assert(wanted.take(i as int) =~= wanted);
    join_texts(&parts, ", ")
}

/// The kind of content of a place file.
pub open spec fn content_type(file: PathParts) -> Seq<char> {
    if extension_of(last_name(file)) == Some("rbxlx"@) {
        "application/xml"@
    } else {
        "application/octet-stream"@
    }
}

/// The request that uploads a place file.
pub open spec fn upload_request(file: PathParts) -> JsonModel {
    JsonModel::Object(
        Map::<Seq<char>, JsonModel>::empty()
            .insert("method"@, JsonModel::Text("POST"@))
            .insert("path"@, JsonModel::Text("/universes/v1/{universe}/places/{place}/versions"@))
            .insert(
                "query"@,
                JsonModel::Object(
                    Map::<Seq<char>, JsonModel>::empty().insert("versionType"@, JsonModel::Text("Published"@)),
                ),
            )
            .insert("rawFile"@, JsonModel::Text(slash_text(file)))
            .insert("contentType"@, JsonModel::Text(content_type(file)))
            .insert("timeoutSeconds"@, JsonModel::Number(NumberModel::Unsigned(PUBLISH_SECONDS))),
    )
}

/// Makes the request that uploads a place file.
pub fn cloud_request(file: &FilePath) -> (r: Json)
    ensures
        r@ == upload_request(file@),
{
    let name = file.file_name();
    let (_, extension) = split_extension(&name);
    let kind = match extension {
        Some(extension) => if same(&extension, "rbxlx") {
            "application/xml"
        } else {
            "application/octet-stream"
        },
        None => "application/octet-stream",
    };
    let mut query: Vec<Member> = Vec::new();
    put(&mut query, "versionType".to_owned(), Json::Text("Published".to_owned()));
    let mut out: Vec<Member> = Vec::new();
    put(&mut out, "method".to_owned(), Json::Text("POST".to_owned()));
    put(&mut out, "path".to_owned(), Json::Text("/universes/v1/{universe}/places/{place}/versions".to_owned()));
    put(&mut out, "query".to_owned(), Json::Object(query));
    put(&mut out, "rawFile".to_owned(), Json::Text(file.to_slash()));
    put(&mut out, "contentType".to_owned(), Json::Text(kind.to_owned()));
    put(&mut out, "timeoutSeconds".to_owned(), Json::Number(Number::Unsigned(PUBLISH_SECONDS)));
    Json::Object(out)
}

/// The value at a key of an object.
pub open spec fn member(value: JsonModel, key: Seq<char>) -> Option<JsonModel> {
    match value {
        JsonModel::Object(m) => if m.dom().contains(key) {
            Some(m[key])
        } else {
            None
        },
        _ => None,
    }
}

/// The version that a response to an upload names: a number above zero, plain or as text.
pub open spec fn version_in(response: JsonModel) -> Option<int> {
    match member(response, "body"@) {
        None => None,
        Some(body) => match member(body, "versionNumber"@) {
            Some(JsonModel::Number(NumberModel::Unsigned(n))) if n > 0 => Some(n as int),
            Some(JsonModel::Text(s)) => match u64_value(s) {
                Some(n) if n > 0 => Some(n),
                _ => None,
            },
            _ => None,
        },
    }
}

fn find_member<'a>(value: &'a Json, key: &str) -> (r: Option<&'a Json>)
    ensures
        match r {
            Some(v) => member(value@, key@) == Some(v@),
            None => member(value@, key@) is None,
        },
{
    match value {
        Json::Object(m) => get(m, key),
        _ => None,
    }
}

/// Reads the version that a response to an upload names.
pub fn published_version(response: &Json) -> (r: Option<u64>)
    ensures
        match r {
            Some(n) => version_in(response@) == Some(n as int),
            None => version_in(response@) is None,
        },
{
    match find_member(response, "body") {
        None => None,
        Some(body) => match find_member(body, "versionNumber") {
            Some(Json::Number(Number::Unsigned(n))) => if *n > 0 {
                Some(*n)
            } else {
                None
            },
            Some(Json::Text(s)) => match parse_u64(s) {
                Some(n) => if n > 0 {
                    Some(n)
                } else {
                    None
                },
                None => None,
            },
            _ => None,
        },
    }
}

/// What went wrong between here and Studio.
#[derive(PartialEq, Eq, Structural, Clone, Copy, Debug)]
pub enum StudioFailure {
    /// Studio runs a plugin that can not publish.
    OldPlugin,
    /// Studio said so itself.
    Reported,
    /// Nothing is known of whether the place was published.
    Unconfirmed,
}

/// Tells failures of a publish apart by what Studio answered, where it answered.
pub open spec fn failure_kind(answer: Option<Seq<char>>) -> StudioFailure {
    match answer {
        Some(message) => if occurs(message, "Unknown method: publishPlace"@) {
            StudioFailure::OldPlugin
        } else {
            StudioFailure::Reported
        },
        None => StudioFailure::Unconfirmed,
    }
}

/// What a failure of a publish is reported as.
pub open spec fn failure_text(answer: Option<Seq<char>>, error: Seq<char>) -> Seq<char> {
    match failure_kind(answer) {
        StudioFailure::OldPlugin => "The selected Studio is running an older Renium plugin; update the plugin and reopen that Studio before publishing"@,
        StudioFailure::Reported => error,
        StudioFailure::Unconfirmed => "Studio publish response was not confirmed. Check the place's Version History before trying again; the request is not automatically repeated"@,
    }
}

/// Reports a failure of a publish: what Studio answered, where it answered, and the error as it came.
pub fn studio_failure(answer: &Option<String>, error: &str) -> (r: String)
    ensures
        r@ == failure_text(opt_text(*answer), error@),
{
    match answer {
        Some(message) => if contains_part(message, "Unknown method: publishPlace") {
            "The selected Studio is running an older Renium plugin; update the plugin and reopen that Studio before publishing".to_owned()
        } else {
            error.to_owned()
        },
        None => "Studio publish response was not confirmed. Check the place's Version History before trying again; the request is not automatically repeated".to_owned(),
    }
}

/// What a publish was asked for with.
pub struct PublishArgs {
    pub open_cloud: bool,
    pub file: Option<FilePath>,
    pub universe: Option<i64>,
    pub place_id: Option<i64>,
    pub key_env: Option<String>,
    pub dry_run: bool,
}

/// Options of a publish that go with an upload alone.
#[derive(PartialEq, Eq, Structural, Clone, Copy, Debug)]
pub enum CloudOption {
    File,
    Universe,
    PlaceId,
    KeyEnv,
}

/// Why the options of a publish are refused.
#[derive(PartialEq, Eq, Structural, Clone, Copy, Debug)]
pub enum PublishOptionError {
    /// An id that is not above zero.
    BadId(CloudOption),
    /// An option of an upload, where none was asked for.
    NeedsOpenCloud(CloudOption),
}

pub open spec fn is_bad_id(id: Option<i64>) -> bool {
    id is Some && id->0 < 1
}

/// What is wrong with the options of a publish.
pub open spec fn options_checked(args: PublishArgs) -> Result<(), PublishOptionError> {
    if is_bad_id(args.universe) {
        Err(PublishOptionError::BadId(CloudOption::Universe))
    } else if is_bad_id(args.place_id) {
        Err(PublishOptionError::BadId(CloudOption::PlaceId))
    } else if args.open_cloud {
        Ok(())
    } else if args.file is Some {
        Err(PublishOptionError::NeedsOpenCloud(CloudOption::File))
    } else if args.universe is Some {
        Err(PublishOptionError::NeedsOpenCloud(CloudOption::Universe))
    } else if args.place_id is Some {
        Err(PublishOptionError::NeedsOpenCloud(CloudOption::PlaceId))
    } else if args.key_env is Some {
        Err(PublishOptionError::NeedsOpenCloud(CloudOption::KeyEnv))
    } else {
        Ok(())
    }
}

/// Refuses options of an upload without an upload, and ids that are not above zero.
pub fn check_publish_options(args: &PublishArgs) -> (r: Result<(), PublishOptionError>)
    ensures
        r == options_checked(*args),
{
    match args.universe {
        Some(id) => if id < 1 {
            return Err(PublishOptionError::BadId(CloudOption::Universe));
        },
        None => {},
    }
    match args.place_id {
        Some(id) => if id < 1 {
            return Err(PublishOptionError::BadId(CloudOption::PlaceId));
        },
        None => {},
    }
    if args.open_cloud {
        Ok(())
    } else if args.file.is_some() {
        Err(PublishOptionError::NeedsOpenCloud(CloudOption::File))
    } else if args.universe.is_some() {
        Err(PublishOptionError::NeedsOpenCloud(CloudOption::Universe))
    } else if args.place_id.is_some() {
        Err(PublishOptionError::NeedsOpenCloud(CloudOption::PlaceId))
    } else if args.key_env.is_some() {
        Err(PublishOptionError::NeedsOpenCloud(CloudOption::KeyEnv))
    } else {
        Ok(())
    }
}

/// Whether an upload has to know of a project: for the place, or for an id that was not given.
pub fn upload_needs_project(args: &PublishArgs) -> (r: bool)
    ensures
        r == (args.file is None || args.universe is None || args.place_id is None),
{
    args.file.is_none() || args.universe.is_none() || args.place_id.is_none()
}

/// Where an upload takes its place from, and where it goes.
#[derive(PartialEq, Eq, Structural, Clone, Copy, Debug)]
pub struct UploadPlan {
    /// A file that was named, and not a build of the project.
    pub from_file: bool,
    pub game_id: i64,
    pub place_id: i64,
    /// Whether a key has to be at hand.
    pub needs_key: bool,
}

/// Why nothing is uploaded.
#[derive(PartialEq, Eq, Structural, Clone, Copy, Debug)]
pub enum UploadError {
    NoProject,
    NoUniverse,
    NoPlace,
}

/// Decides what an upload takes and where it goes, from whether a project was found and the ids that
/// are known.
pub fn plan_upload(args: &PublishArgs, has_project: bool, game_id: Option<i64>, place_id: Option<i64>) -> (r: Result<
    UploadPlan,
    UploadError,
>)
    ensures
        r == if args.file is None && !has_project {
            Err(UploadError::NoProject)
        } else if game_id is None {
            Err(UploadError::NoUniverse)
        } else if place_id is None {
            Err(UploadError::NoPlace)
        } else {
            Ok(
                UploadPlan {
                    from_file: args.file is Some,
                    game_id: game_id->0,
                    place_id: place_id->0,
                    needs_key: !args.dry_run,
                },
            )
        },
{
    if args.file.is_none() && !has_project {
        return Err(UploadError::NoProject);
    }
    let game_id = match game_id {
        Some(id) => id,
        None => {
            return Err(UploadError::NoUniverse);
        },
    };
    let place_id = match place_id {
        Some(id) => id,
        None => {
            return Err(UploadError::NoPlace);
        },
    };
    Ok(UploadPlan { from_file: args.file.is_some(), game_id, place_id, needs_key: !args.dry_run })
}

/// The name of the variable that holds the key.
pub fn key_variable(args: &PublishArgs) -> (r: String)
    ensures
        r@ == match args.key_env {
            Some(name) => name@,
            None => "ROBLOX_API_KEY"@,
        },
{
    match &args.key_env {
        Some(name) => name.clone(),
        None => "ROBLOX_API_KEY".to_owned(),
    }
}

/// A number with a sign in decimal digits.
pub open spec fn signed_decimal(n: int) -> Seq<char> {
    if n < 0 {
        "-"@ + decimal((-n) as nat)
    } else {
        decimal(n as nat)
    }
}

/// Writes a number with a sign in decimal digits.
pub fn to_signed_decimal(n: i64) -> (r: String)
    ensures
        r@ == signed_decimal(n as int),
{
    let wide: i128 = n as i128;
    if wide < 0 {
        joined("-", &to_decimal((-wide) as u128))
    } else {
        to_decimal(wide as u128)
    }
}

pub open spec fn number_model(n: i64) -> NumberModel {
    if n < 0 {
        NumberModel::Negative(n)
    } else {
        NumberModel::Unsigned(n as u64)
    }
}

fn number_of(n: i64) -> (r: Json)
    ensures
        r@ == JsonModel::Number(number_model(n)),
{
    if n < 0 {
        Json::Number(Number::Negative(n))
    } else {
        Json::Number(Number::Unsigned(n as u64))
    }
}

/// What an upload reports before anything was sent.
pub open spec fn prepared_report(dry_run: bool, input: Seq<char>, plan: UploadPlan, bytes: u64) -> Map<Seq<char>, JsonModel> {
    Map::<Seq<char>, JsonModel>::empty()
        .insert("ok"@, JsonModel::Bool(true))
        .insert("published"@, JsonModel::Bool(false))
        .insert("dryRun"@, JsonModel::Bool(dry_run))
        .insert("source"@, JsonModel::Text("open-cloud"@))
        .insert("input"@, JsonModel::Text(input))
        .insert("gameId"@, JsonModel::Number(number_model(plan.game_id)))
        .insert("placeId"@, JsonModel::Number(number_model(plan.place_id)))
        .insert("bytes"@, JsonModel::Number(NumberModel::Unsigned(bytes)))
        .insert("url"@, JsonModel::Text("https://www.roblox.com/games/"@ + signed_decimal(plan.place_id as int)))
}

/// What an upload reports: without a version where it was only prepared.
pub open spec fn upload_report_of(dry_run: bool, input: Seq<char>, plan: UploadPlan, bytes: u64, version: Option<u64>) -> JsonModel {
    let prepared = prepared_report(dry_run, input, plan, bytes);
    JsonModel::Object(
        match version {
            Some(version) => prepared.insert("versionNumber"@, JsonModel::Number(NumberModel::Unsigned(version))).insert(
                "published"@,
                JsonModel::Bool(true),
            ),
            None => prepared,
        },
    )
}

/// Makes the report of an upload: without a version where it was only prepared.
pub fn upload_report(dry_run: bool, input: &str, plan: &UploadPlan, bytes: u64, version: Option<u64>) -> (r: Json)
    ensures
        r@ == upload_report_of(dry_run, input@, *plan, bytes, version),
{
    let url = joined("https://www.roblox.com/games/", &to_signed_decimal(plan.place_id));
    let mut out: Vec<Member> = Vec::new();
    put(&mut out, "ok".to_owned(), Json::Bool(true));
    put(&mut out, "published".to_owned(), Json::Bool(false));
    put(&mut out, "dryRun".to_owned(), Json::Bool(dry_run));
    put(&mut out, "source".to_owned(), Json::Text("open-cloud".to_owned()));
    put(&mut out, "input".to_owned(), Json::Text(input.to_owned()));
    put(&mut out, "gameId".to_owned(), number_of(plan.game_id));
    put(&mut out, "placeId".to_owned(), number_of(plan.place_id));
    put(&mut out, "bytes".to_owned(), Json::Number(Number::Unsigned(bytes)));
    put(&mut out, "url".to_owned(), Json::Text(url));
    match version {
        Some(version) => {
            put(&mut out, "versionNumber".to_owned(), Json::Number(Number::Unsigned(version)));
            put(&mut out, "published".to_owned(), Json::Bool(true));
        },
        None => {},
    }
    Json::Object(out)
}

/// What follows Studio's answer to a request to publish.
#[derive(PartialEq, Eq, Structural, Clone, Copy, Debug)]
pub enum StudioAnswer {
    /// It is the result.
    Result,
    /// The place can be published by Studio's own command.
    UseCommand,
    /// It is the error.
    Error,
}

/// Decides what follows Studio's answer, given the error in it.
pub fn after_studio_answer(error: &Option<String>, dry_run: bool) -> (r: StudioAnswer)
    ensures
        r == match *error {
            None => StudioAnswer::Result,
            Some(message) => if !dry_run && (occurs(message@, "Save Place API"@) || occurs(message@, "SavePlace"@)) {
                StudioAnswer::UseCommand
            } else {
                StudioAnswer::Error
            },
        },
{
    match error {
        None => StudioAnswer::Result,
        Some(message) => if !dry_run && save_place_api_refused(message) {
            StudioAnswer::UseCommand
        } else {
            StudioAnswer::Error
        },
    }
}

/// Why no Studio is asked to publish.
#[derive(PartialEq, Eq, Structural, Clone, Copy, Debug)]
pub enum RuntimeError {
    NotBound,
    /// Another Studio was reviewed.
    Changed,
}

/// Checks that the Studio that is bound is the one that was reviewed, where one was.
pub fn check_runtime(runtime: &Option<String>, expected: &Option<String>) -> (r: Result<(), RuntimeError>)
    ensures
        r == if *runtime is None {
            Err(RuntimeError::NotBound)
        } else if *expected is Some && (*expected)->0@ != (*runtime)->0@ {
            Err(RuntimeError::Changed)
        } else {
            Ok(())
        },
{
    match runtime {
        None => Err(RuntimeError::NotBound),
        Some(runtime) => match expected {
            Some(expected) => if same(expected, runtime) {
                Ok(())
            } else {
                Err(RuntimeError::Changed)
            },
            None => Ok(()),
        },
    }
}

} // verus!
