//! Calendar dates: validity, ordering, the ISO 8601 text form used by the
//! persisted file, and the `DD Mon YYYY` form used for display.

use crate::text::{digit_char, digit_str, digit_val, digit_val_exec, is_digit, is_digit_exec};
use vstd::prelude::*;
use vstd::string::{StrSliceExecFns, StringExecFns};

verus! {

/// A calendar date of the proleptic Gregorian calendar, with no time of day.
/// Years are limited to the range that the four-digit ISO 8601 notation covers.
#[derive(Clone, Copy, PartialEq, Eq, Structural, Debug)]
pub struct Date {
    pub year: u32,
    pub month: u32,
    pub day: u32,
}

pub open spec fn spec_is_leap_year(y: int) -> bool {
    y % 4 == 0 && (y % 100 != 0 || y % 400 == 0)
}

pub open spec fn spec_days_in_month(y: int, m: int) -> int {
    if m == 2 {
        if spec_is_leap_year(y) {
            29
        } else {
            28
        }
    } else if m == 4 || m == 6 || m == 9 || m == 11 {
        30
    } else {
        31
    }
}

pub fn is_leap_year(y: u32) -> (r: bool)
    ensures
        r == spec_is_leap_year(y as int),
{
    y % 4 == 0 && (y % 100 != 0 || y % 400 == 0)
}

pub fn days_in_month(y: u32, m: u32) -> (r: u32)
    ensures
        r as int == spec_days_in_month(y as int, m as int),
{
    if m == 2 {
        if is_leap_year(y) {
            29
        } else {
            28
        }
    } else if m == 4 || m == 6 || m == 9 || m == 11 {
        30
    } else {
        31
    }
}

impl Date {
    /// A valid date: month and day in range for the year, year at most 9999.
    pub open spec fn wf(self) -> bool {
        &&& self.year <= 9999
        &&& 1 <= self.month <= 12
        &&& 1 <= self.day <= spec_days_in_month(self.year as int, self.month as int)
    }

    /// Chronological order, as a total order on valid dates.
    pub open spec fn spec_le(self, other: Date) -> bool {
        ||| self.year < other.year
        ||| (self.year == other.year && self.month < other.month)
        ||| (self.year == other.year && self.month == other.month && self.day <= other.day)
    }

    /// Builds a date after checking its validity.
    pub fn from_ymd(year: u32, month: u32, day: u32) -> (r: Option<Date>)
        ensures
            match r {
                Some(d) => d == (Date { year, month, day }) && d.wf(),
                None => !(Date { year, month, day }).wf(),
            },
    {
        if year <= 9999 && 1 <= month && month <= 12 && 1 <= day && day <= days_in_month(
            year,
            month,
        ) {
            Some(Date { year, month, day })
        } else {
            None
        }
    }

    /// Chronological comparison.
    pub fn le(self, other: Date) -> (r: bool)
        ensures
            r == self.spec_le(other),
    {
        self.year < other.year || (self.year == other.year && self.month < other.month) || (
        self.year == other.year && self.month == other.month && self.day <= other.day)
    }
}

/// `spec_le` is total: of two dates, one comes no later than the other.
pub proof fn lemma_date_le_total(a: Date, b: Date)
    ensures
        a.spec_le(b) || b.spec_le(a),
        a.spec_le(b) && b.spec_le(a) ==> a == b,
{
}

/// A number below 100 as two decimal digit characters.
pub open spec fn pad2(n: int) -> Seq<char> {
    seq![digit_char(n / 10 % 10), digit_char(n % 10)]
}

/// A number below 10000 as four decimal digit characters.
pub open spec fn pad4(n: int) -> Seq<char> {
    seq![
        digit_char(n / 1000 % 10),
        digit_char(n / 100 % 10),
        digit_char(n / 10 % 10),
        digit_char(n % 10),
    ]
}

fn push_pad2(out: &mut String, n: u32)
    requires
        n < 100,
    ensures
        final(out)@ == old(out)@ + pad2(n as int),
{
    out.append(digit_str(n / 10 % 10));
    out.append(digit_str(n % 10));
    proof {
        assert(old(out)@ + seq![digit_char(n as int / 10 % 10)] + seq![digit_char(n as int % 10)]
            =~= old(out)@ + pad2(n as int));
    }
}

fn push_pad4(out: &mut String, n: u32)
    requires
        n < 10000,
    ensures
        final(out)@ == old(out)@ + pad4(n as int),
{
    out.append(digit_str(n / 1000 % 10));
    out.append(digit_str(n / 100 % 10));
    out.append(digit_str(n / 10 % 10));
    out.append(digit_str(n % 10));
    proof {
        assert(old(out)@ + seq![digit_char(n as int / 1000 % 10)] + seq![
            digit_char(n as int / 100 % 10),
        ] + seq![digit_char(n as int / 10 % 10)] + seq![digit_char(n as int % 10)] =~= old(out)@
            + pad4(n as int));
    }
}

impl Date {
    /// The `YYYY-MM-DD` form stored in the persisted file.
    pub open spec fn spec_iso(self) -> Seq<char> {
        pad4(self.year as int) + seq!['-'] + pad2(self.month as int) + seq!['-'] + pad2(
            self.day as int,
        )
    }

    /// Appends the ISO 8601 form of the date.
    pub fn push_iso(self, out: &mut String)
        requires
            self.wf(),
        ensures
            final(out)@ == old(out)@ + self.spec_iso(),
    {
        push_pad4(out, self.year);
        out.append("-");
        push_pad2(out, self.month);
        out.append("-");
        push_pad2(out, self.day);
        proof {
            reveal_strlit("-");
            assert(old(out)@ + pad4(self.year as int) + "-"@ + pad2(self.month as int) + "-"@
                + pad2(self.day as int) =~= old(out)@ + self.spec_iso());
        }
    }

    /// The ISO 8601 form of the date.
    pub fn iso(self) -> (r: String)
        requires
            self.wf(),
        ensures
            r@ == self.spec_iso(),
    {
        let mut out = String::new();
        self.push_iso(&mut out);
        proof {
            assert(Seq::<char>::empty() + self.spec_iso() =~= self.spec_iso());
        }
        out
    }
}

/// The three-letter English abbreviation of a month.
pub open spec fn month_abbrev(m: int) -> Seq<char> {
    if m == 1 {
        seq!['J', 'a', 'n']
    } else if m == 2 {
        seq!['F', 'e', 'b']
    } else if m == 3 {
        seq!['M', 'a', 'r']
    } else if m == 4 {
        seq!['A', 'p', 'r']
    } else if m == 5 {
        seq!['M', 'a', 'y']
    } else if m == 6 {
        seq!['J', 'u', 'n']
    } else if m == 7 {
        seq!['J', 'u', 'l']
    } else if m == 8 {
        seq!['A', 'u', 'g']
    } else if m == 9 {
        seq!['S', 'e', 'p']
    } else if m == 10 {
        seq!['O', 'c', 't']
    } else if m == 11 {
        seq!['N', 'o', 'v']
    } else {
        seq!['D', 'e', 'c']
    }
}

fn month_str(m: u32) -> (r: &'static str)
    requires
        1 <= m <= 12,
    ensures
        r@ =~= month_abbrev(m as int),
{
    proof {
        reveal_strlit("Jan");
        reveal_strlit("Feb");
        reveal_strlit("Mar");
        reveal_strlit("Apr");
        reveal_strlit("May");
        reveal_strlit("Jun");
        reveal_strlit("Jul");
        reveal_strlit("Aug");
        reveal_strlit("Sep");
        reveal_strlit("Oct");
        reveal_strlit("Nov");
        reveal_strlit("Dec");
    }
    match m {
        1 => "Jan",
        2 => "Feb",
        3 => "Mar",
        4 => "Apr",
        5 => "May",
        6 => "Jun",
        7 => "Jul",
        8 => "Aug",
        9 => "Sep",
        10 => "Oct",
        11 => "Nov",
        _ => "Dec",
    }
}

impl Date {
    /// The `DD Mon YYYY` form used when a transaction is displayed.
    pub open spec fn spec_pretty(self) -> Seq<char> {
        pad2(self.day as int) + seq![' '] + month_abbrev(self.month as int) + seq![' '] + pad4(
            self.year as int,
        )
    }

    /// Appends the date as `DD Mon YYYY`.
    pub fn push_pretty(self, out: &mut String)
        requires
            self.wf(),
        ensures
            final(out)@ == old(out)@ + self.spec_pretty(),
    {
        push_pad2(out, self.day);
        out.append(" ");
        out.append(month_str(self.month));
        out.append(" ");
        push_pad4(out, self.year);
        proof {
            reveal_strlit(" ");
            assert(old(out)@ + pad2(self.day as int) + " "@ + month_abbrev(self.month as int)
                + " "@ + pad4(self.year as int) =~= old(out)@ + self.spec_pretty());
        }
    }
}

/// The date a `YYYY-MM-DD` string denotes, if it is one and is valid.
pub open spec fn spec_parse_date(s: Seq<char>) -> Option<Date> {
    if s.len() == 10 && s[4] == '-' && s[7] == '-' && is_digit(s[0]) && is_digit(s[1]) && is_digit(
        s[2],
    ) && is_digit(s[3]) && is_digit(s[5]) && is_digit(s[6]) && is_digit(s[8]) && is_digit(s[9]) {
        let y = digit_val(s[0]) * 1000 + digit_val(s[1]) * 100 + digit_val(s[2]) * 10 + digit_val(
            s[3],
        );
        let m = digit_val(s[5]) * 10 + digit_val(s[6]);
        let d = digit_val(s[8]) * 10 + digit_val(s[9]);
        let date = Date { year: y as u32, month: m as u32, day: d as u32 };
        if date.wf() {
            Some(date)
        } else {
            None
        }
    } else {
        None
    }
}

/// Reads a date in ISO 8601 `YYYY-MM-DD` form, rejecting impossible dates.
pub fn parse_date(s: &str) -> (r: Option<Date>)
    ensures
        r == spec_parse_date(s@),
{
    if s.unicode_len() != 10 {
        return None;
    }
    let c4 = s.get_char(4);
    let c7 = s.get_char(7);
    if c4 != '-' || c7 != '-' {
        return None;
    }
    let d0 = s.get_char(0);
    let d1 = s.get_char(1);
    let d2 = s.get_char(2);
    let d3 = s.get_char(3);
    let d5 = s.get_char(5);
    let d6 = s.get_char(6);
    let d8 = s.get_char(8);
    let d9 = s.get_char(9);
    if !(is_digit_exec(d0) && is_digit_exec(d1) && is_digit_exec(d2) && is_digit_exec(d3)
        && is_digit_exec(d5) && is_digit_exec(d6) && is_digit_exec(d8) && is_digit_exec(d9)) {
        return None;
    }
    let y: u32 = digit_val_exec(d0) * 1000 + digit_val_exec(d1) * 100 + digit_val_exec(d2) * 10
        + digit_val_exec(d3);
    let m: u32 = digit_val_exec(d5) * 10 + digit_val_exec(d6);
    let d: u32 = digit_val_exec(d8) * 10 + digit_val_exec(d9);
    Date::from_ymd(y, m, d)
}

/// The decimal digits of a number below 100 recombine into it.
proof fn lemma_decimal2(n: int)
    requires
        0 <= n < 100,
    ensures
        n / 10 % 10 * 10 + n % 10 == n,
{
    assert(n / 10 % 10 == n / 10);
    assert(n / 10 * 10 + n % 10 == n);
}

/// The decimal digits of a number below 10000 recombine into it.
proof fn lemma_decimal4(n: int)
    requires
        0 <= n < 10000,
    ensures
        n / 1000 % 10 * 1000 + n / 100 % 10 * 100 + n / 10 % 10 * 10 + n % 10 == n,
{
    assert(n / 1000 % 10 == n / 1000);
    assert(n / 100 % 10 == n / 100 - n / 1000 * 10) by {
        assert(n / 100 / 10 == n / 1000);
        assert(n / 100 % 10 == n / 100 - n / 100 / 10 * 10);
    }
    assert(n / 10 % 10 == n / 10 - n / 100 * 10) by {
        assert(n / 10 / 10 == n / 100);
        assert(n / 10 % 10 == n / 10 - n / 10 / 10 * 10);
    }
    assert(n % 10 == n - n / 10 * 10);
}

/// The ISO form of a date is ten characters of digits and hyphens.
pub proof fn lemma_iso_chars(d: Date)
    ensures
        d.spec_iso().len() == 10,
        forall|j: int|
            0 <= j < d.spec_iso().len() ==> (#[trigger] d.spec_iso()[j]) == '-' || is_digit(
                d.spec_iso()[j],
            ),
{
    let s = d.spec_iso();
    assert forall|j: int| 0 <= j < s.len() implies (#[trigger] s[j]) == '-' || is_digit(s[j]) by {
        lemma_digit_char_is_digit(d.year as int / 1000 % 10);
        lemma_digit_char_is_digit(d.year as int / 100 % 10);
        lemma_digit_char_is_digit(d.year as int / 10 % 10);
        lemma_digit_char_is_digit(d.year as int % 10);
        lemma_digit_char_is_digit(d.month as int / 10 % 10);
        lemma_digit_char_is_digit(d.month as int % 10);
        lemma_digit_char_is_digit(d.day as int / 10 % 10);
        lemma_digit_char_is_digit(d.day as int % 10);
    }
}

/// The character of a digit below ten is a digit character.
proof fn lemma_digit_char_is_digit(x: int)
    requires
        0 <= x < 10,
    ensures
        is_digit(digit_char(x)),
{
}

/// Reading back the ISO form of a valid date yields the same date.
pub proof fn lemma_date_round_trip(d: Date)
    requires
        d.wf(),
    ensures
        spec_parse_date(d.spec_iso()) == Some(d),
{
    let s = d.spec_iso();
    let y = d.year as int;
    let m = d.month as int;
    let dd = d.day as int;
    assert(s.len() == 10);
    assert(s[4] == '-');
    assert(s[7] == '-');
    assert(s[0] == digit_char(y / 1000 % 10));
    assert(s[1] == digit_char(y / 100 % 10));
    assert(s[2] == digit_char(y / 10 % 10));
    assert(s[3] == digit_char(y % 10));
    assert(s[5] == digit_char(m / 10 % 10));
    assert(s[6] == digit_char(m % 10));
    assert(s[8] == digit_char(dd / 10 % 10));
    assert(s[9] == digit_char(dd % 10));
    lemma_digit_char_val(y / 1000 % 10);
    lemma_digit_char_val(y / 100 % 10);
    lemma_digit_char_val(y / 10 % 10);
    lemma_digit_char_val(y % 10);
    lemma_digit_char_val(m / 10 % 10);
    lemma_digit_char_val(m % 10);
    lemma_digit_char_val(dd / 10 % 10);
    lemma_digit_char_val(dd % 10);
    lemma_decimal4(y);
    lemma_decimal2(m);
    lemma_decimal2(dd);
}

/// A digit character holds the digit it was made from.
proof fn lemma_digit_char_val(x: int)
    requires
        0 <= x < 10,
    ensures
        is_digit(digit_char(x)),
        digit_val(digit_char(x)) == x,
{
}

} // verus!
