//! Calendar dates, as notes carry them.

use crate::text;
use chrono::{Datelike, NaiveDate};
use vstd::prelude::*;

verus! {

/// Whether a year has a leap day.
pub open spec fn is_leap(year: int) -> bool {
    year % 4 == 0 && (year % 100 != 0 || year % 400 == 0)
}

/// How many days a month has.
pub open spec fn days_in(year: int, month: int) -> int {
    if month == 2 {
        if is_leap(year) {
            29
        } else {
            28
        }
    } else if month == 4 || month == 6 || month == 9 || month == 11 {
        30
    } else {
        31
    }
}

/// Whether a day is in the calendar, and in the range of years it covers.
pub open spec fn is_date(year: i32, month: u32, day: u32) -> bool {
    -262143 <= year <= 262142 && 1 <= month <= 12 && 1 <= day <= days_in(year as int, month as int)
}

/// Whether a text has the shape of a date: `YYYY-MM-DD`.
pub open spec fn is_shaped(text: Seq<char>) -> bool {
    &&& text.len() == 10
    &&& text[4] == '-'
    &&& text[7] == '-'
    &&& forall|i: int| 0 <= i < 10 && i != 4 && i != 7 ==> text::is_digit(#[trigger] text[i])
}

/// The year, the month and the day that a text of that shape spells.
pub open spec fn spelled(text: Seq<char>) -> (i32, u32, u32) {
    (
        text::digits_value(text.take(4)) as i32,
        text::digits_value(text.subrange(5, 7)) as u32,
        text::digits_value(text.subrange(8, 10)) as u32,
    )
}

/// `NaiveDate::parse_from_str`, asked for a year, a month and a day with
/// hyphens between them: of a text in just that shape it takes the three
/// numbers, and gives a date exactly where there is such a day. It reads looser
/// texts too, and other formats, and nothing is said of those.
#[verifier::external_body]
fn parse_ymd(text: &str, format: &str) -> (r: Option<(i32, u32, u32)>)
    requires
        format@ == "%Y-%m-%d"@,
        is_shaped(text@),
    ensures
        r == (if is_date(spelled(text@).0, spelled(text@).1, spelled(text@).2) {
            Some(spelled(text@))
        } else {
            None
        }),
{
    match NaiveDate::parse_from_str(text, format) {
        Ok(date) => Some((date.year(), date.month(), date.day())),
        Err(_) => None,
    }
}

/// `NaiveDate::from_ymd_opt`: there is a date exactly for the days of the
/// calendar within the years it covers.
#[verifier::external_body]
fn has_day(year: i32, month: u32, day: u32) -> (r: bool)
    ensures
        r == is_date(year, month, day),
{
    NaiveDate::from_ymd_opt(year, month, day).is_some()
}

/// A text with zeros before it up to a width.
pub open spec fn padded(s: Seq<char>, width: int) -> Seq<char>
    decreases width - s.len(),
{
    if s.len() < width {
        padded(seq!['0'] + s, width)
    } else {
        s
    }
}

/// A year in four digits, with a sign and as many digits as it takes where
/// four do not do.
pub open spec fn year_text(year: int) -> Seq<char> {
    if 0 <= year <= 9999 {
        padded(text::decimal(year as nat), 4)
    } else if year < 0 {
        seq!['-'] + padded(text::decimal((-year) as nat), 4)
    } else {
        seq!['+'] + padded(text::decimal(year as nat), 4)
    }
}

/// A date as text: `2026-07-30`.
pub open spec fn date_text(year: i32, month: u32, day: u32) -> Seq<char> {
    year_text(year as int) + seq!['-'] + padded(text::decimal(month as nat), 2) + seq!['-']
        + padded(text::decimal(day as nat), 2)
}

/// The `Display` of `NaiveDate`: the year, the month and the day with hyphens
/// between them, a year that four digits cannot hold with its sign.
#[verifier::external_body]
fn show_ymd(year: i32, month: u32, day: u32) -> (r: String)
    requires
        is_date(year, month, day),
    ensures
        r@ == date_text(year, month, day),
{
    NaiveDate::from_ymd_opt(year, month, day).unwrap().to_string()
}

/// A day of the calendar.
#[derive(Debug, Clone, Copy, PartialEq, Eq, Structural)]
pub struct Date {
    year: i32,
    month: u32,
    day: u32,
}

impl Date {
    #[verifier::type_invariant]
    spec fn is_in_calendar(self) -> bool {
        is_date(self.year, self.month, self.day)
    }

    /// Its year, month and day.
    pub closed spec fn parts(self) -> (i32, u32, u32) {
        (self.year, self.month, self.day)
    }

    /// The date made of a year, a month and a day.
    pub closed spec fn from_parts(parts: (i32, u32, u32)) -> Date {
        Date { year: parts.0, month: parts.1, day: parts.2 }
    }

    /// A date by its year, month and day, if there is such a day.
    pub fn new(year: i32, month: u32, day: u32) -> (r: Option<Date>)
        ensures
            r == (if is_date(year, month, day) {
                Some(Date::from_parts((year, month, day)))
            } else {
                None
            }),
    {
        if has_day(year, month, day) {
            Some(Date { year, month, day })
        } else {
            None
        }
    }

    /// The date a text spells as `YYYY-MM-DD`, if it does and there is such a
    /// day.
    pub fn parse(text: &str) -> (r: Option<Date>)
        ensures
            r == dated(text@),
    {
        if !has_shape(text) {
            return None;
        }
        match parse_ymd(text, "%Y-%m-%d") {
            Some((year, month, day)) => Some(Date { year, month, day }),
            None => None,
        }
    }

    /// The date as text.
    pub fn text(&self) -> (r: String)
        ensures
            r@ == show(*self),
    {
        proof {
            use_type_invariant(self);
        }
        show_ymd(self.year, self.month, self.day)
    }
}

/// The date that a text spells, if it spells one.
pub open spec fn dated(text: Seq<char>) -> Option<Date> {
    let (year, month, day) = spelled(text);
    if is_shaped(text) && is_date(year, month, day) {
        Some(Date::from_parts((year, month, day)))
    } else {
        None
    }
}

fn has_shape(text: &str) -> (r: bool)
    ensures
        r == is_shaped(text@),
{
    let chars = text::chars_of(text);
    if chars.len() != 10 || chars[4] != '-' || chars[7] != '-' {
        return false;
    }
    let mut i: usize = 0;
    while i < 10
        invariant
            chars@ == text@,
            chars@.len() == 10,
            forall|j: int| 0 <= j < i && j != 4 && j != 7 ==> text::is_digit(#[trigger] chars@[j]),
        decreases 10 - i,
    {
        let c = chars[i];
        if i != 4 && i != 7 && !('0' <= c && c <= '9') {
            assert(!text::is_digit(text@[i as int]));
            return false;
        }
        i = i + 1;
    }
    true
}

/// A date as text.
pub open spec fn show(date: Date) -> Seq<char> {
    let (year, month, day) = date.parts();
    date_text(year, month, day)
}

/// A date keeps the parts it was made of.
pub proof fn lemma_parts(parts: (i32, u32, u32))
    ensures
        Date::from_parts(parts).parts() == parts,
{
}

/// A date of a year that four digits hold reads back as it was written.
pub proof fn lemma_a_date_reads_back(year: i32, month: u32, day: u32)
    requires
        is_date(year, month, day),
        0 <= year <= 9999,
    ensures
        dated(show(Date::from_parts((year, month, day)))) == Some(
            Date::from_parts((year, month, day)),
        ),
{
    let y = padded(text::decimal(year as nat), 4);
    let m = padded(text::decimal(month as nat), 2);
    let d = padded(text::decimal(day as nat), 2);
    let all = date_text(year, month, day);
    lemma_padded(year as nat, 4);
    lemma_padded(month as nat, 2);
    lemma_padded(day as nat, 2);
    assert(all =~= y + seq!['-'] + m + seq!['-'] + d);
    assert(all.take(4) =~= y);
    assert(all.subrange(5, 7) =~= m);
    assert(all.subrange(8, 10) =~= d);
    assert forall|i: int| 0 <= i < 10 && i != 4 && i != 7 implies text::is_digit(
        #[trigger] all[i],
    ) by {
        if i < 4 {
            assert(all[i] == y[i]);
        } else if i < 7 {
            assert(all[i] == m[i - 5]);
        } else {
            assert(all[i] == d[i - 8]);
        }
    }
}

proof fn lemma_padded(n: nat, width: int)
    requires
        width == 2 && n < 100 || width == 4 && n < 10000,
    ensures
        padded(text::decimal(n), width).len() == width,
        text::digits_value(padded(text::decimal(n), width)) == n,
        forall|i: int|
            0 <= i < width ==> text::is_digit(#[trigger] padded(text::decimal(n), width)[i]),
{
    text::lemma_decimal_value(n);
    let s = text::decimal(n);
    assert(s.len() <= width) by {
        reveal_with_fuel(text::decimal, 4);
    }
    lemma_padding(s, width);
}

proof fn lemma_padding(s: Seq<char>, width: int)
    requires
        s.len() <= width,
        forall|i: int| 0 <= i < s.len() ==> text::is_digit(#[trigger] s[i]),
    ensures
        padded(s, width).len() == width,
        text::digits_value(padded(s, width)) == text::digits_value(s),
        forall|i: int| 0 <= i < width ==> text::is_digit(#[trigger] padded(s, width)[i]),
    decreases width - s.len(),
{
    if s.len() < width {
        let longer = seq!['0'] + s;
        text::lemma_leading_zero(s);
        assert forall|i: int| 0 <= i < longer.len() implies text::is_digit(
            #[trigger] longer[i],
        ) by {
            if i > 0 {
                assert(longer[i] == s[i - 1]);
            }
        }
        lemma_padding(longer, width);
    }
}

// ---- which days there are ----

/// There are thirty-one days in seven months, thirty in four, and in February
/// twenty-eight, or twenty-nine in a year that four divides, unless a hundred
/// does and four hundred does not.
pub proof fn lemma_which_days_there_are(year: i32, month: u32, day: u32)
    ensures
        is_date(year, month, day) == (-262143 <= year <= 262142 && 1 <= month <= 12 && 1 <= day
            && (day <= 28 || (day == 29 && (month != 2 || (year % 4 == 0 && (year % 100 != 0
            || year % 400 == 0)))) || (day == 30 && month != 2) || (day == 31 && (month == 1
            || month == 3 || month == 5 || month == 7 || month == 8 || month == 10 || month
            == 12)))),
{
}

proof fn lemma_padded_push(s: Seq<char>, c: char, width: int)
    ensures
        padded(s.push(c), width) == padded(s, width - 1).push(c),
    decreases width - s.len(),
{
    if s.len() + 1 < width {
        let more = seq!['0'] + s;
        lemma_padded_push(more, c, width);
        assert(seq!['0'] + s.push(c) =~= more.push(c));
    }
}

proof fn lemma_digits_spell(s: Seq<char>)
    requires
        s.len() > 0,
        forall|i: int| 0 <= i < s.len() ==> text::is_digit(#[trigger] s[i]),
    ensures
        padded(text::decimal(text::digits_value(s)), s.len() as int) == s,
    decreases s.len(),
{
    let rest = s.drop_last();
    let c = s.last();
    let n = s.len() as int;
    assert(text::is_digit(s[n - 1]));
    let d = (c as nat - 48) as nat;
    let v = text::digits_value(rest);
    assert(text::digit(d) == c);
    assert(text::digits_value(s) == v * 10 + d);
    assert(rest.push(c) =~= s);
    if rest.len() == 0 {
        assert(v == 0);
        assert(text::decimal(d) =~= seq![c]);
        assert(seq![c] =~= s);
    } else {
        assert forall|i: int| 0 <= i < rest.len() implies text::is_digit(#[trigger] rest[i]) by {
            assert(rest[i] == s[i]);
        }
        lemma_digits_spell(rest);
        if v == 0 {
            let zero = text::decimal(0);
            assert(zero =~= seq!['0']);
            assert(text::decimal(d) =~= seq![c]);
            assert(seq!['0'] + seq![c] =~= zero.push(c));
            assert(padded(seq![c], n) == padded(zero.push(c), n));
            lemma_padded_push(zero, c, n);
        } else {
            assert((v * 10 + d) / 10 == v && (v * 10 + d) % 10 == d);
            assert(text::decimal(v * 10 + d) == text::decimal(v).push(c));
            lemma_padded_push(text::decimal(v), c, n);
        }
    }
}

/// A text that spells a date is what the date is shown as: four digits, a dash,
/// two digits, a dash, two digits, and the day it names exists.
pub proof fn lemma_a_date_is_shown_as_it_is_spelled(t: Seq<char>)
    ensures
        match dated(t) {
            Some(date) => {
                let (year, month, day) = date.parts();
                show(date) == t && is_date(year, month, day) && 0 <= year <= 9999
            },
            None => true,
        },
{
    if dated(t) is Some {
        let (y, m, d) = (t.take(4), t.subrange(5, 7), t.subrange(8, 10));
        assert forall|i: int| 0 <= i < 4 implies text::is_digit(#[trigger] y[i]) by {
            assert(y[i] == t[i]);
        }
        assert forall|i: int| 0 <= i < 2 implies text::is_digit(#[trigger] m[i]) by {
            assert(m[i] == t[5 + i]);
        }
        assert forall|i: int| 0 <= i < 2 implies text::is_digit(#[trigger] d[i]) by {
            assert(d[i] == t[8 + i]);
        }
        lemma_digits_bound(y);
        lemma_digits_bound(m);
        lemma_digits_bound(d);
        lemma_digits_spell(y);
        lemma_digits_spell(m);
        lemma_digits_spell(d);
        lemma_parts(spelled(t));
        assert(t =~= y + seq!['-'] + m + seq!['-'] + d);
    }
}

proof fn lemma_digits_bound(s: Seq<char>)
    requires
        s.len() == 2 || s.len() == 4,
        forall|i: int| 0 <= i < s.len() ==> text::is_digit(#[trigger] s[i]),
    ensures
        s.len() == 2 ==> text::digits_value(s) < 100,
        s.len() == 4 ==> text::digits_value(s) < 10000,
{
    reveal_with_fuel(text::digits_value, 5);
    let n = s.len() as int;
    assert(text::is_digit(s[0]) && text::is_digit(s[1]));
    if n == 4 {
        assert(text::is_digit(s[2]) && text::is_digit(s[3]));
    }
}

/// A year of more than four digits is shown with a plus before it, one before
/// the year nought with a minus, and any other with neither.
pub proof fn lemma_a_far_year_has_a_sign(year: i32, month: u32, day: u32)
    requires
        is_date(year, month, day),
    ensures
        ({
            let t = show(Date::from_parts((year, month, day)));
            &&& t.len() > 0
            &&& year > 9999 ==> t[0] == '+'
            &&& year < 0 ==> t[0] == '-'
            &&& 0 <= year <= 9999 ==> text::is_digit(t[0])
        }),
{
    lemma_parts((year, month, day));
    if 0 <= year <= 9999 {
        lemma_padded(year as nat, 4);
        assert(text::is_digit(padded(text::decimal(year as nat), 4)[0]));
    }
}

} // verus!
