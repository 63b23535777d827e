//! Calendar dates as bank exports write them, and their canonical form.
//!
//! The canonical form is `yyyy-mm-dd`. A date read from an export is rewritten
//! to it when one of the known layouts fits; any other text is kept as it is.

use vstd::prelude::*;
use crate::text::{
    all_digits, char_of_digit, chars_of, digit_char, digit_of, digit_value, digits_value,
    find_char, is_digit, is_digit_char, position_of, text_of,
};

verus! {

/// A day of the calendar.
#[derive(Clone, Copy, Debug, PartialEq, Eq, Structural)]
pub struct CalendarDate {
    pub year: u16,
    pub month: u8,
    pub day: u8,
}

/// Whether `year` has a 29th of February.
pub open spec fn is_leap_year(year: int) -> bool {
    year % 4 == 0 && (year % 100 != 0 || year % 400 == 0)
}

/// The number of days of a month.
pub open spec fn days_in_month(year: int, month: int) -> int {
    if month == 2 {
        if is_leap_year(year) {
            29
        } else {
            28
        }
    } else if month == 4 || month == 6 || month == 9 || month == 11 {
        30
    } else {
        31
    }
}

/// Whether the three numbers name a day that exists, in a year of at most
/// four digits.
pub open spec fn valid_date(year: int, month: int, day: int) -> bool {
    0 <= year <= 9999 && 1 <= month <= 12 && 1 <= day <= days_in_month(year, month)
}

impl CalendarDate {
    /// Whether this is a day that exists.
    pub open spec fn valid(self) -> bool {
        valid_date(self.year as int, self.month as int, self.day as int)
    }

    /// The number of the month counted from January of the year 0.
    pub open spec fn month_index(self) -> int {
        self.year * 12 + self.month - 1
    }
}

/// The three fields that two separators cut a text into, if it holds at
/// least two separators. The third field runs to the end of the text.
pub open spec fn three_fields(s: Seq<char>, sep: char) -> Option<
    (Seq<char>, Seq<char>, Seq<char>),
> {
    let i = position_of(s, sep);
    if i < s.len() {
        let j = i + 1 + position_of(s.skip(i + 1), sep);
        if j < s.len() {
            Some((s.subrange(0, i), s.subrange(i + 1, j), s.subrange(j + 1, s.len() as int)))
        } else {
            None
        }
    } else {
        None
    }
}

/// The number that a field denotes, if it is made of digits and has between
/// `min_len` and `max_len` of them.
pub open spec fn field_number(f: Seq<char>, min_len: int, max_len: int) -> Option<int> {
    if all_digits(f) && min_len <= f.len() <= max_len {
        Some(digits_value(f))
    } else {
        None
    }
}

/// The date made of three numbers, if all three were read and name a day that
/// exists.
pub open spec fn date_from(year: Option<int>, month: Option<int>, day: Option<int>) -> Option<
    CalendarDate,
> {
    if year is Some && month is Some && day is Some && valid_date(
        year->Some_0,
        month->Some_0,
        day->Some_0,
    ) {
        Some(
            CalendarDate {
                year: year->Some_0 as u16,
                month: month->Some_0 as u8,
                day: day->Some_0 as u8,
            },
        )
    } else {
        None
    }
}

/// The year that a year field of `year_len` digits means: two digits count
/// from 2000, four digits are the year itself.
pub open spec fn year_number(f: Seq<char>, year_len: int) -> Option<int> {
    match field_number(f, year_len, year_len) {
        Some(y) => Some(
            if year_len == 2 {
                2000 + y
            } else {
                y
            },
        ),
        None => None,
    }
}

/// A date written day first: day, month and a year of `year_len` digits,
/// separated by `sep`.
pub open spec fn day_first(s: Seq<char>, sep: char, year_len: int) -> Option<CalendarDate> {
    match three_fields(s, sep) {
        Some((a, b, c)) => date_from(
            year_number(c, year_len),
            field_number(b, 1, 2),
            field_number(a, 1, 2),
        ),
        None => None,
    }
}

/// A date written year first: a year of four digits, month and day, separated
/// by hyphens.
pub open spec fn year_first(s: Seq<char>) -> Option<CalendarDate> {
    match three_fields(s, '-') {
        Some((a, b, c)) => date_from(
            year_number(a, 4),
            field_number(b, 1, 2),
            field_number(c, 1, 2),
        ),
        None => None,
    }
}

/// The date that a text denotes under the first layout that fits:
/// `d/m/yy`, `d/m/yyyy`, `d-m-yyyy`, `yyyy-m-d`.
pub open spec fn parsed_date(s: Seq<char>) -> Option<CalendarDate> {
    if day_first(s, '/', 2) is Some {
        day_first(s, '/', 2)
    } else if day_first(s, '/', 4) is Some {
        day_first(s, '/', 4)
    } else if day_first(s, '-', 4) is Some {
        day_first(s, '-', 4)
    } else {
        year_first(s)
    }
}

/// `n` written with two digits.
pub open spec fn two_digits(n: int) -> Seq<char> {
    seq![digit_char(n / 10 % 10), digit_char(n % 10)]
}

/// `n` written with four digits.
pub open spec fn four_digits(n: int) -> Seq<char> {
    seq![
        digit_char(n / 1000 % 10),
        digit_char(n / 100 % 10),
        digit_char(n / 10 % 10),
        digit_char(n % 10),
    ]
}

/// The canonical text `yyyy-mm-dd` of a date.
pub open spec fn iso_text(date: CalendarDate) -> Seq<char> {
    four_digits(date.year as int) + seq!['-'] + two_digits(date.month as int) + seq!['-']
        + two_digits(date.day as int)
}

/// The canonical form of a date text: `yyyy-mm-dd` when a layout fits, the
/// text itself when none does.
pub open spec fn normalized_date(s: Seq<char>) -> Seq<char> {
    match parsed_date(s) {
        Some(date) => iso_text(date),
        None => s,
    }
}

/// The date that a canonical text denotes: exactly `yyyy-mm-dd`, naming a day
/// that exists.
pub open spec fn iso_date(s: Seq<char>) -> Option<CalendarDate> {
    if s.len() == 10 && s[4] == '-' && s[7] == '-' {
        date_from(
            field_number(s.subrange(0, 4), 4, 4),
            field_number(s.subrange(5, 7), 2, 2),
            field_number(s.subrange(8, 10), 2, 2),
        )
    } else {
        None
    }
}

/// Reads the number in the window `[from, to)` of `v`, if the window holds
/// between `min_len` and `max_len` digits and nothing else.
pub(crate) fn read_number(v: &Vec<char>, from: usize, to: usize, min_len: usize, max_len: usize) -> (r:
    Option<u16>)
    requires
        from <= to <= v.len(),
        max_len <= 4,
    ensures
        match r {
            Some(n) => field_number(
                v@.subrange(from as int, to as int),
                min_len as int,
                max_len as int,
            ) == Some(n as int) && n <= 9999,
            None => field_number(
                v@.subrange(from as int, to as int),
                min_len as int,
                max_len as int,
            ) is None,
        },
{
    let len = to - from;
    if len < min_len || len > max_len {
        return None;
    }
    let ghost f = v@.subrange(from as int, to as int);
    let mut acc: u16 = 0;
    let mut k: usize = 0;
    while k < len
        invariant
            from <= to <= v.len(),
            len == to - from,
            len <= 4,
            k <= len,
            f == v@.subrange(from as int, to as int),
            all_digits(f.take(k as int)),
            acc == digits_value(f.take(k as int)),
            k == 0 ==> acc == 0,
            k == 1 ==> acc <= 9,
            k == 2 ==> acc <= 99,
            k == 3 ==> acc <= 999,
            k == 4 ==> acc <= 9999,
        decreases len - k,
    {
        let c = v[from + k];
        assert(f[k as int] == c);
        if !is_digit_char(c) {
            return None;
        }
        assert(f.take(k + 1).drop_last() == f.take(k as int));
        assert forall|j: int| 0 <= j < k + 1 implies is_digit(#[trigger] f.take(k + 1)[j]) by {
            if j < k {
                assert(f.take(k as int)[j] == f.take(k + 1)[j]);
            }
        }
        acc = acc * 10 + digit_of(c) as u16;
        k += 1;
    }
    assert(f.take(len as int) == f);
    Some(acc)
}

/// The positions of the first two separators of `v`, if it has two.
pub(crate) fn split_three(v: &Vec<char>, sep: char) -> (r: Option<(usize, usize)>)
    ensures
        match r {
            Some((i, j)) => i < j < v.len() && three_fields(v@, sep) == Some(
                (
                    v@.subrange(0, i as int),
                    v@.subrange(i + 1, j as int),
                    v@.subrange(j + 1, v.len() as int),
                ),
            ),
            None => three_fields(v@, sep) is None,
        },
{
    assert(v@.skip(0) == v@);
    let i = find_char(v, 0, sep);
    if i >= v.len() {
        return None;
    }
    let j = find_char(v, i + 1, sep);
    if j >= v.len() {
        return None;
    }
    Some((i, j))
}

/// Whether `year` has a 29th of February.
pub(crate) fn leap_year(year: u16) -> (r: bool)
    ensures
        r == is_leap_year(year as int),
{
    year % 4 == 0 && (year % 100 != 0 || year % 400 == 0)
}

/// The date made of three numbers, if they name a day that exists.
pub(crate) fn make_date(year: Option<u16>, month: Option<u16>, day: Option<u16>) -> (r: Option<
    CalendarDate,
>)
    requires
        year matches Some(y) ==> y <= 9999,
    ensures
        r == date_from(
            match year {
                Some(y) => Some(y as int),
                None => None,
            },
            match month {
                Some(m) => Some(m as int),
                None => None,
            },
            match day {
                Some(d) => Some(d as int),
                None => None,
            },
        ),
        r matches Some(date) ==> date.valid(),
{
    match (year, month, day) {
        (Some(y), Some(m), Some(d)) => {
            if m < 1 || m > 12 || d < 1 {
                return None;
            }
            let last: u16 = if m == 2 {
                if leap_year(y) {
                    29
                } else {
                    28
                }
            } else if m == 4 || m == 6 || m == 9 || m == 11 {
                30
            } else {
                31
            };
            if d > last {
                return None;
            }
            Some(CalendarDate { year: y, month: m as u8, day: d as u8 })
        },
        _ => None,
    }
}

/// Reads a date written day first, with a year of `year_len` digits.
pub(crate) fn read_day_first(v: &Vec<char>, sep: char, year_len: usize) -> (r: Option<CalendarDate>)
    requires
        year_len == 2 || year_len == 4,
    ensures
        r == day_first(v@, sep, year_len as int),
        r matches Some(date) ==> date.valid(),
{
    match split_three(v, sep) {
        Some((i, j)) => {
            let day = read_number(v, 0, i, 1, 2);
            let month = read_number(v, i + 1, j, 1, 2);
            let year = match read_number(v, j + 1, v.len(), year_len, year_len) {
                Some(y) => Some(
                    if year_len == 2 {
                        assert(y <= 99) by {
                            lemma_two_digits_bound(v@.subrange(j + 1, v.len() as int));
                        }
                        2000 + y
                    } else {
                        y
                    },
                ),
                None => None,
            };
            make_date(year, month, day)
        },
        None => None,
    }
}

/// Reads a date written year first.
pub(crate) fn read_year_first(v: &Vec<char>) -> (r: Option<CalendarDate>)
    ensures
        r == year_first(v@),
        r matches Some(date) ==> date.valid(),
{
    match split_three(v, '-') {
        Some((i, j)) => {
            let year = read_number(v, 0, i, 4, 4);
            let month = read_number(v, i + 1, j, 1, 2);
            let day = read_number(v, j + 1, v.len(), 1, 2);
            make_date(year, month, day)
        },
        None => None,
    }
}

/// Two digits denote a number below one hundred.
pub proof fn lemma_two_digits_bound(f: Seq<char>)
    requires
        all_digits(f),
        f.len() == 2,
    ensures
        0 <= digits_value(f) <= 99,
{
    reveal_with_fuel(digits_value, 3);
    assert(is_digit(f[0]) && is_digit(f[1]));
    assert(f.drop_last().last() == f[0]);
}

/// Reads a date in the first layout that fits.
pub fn parse_date(v: &Vec<char>) -> (r: Option<CalendarDate>)
    ensures
        r == parsed_date(v@),
        r matches Some(date) ==> date.valid(),
{
    let a = read_day_first(v, '/', 2);
    if a.is_some() {
        return a;
    }
    let b = read_day_first(v, '/', 4);
    if b.is_some() {
        return b;
    }
    let c = read_day_first(v, '-', 4);
    if c.is_some() {
        return c;
    }
    read_year_first(v)
}

/// Writes a date in canonical form.
pub(crate) fn iso_chars(date: CalendarDate) -> (out: Vec<char>)
    requires
        date.valid(),
    ensures
        out@ == iso_text(date),
{
    let y = date.year;
    let m = date.month;
    let d = date.day;
    let mut out: Vec<char> = Vec::new();
    out.push(char_of_digit((y / 1000 % 10) as u8));
    out.push(char_of_digit((y / 100 % 10) as u8));
    out.push(char_of_digit((y / 10 % 10) as u8));
    out.push(char_of_digit((y % 10) as u8));
    out.push('-');
    out.push(char_of_digit(m / 10 % 10));
    out.push(char_of_digit(m % 10));
    out.push('-');
    out.push(char_of_digit(d / 10 % 10));
    out.push(char_of_digit(d % 10));
    assert(out@ =~= iso_text(date));
    out
}

/// Rewrites a date text to `yyyy-mm-dd` when it is written in one of the
/// known layouts (`d/m/yy`, `d/m/yyyy`, `d-m-yyyy`, `yyyy-m-d`, tried in this
/// order) and names a day that exists. Any other text comes back unchanged.
pub fn normalize_date(text: &str) -> (out: String)
    ensures
        out@ == normalized_date(text@),
{
    let v = chars_of(text);
    match parse_date(&v) {
        Some(date) => text_of(&iso_chars(date)),
        None => text_of(&v),
    }
}

/// Reads a date in canonical form.
pub fn parse_iso_date(text: &str) -> (r: Option<CalendarDate>)
    ensures
        r == iso_date(text@),
        r matches Some(date) ==> date.valid(),
{
    let v = chars_of(text);
    if v.len() != 10 || v[4] != '-' || v[7] != '-' {
        return None;
    }
    let year = read_number(&v, 0, 4, 4, 4);
    let month = read_number(&v, 5, 7, 2, 2);
    let day = read_number(&v, 8, 10, 2, 2);
    make_date(year, month, day)
}

/// The digits of a number below ten thousand, written with four digits,
/// denote that number.
pub proof fn lemma_four_digits(n: int)
    requires
        0 <= n <= 9999,
    ensures
        all_digits(four_digits(n)),
        digits_value(four_digits(n)) == n,
        four_digits(n).len() == 4,
{
    let f = four_digits(n);
    reveal_with_fuel(digits_value, 5);
    assert(f.drop_last() =~= seq![f[0], f[1], f[2]]);
    assert(f.drop_last().drop_last() =~= seq![f[0], f[1]]);
    assert(f.drop_last().drop_last().drop_last() =~= seq![f[0]]);
    assert(f.drop_last().drop_last().drop_last().drop_last() =~= Seq::<char>::empty());
    assert(digit_value(f[0]) == n / 1000 % 10);
    assert(digit_value(f[1]) == n / 100 % 10);
    assert(digit_value(f[2]) == n / 10 % 10);
    assert(digit_value(f[3]) == n % 10);
}

/// The digits of a number below one hundred, written with two digits, denote
/// that number.
pub proof fn lemma_two_digits(n: int)
    requires
        0 <= n <= 99,
    ensures
        all_digits(two_digits(n)),
        digits_value(two_digits(n)) == n,
        two_digits(n).len() == 2,
{
    let f = two_digits(n);
    reveal_with_fuel(digits_value, 3);
    assert(f.drop_last() =~= seq![f[0]]);
    assert(f.drop_last().drop_last() =~= Seq::<char>::empty());
    assert(digit_value(f[0]) == n / 10 % 10);
    assert(digit_value(f[1]) == n % 10);
}

/// A date that was written in canonical form is read back as itself.
pub proof fn lemma_iso_round_trip(date: CalendarDate)
    requires
        date.valid(),
    ensures
        iso_date(iso_text(date)) == Some(date),
{
    let s = iso_text(date);
    lemma_four_digits(date.year as int);
    lemma_two_digits(date.month as int);
    lemma_two_digits(date.day as int);
    assert(s.len() == 10);
    assert(s.subrange(0, 4) =~= four_digits(date.year as int));
    assert(s.subrange(5, 7) =~= two_digits(date.month as int));
    assert(s.subrange(8, 10) =~= two_digits(date.day as int));
    assert(s[4] == '-' && s[7] == '-');
}

/// Every date that a layout gives is a day that exists.
pub proof fn lemma_parsed_date_valid(s: Seq<char>)
    ensures
        parsed_date(s) matches Some(date) ==> date.valid(),
{
}

/// A date text that fits a layout normalizes to a text that reads back as a
/// date in canonical form, with the date that the layout gave.
pub proof fn lemma_normalized_is_canonical(s: Seq<char>)
    requires
        parsed_date(s) is Some,
    ensures
        iso_date(normalized_date(s)) == parsed_date(s),
{
    lemma_parsed_date_valid(s);
    lemma_iso_round_trip(parsed_date(s)->Some_0);
}

/// A date in canonical form fits the last layout and none before it, and is
/// read as itself.
pub proof fn lemma_canonical_is_parsed(date: CalendarDate)
    requires
        date.valid(),
    ensures
        parsed_date(iso_text(date)) == Some(date),
{
    let s = iso_text(date);
    lemma_four_digits(date.year as int);
    lemma_two_digits(date.month as int);
    lemma_two_digits(date.day as int);
    let y = four_digits(date.year as int);
    let m = two_digits(date.month as int);
    let d = two_digits(date.day as int);
    assert(s =~= seq![y[0], y[1], y[2], y[3], '-', m[0], m[1], '-', d[0], d[1]]);
    assert(is_digit(y[0]) && is_digit(y[1]) && is_digit(y[2]) && is_digit(y[3]));
    assert(is_digit(m[0]) && is_digit(m[1]));
    assert(is_digit(d[0]) && is_digit(d[1]));
    reveal_with_fuel(position_of, 11);
    assert(position_of(s, '/') == 10);
    assert(three_fields(s, '/') is None);
    assert(position_of(s, '-') == 4);
    assert(s.skip(5) =~= seq![m[0], m[1], '-', d[0], d[1]]);
    assert(position_of(s.skip(5), '-') == 2);
    assert(s.subrange(0, 4) =~= y);
    assert(s.subrange(5, 7) =~= m);
    assert(s.subrange(8, 10) =~= d);
    assert(three_fields(s, '-') == Some((y, m, d)));
    assert(field_number(d, 4, 4) is None);
    assert(day_first(s, '-', 4) is None);
    assert(year_first(s) == Some(date));
}

/// Normalizing a date text twice gives what normalizing it once gives.
pub proof fn lemma_normalized_date_idempotent(s: Seq<char>)
    ensures
        normalized_date(normalized_date(s)) == normalized_date(s),
{
    lemma_parsed_date_valid(s);
    if parsed_date(s) is Some {
        lemma_canonical_is_parsed(parsed_date(s)->Some_0);
    }
}

} // verus!
