//! Money amounts and the text they are read from.
//!
//! An amount is a whole number of hundredths of the currency unit, held in an
//! `i64`: positive for money coming in, negative for money going out. Totals
//! over many amounts are held in an `i128`, which no ledger can overflow.

use vstd::prelude::*;
use crate::text::{
    all_digits, chars_of, digit_of, digit_value, digits_value, drop_char, drop_whitespace,
    is_digit, is_digit_char, position_of, skip_char, skip_whitespace, strip_leading, strip_trailing, trim,
    trim_chars, window,
};

verus! {

/// Amount texts denote fewer hundredths than this.
pub const AMOUNT_LIMIT: i64 = 1_000_000_000_000_000_000;

/// `s` without thousands separators and currency signs.
pub open spec fn without_separators(s: Seq<char>) -> Seq<char>
    decreases s.len(),
{
    if s.len() == 0 {
        s
    } else if s.last() == ',' || s.last() == '$' {
        without_separators(s.drop_last())
    } else {
        without_separators(s.drop_last()).push(s.last())
    }
}

/// The position of the first decimal point of `s`, or its length if it has none.
pub open spec fn dot_index(s: Seq<char>) -> int {
    position_of(s, '.')
}

/// The hundredths that the digits after the decimal point stand for.
pub open spec fn fraction_units(frac: Seq<char>) -> int {
    if frac.len() == 0 {
        0
    } else if frac.len() == 1 {
        digit_value(frac[0]) * 10
    } else {
        digit_value(frac[0]) * 10 + digit_value(frac[1])
    }
}

/// The hundredths that an unsigned decimal denotes: digits, then optionally a
/// point and at most two more digits, with at least one digit in all. `None`
/// for any other text, and for a number that reaches `AMOUNT_LIMIT`.
pub open spec fn unsigned_units(body: Seq<char>) -> Option<int> {
    let d = dot_index(body);
    let whole = body.take(d);
    let frac = if d < body.len() {
        body.skip(d + 1)
    } else {
        Seq::empty()
    };
    let v = digits_value(whole) * 100 + fraction_units(frac);
    if all_digits(whole) && all_digits(frac) && whole.len() + frac.len() >= 1 && frac.len() <= 2
        && v < AMOUNT_LIMIT {
        Some(v)
    } else {
        None
    }
}

/// Whether a cleaned amount text is written as a negative number: wrapped in
/// parentheses, or led by a minus sign.
pub open spec fn is_negative_form(c: Seq<char>) -> bool {
    c.len() > 0 && ((c.first() == '(' && c.last() == ')') || c.first() == '-')
}

/// The digits of a cleaned amount text: what is left once the parentheses
/// around it, the minus signs before it and the blanks around that are gone.
pub open spec fn amount_body(c: Seq<char>) -> Seq<char> {
    trim(strip_leading(strip_trailing(strip_leading(c, '('), ')'), '-'))
}

/// The amount that a cell denotes, in hundredths. A blank cell denotes zero;
/// `None` means that the cell cannot be read as an amount.
pub open spec fn amount_units(raw: Seq<char>) -> Option<int> {
    let t = trim(raw);
    if t.len() == 0 {
        Some(0)
    } else {
        let c = without_separators(t);
        match unsigned_units(amount_body(c)) {
            Some(v) => Some(
                if is_negative_form(c) {
                    -v
                } else {
                    v
                },
            ),
            None => None,
        }
    }
}

/// Every amount that can be read lies strictly between the limits.
pub proof fn lemma_amount_units_bounded(raw: Seq<char>)
    ensures
        amount_units(raw) matches Some(v) ==> -AMOUNT_LIMIT < v < AMOUNT_LIMIT,
{
    let t = trim(raw);
    if t.len() > 0 {
        let body = amount_body(without_separators(t));
        if unsigned_units(body) is Some {
            let d = dot_index(body);
            lemma_digits_value_nonnegative(body.take(d));
        }
    }
}

/// A run of digits denotes a number that is not negative.
pub proof fn lemma_digits_value_nonnegative(s: Seq<char>)
    requires
        all_digits(s),
    ensures
        digits_value(s) >= 0,
    decreases s.len(),
{
    if s.len() > 0 {
        assert(is_digit(s[s.len() - 1]));
        lemma_digits_value_nonnegative(s.drop_last());
    }
}

/// `v` without thousands separators and currency signs.
pub fn remove_separators(v: &Vec<char>) -> (out: Vec<char>)
    ensures
        out@ == without_separators(v@),
{
    let mut out: Vec<char> = Vec::new();
    let mut i: usize = 0;
    while i < v.len()
        invariant
            i <= v.len(),
            out@ == without_separators(v@.take(i as int)),
        decreases v.len() - i,
    {
        assert(v@.take(i + 1).drop_last() == v@.take(i as int));
        if v[i] != ',' && v[i] != '$' {
            out.push(v[i]);
        }
        i += 1;
    }
    assert(v@.take(v.len() as int) == v@);
    out
}

/// Reads an unsigned decimal with at most two places after the point.
pub fn parse_unsigned(body: &Vec<char>) -> (r: Option<i64>)
    ensures
        match r {
            Some(v) => unsigned_units(body@) == Some(v as int) && 0 <= v < AMOUNT_LIMIT,
            None => unsigned_units(body@) is None,
        },
{
    let n = body.len();
    let mut i: usize = 0;
    let mut acc: i64 = 0;
    let mut too_big = false;
    let mut malformed = false;
    assert(body@.skip(0) == body@);
    while i < n && body[i] != '.'
        invariant
            n == body.len(),
            i <= n,
            dot_index(body@) == i + dot_index(body@.skip(i as int)),
            malformed <==> !all_digits(body@.take(i as int)),
            !malformed ==> digits_value(body@.take(i as int)) >= 0,
            !malformed && !too_big ==> acc == digits_value(body@.take(i as int)),
            !malformed && too_big ==> digits_value(body@.take(i as int)) >= AMOUNT_LIMIT,
            0 <= acc < AMOUNT_LIMIT,
        decreases n - i,
    {
        assert(body@.skip(i as int).drop_first() == body@.skip(i + 1));
        assert(body@.take(i + 1).drop_last() == body@.take(i as int));
        assert(body@.take(i + 1).last() == body@[i as int]);
        let c = body[i];
        if !is_digit_char(c) {
            malformed = true;
        } else if !malformed {
            assert forall|j: int| 0 <= j < i + 1 implies is_digit(#[trigger] body@.take(i + 1)[j]) by {
                if j < i {
                    assert(body@.take(i as int)[j] == body@.take(i + 1)[j]);
                }
            }
            let d = digit_of(c) as i64;
            if too_big || acc > (AMOUNT_LIMIT - 1 - d) / 10 {
                too_big = true;
            } else {
                acc = acc * 10 + d;
            }
        } else {
            assert(!all_digits(body@.take(i + 1))) by {
                if all_digits(body@.take(i + 1)) {
                    assert forall|j: int| 0 <= j < i implies is_digit(
                        #[trigger] body@.take(i as int)[j],
                    ) by {
                        assert(body@.take(i as int)[j] == body@.take(i + 1)[j]);
                    }
                }
            }
        }
        proof {
            if malformed && is_digit(c) {
            } else if malformed {
                assert(!is_digit(body@.take(i + 1)[i as int]));
            }
        }
        i += 1;
    }
    assert(dot_index(body@) == i);
    let ghost whole = body@.take(i as int);
    let mut frac: i64 = 0;
    let mut frac_len: usize = 0;
    if i < n {
        let ghost tail = body@.skip(i + 1);
        frac_len = n - (i + 1);
        if frac_len > 2 {
            return None;
        }
        if frac_len >= 1 {
            let c0 = body[i + 1];
            assert(tail[0] == c0);
            if !is_digit_char(c0) {
                return None;
            }
            frac = digit_of(c0) as i64 * 10;
        }
        if frac_len == 2 {
            let c1 = body[i + 2];
            assert(tail[1] == c1);
            if !is_digit_char(c1) {
                return None;
            }
            frac = frac + digit_of(c1) as i64;
        }
        assert(all_digits(tail));
        assert(frac == fraction_units(tail));
    }
    if malformed || too_big || i + frac_len == 0 {
        return None;
    }
    let v: i128 = acc as i128 * 100 + frac as i128;
    if v >= AMOUNT_LIMIT as i128 {
        return None;
    }
    Some(v as i64)
}

/// Reads the amount written in a cell, in hundredths.
///
/// A blank cell is zero. Thousands separators and currency signs are
/// ignored; a number in parentheses, or after a minus sign, is negative.
/// `None` means that the cell holds no readable amount.
pub fn parse_amount(raw: &str) -> (r: Option<i64>)
    ensures
        match r {
            Some(v) => amount_units(raw@) == Some(v as int) && -AMOUNT_LIMIT < v < AMOUNT_LIMIT,
            None => amount_units(raw@) is None,
        },
{
    let chars = chars_of(raw);
    let t = trim_chars(&chars);
    if t.len() == 0 {
        return Some(0);
    }
    let c = remove_separators(&t);
    let n = c.len();
    let negative = n > 0 && ((c[0] == '(' && c[n - 1] == ')') || c[0] == '-');
    assert(c@.subrange(0, n as int) == c@);
    let a1 = skip_char(&c, 0, n, '(');
    let b1 = drop_char(&c, a1, n, ')');
    let a2 = skip_char(&c, a1, b1, '-');
    let a3 = skip_whitespace(&c, a2, b1);
    let b3 = drop_whitespace(&c, a3, b1);
    let body = window(&c, a3, b3);
    assert(body@ == amount_body(c@));
    match parse_unsigned(&body) {
        Some(v) => Some(
            if negative {
                -v
            } else {
                v
            },
        ),
        None => None,
    }
}

} // verus!
