//! The net-worth curve: twelve monthly points that end at a given month.
//!
//! The net worth at a month is the sum of all amounts of the ledger up to
//! and including that month. Only rows whose date is in canonical form count,
//! since only they say to which month they belong. The split into cash,
//! investments and debt is a fixed rule of thumb, not a measurement.

use vstd::prelude::*;
use crate::dates::{iso_chars, iso_date, iso_text, parse_iso_date, CalendarDate};
use crate::dto::{LedgerTransaction, LedgerTransactionView, NetWorthPoint, NetWorthPointView};
use crate::summary::{ledger_view, OUTFLOW_LIMIT};
use crate::text::text_of;

verus! {

/// The share of a positive net worth that is taken to be cash, in percent.
pub const CASH_PERCENT: i128 = 40;

/// The share of a positive net worth that is taken to be invested, in percent.
pub const INVESTED_PERCENT: i128 = 55;

/// The share of a negative net worth that is taken to be debt, in percent.
pub const DEBT_PERCENT: i128 = 20;

/// The number of points of a curve.
pub const CURVE_MONTHS: u32 = 12;

/// The number of the month of a date in canonical form, counted from January
/// of the year 0; `None` for any other text.
pub open spec fn month_index_of(date: Seq<char>) -> Option<int> {
    match iso_date(date) {
        Some(day) => Some(day.month_index()),
        None => None,
    }
}

/// What a row adds to the net worth at the month `last`: its amount, if its
/// date says that it belongs to that month or an earlier one.
pub open spec fn counted_through(row: LedgerTransactionView, last: int) -> int {
    match month_index_of(row.date) {
        Some(index) => if index <= last {
            row.amount
        } else {
            0
        },
        None => 0,
    }
}

/// The net worth at the month `last`: the sum of all amounts up to and
/// including that month.
pub open spec fn net_through(ledger: Seq<LedgerTransactionView>, last: int) -> int
    decreases ledger.len(),
{
    if ledger.len() == 0 {
        0
    } else {
        net_through(ledger.drop_last(), last) + counted_through(ledger.last(), last)
    }
}

/// `percent` hundredths of `value`, rounded down to a whole number; nothing
/// of a value that is not positive.
pub open spec fn share(value: int, percent: int) -> int {
    if value > 0 {
        value * percent / 100
    } else {
        0
    }
}

/// The first day of the month with the number `index`, in canonical form.
pub open spec fn month_label(index: int) -> Seq<char> {
    iso_text(CalendarDate { year: (index / 12) as u16, month: (index % 12 + 1) as u8, day: 1 })
}

/// The point of the curve at the month with the number `index`.
pub open spec fn point_at(ledger: Seq<LedgerTransactionView>, index: int) -> NetWorthPointView {
    let net = net_through(ledger, index);
    NetWorthPointView {
        date: month_label(index),
        net_worth: net,
        cash: share(net, CASH_PERCENT as int),
        invested: share(net, INVESTED_PERCENT as int),
        debt: share(-net, DEBT_PERCENT as int),
    }
}

/// The curve that ends at the month `last`: twelve points, the oldest first.
pub open spec fn curve(ledger: Seq<LedgerTransactionView>, last: int) -> Seq<NetWorthPointView> {
    Seq::new(CURVE_MONTHS as nat, |i: int| point_at(ledger, last - 11 + i))
}

/// The models of a sequence of points.
pub open spec fn points_view(points: Seq<NetWorthPoint>) -> Seq<NetWorthPointView> {
    points.map_values(|p: NetWorthPoint| p@)
}

/// The net worth at the month `last`.
pub fn net_worth_through(ledger: &Vec<LedgerTransaction>, last: u32) -> (net: i128)
    ensures
        net == net_through(ledger_view(ledger@), last as int),
        -(ledger@.len() * OUTFLOW_LIMIT) <= net <= ledger@.len() * OUTFLOW_LIMIT,
        i128::MIN < net,
{
    let ghost all = ledger_view(ledger@);
    let mut net: i128 = 0;
    let mut i: usize = 0;
    while i < ledger.len()
        invariant
            i <= ledger.len(),
            all == ledger_view(ledger@),
            net == net_through(all.take(i as int), last as int),
            -(i * OUTFLOW_LIMIT) <= net <= i * OUTFLOW_LIMIT,
        decreases ledger.len() - i,
    {
        assert(all.take(i + 1).drop_last() == all.take(i as int));
        assert(all.take(i + 1).last() == ledger@[i as int]@);
        let row = &ledger[i];
        match parse_iso_date(row.date.as_str()) {
            Some(day) => {
                let index = day.year as u32 * 12 + day.month as u32 - 1;
                if index <= last {
                    net = net + row.amount as i128;
                }
            },
            None => {},
        }
        i += 1;
    }
    assert(all.take(ledger.len() as int) == all);
    net
}

/// Cutting a value into hundreds and a rest cuts its share the same way.
proof fn lemma_share_by_parts(value: int, percent: int)
    requires
        value > 0,
        0 <= percent <= 100,
    ensures
        value * percent / 100 == (value / 100) * percent + (value % 100) * percent / 100,
        0 <= (value / 100) * percent <= 100 * (value / 100),
        0 <= (value % 100) * percent <= 100 * (value % 100),
{
    let q = value / 100;
    let r = value % 100;
    assert(value == 100 * q + r);
    assert(value * percent == 100 * (q * percent) + r * percent) by (nonlinear_arith)
        requires
            value == 100 * q + r,
    ;
    assert(0 <= q * percent <= q * 100) by (nonlinear_arith)
        requires
            0 <= q,
            0 <= percent <= 100,
    ;
    assert(0 <= r * percent <= r * 100) by (nonlinear_arith)
        requires
            0 <= r,
            0 <= percent <= 100,
    ;
    let x = q * percent;
    let y = r * percent;
    assert((100 * x + y) / 100 == x + y / 100);
}

/// `percent` hundredths of `value`, rounded down; nothing of a value that is
/// not positive.
pub fn share_of(value: i128, percent: i128) -> (r: i128)
    requires
        0 <= percent <= 100,
    ensures
        r == share(value as int, percent as int),
        0 <= r,
        value > 0 ==> r <= value,
{
    if value <= 0 {
        return 0;
    }
    proof {
        lemma_share_by_parts(value as int, percent as int);
    }
    (value / 100) * percent + (value % 100) * percent / 100
}

/// The first day of the month with the number `index`, in canonical form.
pub(crate) fn month_label_text(index: u32) -> (label: String)
    requires
        index < 120_000,
    ensures
        label@ == month_label(index as int),
{
    let day = CalendarDate { year: (index / 12) as u16, month: (index % 12 + 1) as u8, day: 1 };
    text_of(&iso_chars(day))
}

/// The net-worth curve that ends at the given month: twelve points, one a
/// month, the oldest first.
///
/// Each point holds the sum of all amounts up to and including its month,
/// and that sum split by rule of thumb: 40 hundredths of a positive net
/// worth as cash and 55 as investments, 20 hundredths of a negative one as
/// debt, each rounded down.
pub fn net_worth_curve(ledger: &Vec<LedgerTransaction>, year: u16, month: u8) -> (points: Vec<
    NetWorthPoint,
>)
    requires
        1 <= year <= 9999,
        1 <= month <= 12,
    ensures
        points_view(points@) == curve(ledger_view(ledger@), year * 12 + month - 1),
{
    let ghost all = ledger_view(ledger@);
    let last: u32 = year as u32 * 12 + month as u32 - 1;
    let mut points: Vec<NetWorthPoint> = Vec::new();
    let mut i: u32 = 0;
    while i < CURVE_MONTHS
        invariant
            i <= CURVE_MONTHS,
            all == ledger_view(ledger@),
            12 <= last < 120_000,
            points@.len() == i,
            forall|t: int|
                0 <= t < i ==> (#[trigger] points_view(points@)[t]) == point_at(
                    all,
                    last - 11 + t,
                ),
        decreases CURVE_MONTHS - i,
    {
        let index = last - 11 + i;
        let net = net_worth_through(ledger, index);
        let point = NetWorthPoint {
            date: month_label_text(index),
            net_worth: net,
            cash: share_of(net, CASH_PERCENT),
            invested: share_of(net, INVESTED_PERCENT),
            debt: share_of(-net, DEBT_PERCENT),
        };
        let ghost before = points_view(points@);
        points.push(point);
        assert forall|t: int| 0 <= t < i + 1 implies (#[trigger] points_view(points@)[t])
            == point_at(all, last - 11 + t) by {
            if t < i {
                assert(points_view(points@)[t] == before[t]);
            }
        }
        i += 1;
    }
    assert(points_view(points@) =~= curve(all, last as int));
    points
}

} // verus!
