//! The monthly summary: what was spent in a month, by category, and how that
//! stands against the budgets.
//!
//! Only outflows count: rows with a negative amount, taken by their absolute
//! value. A row belongs to a month when its date starts with the month's
//! text and a hyphen.

use vstd::prelude::*;
use crate::dto::{
    amounts_view, usages_view, BudgetConfig, BudgetConfigView, BudgetUsage, BudgetUsageView,
    CategoryAmount, CategoryAmountView, LedgerTransaction, LedgerTransactionView,
    SummaryResponse, SummaryResponseView,
};
use crate::sorting::{is_sorted_order, keys_view, lists, ranks_before, sorted_order, SortKey};
use crate::text::{
    chars_of, lemma_text_lt_irreflexive, lemma_text_lt_transitive, matches_at, text_lt,
};

verus! {

/// The models of a sequence of ledger rows.
pub open spec fn ledger_view(rows: Seq<LedgerTransaction>) -> Seq<LedgerTransactionView> {
    rows.map_values(|row: LedgerTransaction| row@)
}

/// The models of a sequence of budgets.
pub open spec fn budgets_view(budgets: Seq<BudgetConfig>) -> Seq<BudgetConfigView> {
    budgets.map_values(|b: BudgetConfig| b@)
}

/// Whether no category has two budgets.
pub open spec fn distinct_categories(budgets: Seq<BudgetConfigView>) -> bool {
    forall|i: int, j: int|
        0 <= i < j < budgets.len() ==> (#[trigger] budgets[i]).category != (
        #[trigger] budgets[j]).category
}

/// Whether a date falls in a month: the date is the month's text, a hyphen,
/// and whatever follows.
pub open spec fn in_month(date: Seq<char>, month: Seq<char>) -> bool {
    month.len() < date.len() && date.take(month.len() as int) == month && date[month.len() as int]
        == '-'
}

/// What a row takes out of the account in a month: the absolute value of its
/// amount if it is negative and the row falls in the month, else nothing.
pub open spec fn outflow(row: LedgerTransactionView, month: Seq<char>) -> int {
    if row.amount < 0 && in_month(row.date, month) {
        -row.amount
    } else {
        0
    }
}

/// The category under which a row is reported; rows without one are
/// reported as `Uncategorized`.
pub open spec fn label_of(row: LedgerTransactionView) -> Seq<char> {
    match row.category {
        Some(category) => category,
        None => "Uncategorized"@,
    }
}

/// The sum of all outflows of a month.
pub open spec fn total_spend(ledger: Seq<LedgerTransactionView>, month: Seq<char>) -> int
    decreases ledger.len(),
{
    if ledger.len() == 0 {
        0
    } else {
        total_spend(ledger.drop_last(), month) + outflow(ledger.last(), month)
    }
}

/// The sum of the outflows of a month that are reported under `label`.
pub open spec fn label_spend(
    ledger: Seq<LedgerTransactionView>,
    month: Seq<char>,
    label: Seq<char>,
) -> int
    decreases ledger.len(),
{
    if ledger.len() == 0 {
        0
    } else {
        label_spend(ledger.drop_last(), month, label) + if label_of(ledger.last()) == label {
            outflow(ledger.last(), month)
        } else {
            0
        }
    }
}

/// The sum of the outflows of a month whose rows carry the category
/// `category`.
pub open spec fn category_spend(
    ledger: Seq<LedgerTransactionView>,
    month: Seq<char>,
    category: Seq<char>,
) -> int
    decreases ledger.len(),
{
    if ledger.len() == 0 {
        0
    } else {
        category_spend(ledger.drop_last(), month, category) + if ledger.last().category == Some(
            category,
        ) {
            outflow(ledger.last(), month)
        } else {
            0
        }
    }
}

/// Whether `a` is reported before `b`: the larger amount first, and of two
/// equal amounts the category that comes first by name.
pub open spec fn outranks(a: CategoryAmountView, b: CategoryAmountView) -> bool {
    a.amount > b.amount || (a.amount == b.amount && text_lt(a.category, b.category))
}

/// Whether `out` is the breakdown of a month by category: one entry for
/// every label with outflows, none for any other, each with the sum of its
/// outflows, the largest first.
pub open spec fn is_category_breakdown(
    ledger: Seq<LedgerTransactionView>,
    month: Seq<char>,
    out: Seq<CategoryAmountView>,
) -> bool {
    &&& forall|i: int|
        0 <= i < out.len() ==> (#[trigger] out[i]).amount == label_spend(
            ledger,
            month,
            out[i].category,
        ) && out[i].amount > 0
    &&& forall|label: Seq<char>| #[trigger]
        label_spend(ledger, month, label) > 0 ==> has_label(out, label)
    &&& forall|i: int, j: int|
        0 <= i < j < out.len() ==> outranks(#[trigger] out[i], #[trigger] out[j])
}

/// Whether `out` has an entry for `label`.
pub open spec fn has_label(out: Seq<CategoryAmountView>, label: Seq<char>) -> bool {
    exists|i: int| 0 <= i < out.len() && (#[trigger] out[i]).category == label
}

/// Whether `category` is a budget with the cap `cap`.
pub open spec fn configured(budgets: Seq<BudgetConfigView>, category: Seq<char>, cap: int) -> bool {
    exists|j: int|
        0 <= j < budgets.len() && (#[trigger] budgets[j]).category == category && budgets[j].cap
            == cap
}

/// Whether `out` reports on the budget of `category`.
pub open spec fn reported(out: Seq<BudgetUsageView>, category: Seq<char>) -> bool {
    exists|i: int| 0 <= i < out.len() && (#[trigger] out[i]).category == category
}

/// Whether `out` reports on the budget of `category` with the cap `cap`.
pub open spec fn reported_with_cap(out: Seq<BudgetUsageView>, category: Seq<char>, cap: int) -> bool {
    exists|i: int|
        0 <= i < out.len() && (#[trigger] out[i]).category == category && out[i].cap == cap
}

/// Whether `out` holds the budgets against a month's spending: one entry for
/// every budget and none besides, each with the budget's cap and what the
/// month's rows of that category took out, in the order of the category
/// names.
pub open spec fn is_budget_usage(
    ledger: Seq<LedgerTransactionView>,
    month: Seq<char>,
    budgets: Seq<BudgetConfigView>,
    out: Seq<BudgetUsageView>,
) -> bool {
    &&& out.len() == budgets.len()
    &&& forall|i: int|
        0 <= i < out.len() ==> configured(budgets, (#[trigger] out[i]).category, out[i].cap)
            && out[i].spent == category_spend(ledger, month, out[i].category)
    &&& forall|j: int|
        0 <= j < budgets.len() ==> reported(out, (#[trigger] budgets[j]).category)
    &&& forall|i: int, j: int|
        0 <= i < j < out.len() ==> text_lt(
            (#[trigger] out[i]).category,
            (#[trigger] out[j]).category,
        )
}

/// Whether `out` is the summary of `month`.
pub open spec fn is_summary(
    ledger: Seq<LedgerTransactionView>,
    budgets: Seq<BudgetConfigView>,
    month: Seq<char>,
    out: SummaryResponseView,
) -> bool {
    &&& out.month == month
    &&& out.total_spend == total_spend(ledger, month)
    &&& is_category_breakdown(ledger, month, out.by_category)
    &&& is_budget_usage(ledger, month, budgets, out.budgets)
}

/// A category without outflows in a month has spent nothing.
pub proof fn lemma_no_outflow_no_spend(
    ledger: Seq<LedgerTransactionView>,
    month: Seq<char>,
    category: Seq<char>,
)
    requires
        forall|r: int|
            0 <= r < ledger.len() ==> !((#[trigger] ledger[r]).category == Some(category)
                && outflow(ledger[r], month) > 0),
    ensures
        category_spend(ledger, month, category) == 0,
    decreases ledger.len(),
{
    if ledger.len() > 0 {
        let front = ledger.drop_last();
        assert forall|r: int| 0 <= r < front.len() implies !((#[trigger] front[r]).category
            == Some(category) && outflow(front[r], month) > 0) by {
            assert(front[r] == ledger[r]);
        }
        lemma_no_outflow_no_spend(front, month, category);
        assert(ledger.last() == ledger[ledger.len() - 1]);
    }
}

/// The budgets of a summary are complete: every configured budget has exactly
/// one entry, with its cap, and an entry whose category has no outflows in
/// the month reports that nothing was spent.
pub proof fn lemma_budget_join_complete(
    ledger: Seq<LedgerTransactionView>,
    month: Seq<char>,
    budgets: Seq<BudgetConfigView>,
    out: Seq<BudgetUsageView>,
)
    requires
        distinct_categories(budgets),
        is_budget_usage(ledger, month, budgets, out),
    ensures
        out.len() == budgets.len(),
        forall|j: int|
            0 <= j < budgets.len() ==> reported_with_cap(
                out,
                (#[trigger] budgets[j]).category,
                budgets[j].cap,
            ),
        forall|i: int, k: int|
            0 <= i < out.len() && 0 <= k < out.len() && (#[trigger] out[i]).category == (
            #[trigger] out[k]).category ==> i == k,
        forall|i: int|
            0 <= i < out.len() && (forall|r: int|
                0 <= r < ledger.len() ==> !((#[trigger] ledger[r]).category == Some(
                    out[i].category,
                ) && outflow(ledger[r], month) > 0)) ==> (#[trigger] out[i]).spent == 0,
{
    assert forall|j: int| 0 <= j < budgets.len() implies reported_with_cap(
        out,
        (#[trigger] budgets[j]).category,
        budgets[j].cap,
    ) by {
        assert(reported(out, budgets[j].category));
        let i = choose|i: int| 0 <= i < out.len() && (#[trigger] out[i]).category == budgets[j].category;
        assert(configured(budgets, out[i].category, out[i].cap));
        let j2 = choose|j2: int|
            0 <= j2 < budgets.len() && (#[trigger] budgets[j2]).category == out[i].category
                && budgets[j2].cap == out[i].cap;
        if j2 < j {
            assert(budgets[j2].category != budgets[j].category);
        } else if j < j2 {
            assert(budgets[j].category != budgets[j2].category);
        }
    }
    assert forall|i: int, k: int|
        0 <= i < out.len() && 0 <= k < out.len() && (#[trigger] out[i]).category == (
        #[trigger] out[k]).category implies i == k by {
        lemma_text_lt_irreflexive(out[i].category);
    }
    assert forall|i: int|
        0 <= i < out.len() && (forall|r: int|
            0 <= r < ledger.len() ==> !((#[trigger] ledger[r]).category == Some(out[i].category)
                && outflow(ledger[r], month) > 0)) implies (#[trigger] out[i]).spent == 0 by {
        lemma_no_outflow_no_spend(ledger, month, out[i].category);
    }
}

/// Of two entries, at most one is reported before the other, and none before
/// itself.
pub proof fn lemma_outranks_asymmetric(a: CategoryAmountView, b: CategoryAmountView)
    requires
        outranks(a, b),
    ensures
        !outranks(b, a),
        a != b,
{
    lemma_text_lt_irreflexive(a.category);
    if a.amount == b.amount && text_lt(b.category, a.category) {
        lemma_text_lt_transitive(a.category, b.category, a.category);
    }
}

proof fn lemma_breakdowns_agree(
    ledger: Seq<LedgerTransactionView>,
    month: Seq<char>,
    first: Seq<CategoryAmountView>,
    second: Seq<CategoryAmountView>,
    i: int,
)
    requires
        is_category_breakdown(ledger, month, first),
        is_category_breakdown(ledger, month, second),
        0 <= i < first.len(),
        i < second.len(),
    ensures
        forall|t: int| 0 <= t <= i ==> first[t] == second[t],
    decreases i,
{
    if i > 0 {
        lemma_breakdowns_agree(ledger, month, first, second, i - 1);
    }
    let a = first[i];
    let b = second[i];
    if a.category != b.category {
        assert(label_spend(ledger, month, a.category) > 0);
        assert(has_label(second, a.category));
        let j = choose|j: int| 0 <= j < second.len() && (#[trigger] second[j]).category == a.category;
        assert(second[j] == a);
        if j < i {
            assert(first[j] == second[j]);
            assert(outranks(first[j], first[i]));
            lemma_outranks_asymmetric(first[j], first[i]);
        }
        assert(outranks(second[i], second[j]));
        assert(label_spend(ledger, month, b.category) > 0);
        assert(has_label(first, b.category));
        let k = choose|k: int| 0 <= k < first.len() && (#[trigger] first[k]).category == b.category;
        assert(first[k] == b);
        if k < i {
            assert(first[k] == second[k]);
            assert(outranks(second[k], second[i]));
            lemma_outranks_asymmetric(second[k], second[i]);
        }
        assert(outranks(first[i], first[k]));
        lemma_outranks_asymmetric(a, b);
    }
}

proof fn lemma_breakdown_not_longer(
    ledger: Seq<LedgerTransactionView>,
    month: Seq<char>,
    first: Seq<CategoryAmountView>,
    second: Seq<CategoryAmountView>,
)
    requires
        is_category_breakdown(ledger, month, first),
        is_category_breakdown(ledger, month, second),
    ensures
        second.len() <= first.len(),
{
    let n = first.len() as int;
    if second.len() > n {
        let extra = second[n];
        assert(label_spend(ledger, month, extra.category) > 0);
        assert(has_label(first, extra.category));
        let k = choose|k: int| 0 <= k < n && (#[trigger] first[k]).category == extra.category;
        lemma_breakdowns_agree(ledger, month, first, second, k);
        assert(first[k] == second[k]);
        assert(outranks(second[k], second[n]));
        lemma_outranks_asymmetric(second[k], second[n]);
    }
}

/// A month has one breakdown by category only.
pub proof fn lemma_category_breakdown_unique(
    ledger: Seq<LedgerTransactionView>,
    month: Seq<char>,
    first: Seq<CategoryAmountView>,
    second: Seq<CategoryAmountView>,
)
    requires
        is_category_breakdown(ledger, month, first),
        is_category_breakdown(ledger, month, second),
    ensures
        first == second,
{
    lemma_breakdown_not_longer(ledger, month, first, second);
    lemma_breakdown_not_longer(ledger, month, second, first);
    assert forall|i: int| 0 <= i < first.len() implies first[i] == second[i] by {
        lemma_breakdowns_agree(ledger, month, first, second, i);
    }
    assert(first =~= second);
}

proof fn lemma_usages_agree(
    ledger: Seq<LedgerTransactionView>,
    month: Seq<char>,
    budgets: Seq<BudgetConfigView>,
    first: Seq<BudgetUsageView>,
    second: Seq<BudgetUsageView>,
    i: int,
)
    requires
        is_budget_usage(ledger, month, budgets, first),
        is_budget_usage(ledger, month, budgets, second),
        0 <= i < first.len(),
    ensures
        forall|t: int| 0 <= t <= i ==> first[t].category == second[t].category,
    decreases i,
{
    if i > 0 {
        lemma_usages_agree(ledger, month, budgets, first, second, i - 1);
    }
    let a = first[i].category;
    let b = second[i].category;
    if a != b {
        assert(configured(budgets, first[i].category, first[i].cap));
        let ja = choose|j: int|
            0 <= j < budgets.len() && (#[trigger] budgets[j]).category == a && budgets[j].cap
                == first[i].cap;
        assert(reported(second, budgets[ja].category));
        let j = choose|j: int| 0 <= j < second.len() && (#[trigger] second[j]).category == a;
        if j < i {
            assert(first[j].category == second[j].category);
            assert(text_lt(first[j].category, first[i].category));
            lemma_text_lt_irreflexive(a);
        }
        assert(text_lt(second[i].category, second[j].category));
        assert(configured(budgets, second[i].category, second[i].cap));
        let jb = choose|j: int|
            0 <= j < budgets.len() && (#[trigger] budgets[j]).category == b && budgets[j].cap
                == second[i].cap;
        assert(reported(first, budgets[jb].category));
        let k = choose|k: int| 0 <= k < first.len() && (#[trigger] first[k]).category == b;
        if k < i {
            assert(first[k].category == second[k].category);
            assert(text_lt(second[k].category, second[i].category));
            lemma_text_lt_irreflexive(b);
        }
        assert(text_lt(first[i].category, first[k].category));
        lemma_text_lt_transitive(a, b, a);
        lemma_text_lt_irreflexive(a);
    }
}

/// The budgets have one usage report for a month only.
pub proof fn lemma_budget_usage_unique(
    ledger: Seq<LedgerTransactionView>,
    month: Seq<char>,
    budgets: Seq<BudgetConfigView>,
    first: Seq<BudgetUsageView>,
    second: Seq<BudgetUsageView>,
)
    requires
        distinct_categories(budgets),
        is_budget_usage(ledger, month, budgets, first),
        is_budget_usage(ledger, month, budgets, second),
    ensures
        first == second,
{
    assert forall|i: int| 0 <= i < first.len() implies first[i] == second[i] by {
        lemma_usages_agree(ledger, month, budgets, first, second, i);
        assert(first[i].category == second[i].category);
        assert(configured(budgets, first[i].category, first[i].cap));
        let ja = choose|j: int|
            0 <= j < budgets.len() && (#[trigger] budgets[j]).category == first[i].category
                && budgets[j].cap == first[i].cap;
        assert(configured(budgets, second[i].category, second[i].cap));
        let jb = choose|j: int|
            0 <= j < budgets.len() && (#[trigger] budgets[j]).category == second[i].category
                && budgets[j].cap == second[i].cap;
        if ja < jb {
            assert(budgets[ja].category != budgets[jb].category);
        } else if jb < ja {
            assert(budgets[jb].category != budgets[ja].category);
        }
    }
    assert(first =~= second);
}

/// A month has one summary only.
pub proof fn lemma_summary_unique(
    ledger: Seq<LedgerTransactionView>,
    budgets: Seq<BudgetConfigView>,
    month: Seq<char>,
    first: SummaryResponseView,
    second: SummaryResponseView,
)
    requires
        distinct_categories(budgets),
        is_summary(ledger, budgets, month, first),
        is_summary(ledger, budgets, month, second),
    ensures
        first == second,
{
    lemma_category_breakdown_unique(ledger, month, first.by_category, second.by_category);
    lemma_budget_usage_unique(ledger, month, budgets, first.budgets, second.budgets);
}

/// The largest absolute value of an amount.
pub const OUTFLOW_LIMIT: i128 = 0x8000_0000_0000_0000;

/// Whether a date falls in a month.
pub fn date_in_month(date: &Vec<char>, month: &Vec<char>) -> (r: bool)
    ensures
        r == in_month(date@, month@),
{
    if month.len() >= date.len() {
        return false;
    }
    matches_at(date, month, 0) && date[month.len()] == '-'
}

/// What a row takes out of the account in a month.
pub fn outflow_of(row: &LedgerTransaction, month: &Vec<char>) -> (o: i128)
    ensures
        o == outflow(row@, month@),
        0 <= o <= OUTFLOW_LIMIT,
{
    if row.amount < 0 && date_in_month(&chars_of(row.date.as_str()), month) {
        -(row.amount as i128)
    } else {
        0
    }
}

/// The sum of all outflows of a month.
pub fn month_total(ledger: &Vec<LedgerTransaction>, month: &Vec<char>) -> (total: i128)
    ensures
        total == total_spend(ledger_view(ledger@), month@),
{
    let ghost all = ledger_view(ledger@);
    let mut total: i128 = 0;
    let mut i: usize = 0;
    while i < ledger.len()
        invariant
            i <= ledger.len(),
            all == ledger_view(ledger@),
            total == total_spend(all.take(i as int), month@),
            0 <= total <= i * OUTFLOW_LIMIT,
        decreases ledger.len() - i,
    {
        assert(all.take(i + 1).drop_last() == all.take(i as int));
        assert(all.take(i + 1).last() == ledger@[i as int]@);
        total = total + outflow_of(&ledger[i], month);
        i += 1;
    }
    assert(all.take(ledger.len() as int) == all);
    total
}

/// The sum of the outflows of a month whose rows carry `category`.
pub fn month_category_total(
    ledger: &Vec<LedgerTransaction>,
    month: &Vec<char>,
    category: &String,
) -> (total: i128)
    ensures
        total == category_spend(ledger_view(ledger@), month@, category@),
{
    let ghost all = ledger_view(ledger@);
    let mut total: i128 = 0;
    let mut i: usize = 0;
    while i < ledger.len()
        invariant
            i <= ledger.len(),
            all == ledger_view(ledger@),
            total == category_spend(all.take(i as int), month@, category@),
            0 <= total <= i * OUTFLOW_LIMIT,
        decreases ledger.len() - i,
    {
        assert(all.take(i + 1).drop_last() == all.take(i as int));
        assert(all.take(i + 1).last() == ledger@[i as int]@);
        let same = match &ledger[i].category {
            Some(c) => *c == *category,
            None => false,
        };
        if same {
            total = total + outflow_of(&ledger[i], month);
        }
        i += 1;
    }
    assert(all.take(ledger.len() as int) == all);
    total
}

/// Whether no label has two entries.
pub open spec fn distinct_labels(groups: Seq<CategoryAmountView>) -> bool {
    forall|i: int, j: int|
        0 <= i < j < groups.len() ==> (#[trigger] groups[i]).category != (
        #[trigger] groups[j]).category
}

/// No label spends a negative sum.
pub proof fn lemma_label_spend_nonnegative(
    ledger: Seq<LedgerTransactionView>,
    month: Seq<char>,
    label: Seq<char>,
)
    ensures
        label_spend(ledger, month, label) >= 0,
    decreases ledger.len(),
{
    if ledger.len() > 0 {
        lemma_label_spend_nonnegative(ledger.drop_last(), month, label);
    }
}

/// Where the entry of `label` stands in `groups`, if it has one.
fn find_label(groups: &Vec<CategoryAmount>, label: &String) -> (at: Option<usize>)
    ensures
        match at {
            Some(g) => g < groups@.len() && groups@[g as int].category@ == label@,
            None => !has_label(amounts_view(groups@), label@),
        },
{
    let mut g: usize = 0;
    while g < groups.len()
        invariant
            g <= groups@.len(),
            forall|k: int| 0 <= k < g ==> (#[trigger] amounts_view(groups@)[k]).category != label@,
        decreases groups.len() - g,
    {
        if groups[g].category == *label {
            return Some(g);
        }
        assert(amounts_view(groups@)[g as int].category == groups@[g as int].category@);
        g += 1;
    }
    None
}

/// The outflows of a month summed by label, in the order in which the labels
/// first occur.
fn group_by_label(ledger: &Vec<LedgerTransaction>, month: &Vec<char>) -> (groups: Vec<
    CategoryAmount,
>)
    ensures
        distinct_labels(amounts_view(groups@)),
        forall|k: int|
            0 <= k < groups@.len() ==> (#[trigger] amounts_view(groups@)[k]).amount == label_spend(
                ledger_view(ledger@),
                month@,
                amounts_view(groups@)[k].category,
            ) && amounts_view(groups@)[k].amount > 0,
        forall|label: Seq<char>| #[trigger]
            label_spend(ledger_view(ledger@), month@, label) > 0 ==> has_label(
                amounts_view(groups@),
                label,
            ),
{
    let ghost all = ledger_view(ledger@);
    let mut groups: Vec<CategoryAmount> = Vec::new();
    let mut i: usize = 0;
    assert forall|label: Seq<char>| #[trigger]
        label_spend(all.take(0), month@, label) > 0 implies has_label(
        amounts_view(groups@),
        label,
    ) by {
        assert(all.take(0).len() == 0);
    }
    while i < ledger.len()
        invariant
            i <= ledger.len(),
            all == ledger_view(ledger@),
            distinct_labels(amounts_view(groups@)),
            forall|k: int|
                0 <= k < groups@.len() ==> (#[trigger] amounts_view(groups@)[k]).amount
                    == label_spend(all.take(i as int), month@, amounts_view(groups@)[k].category)
                    && 0 < amounts_view(groups@)[k].amount <= i * OUTFLOW_LIMIT,
            forall|label: Seq<char>| #[trigger]
                label_spend(all.take(i as int), month@, label) > 0 ==> has_label(
                    amounts_view(groups@),
                    label,
                ),
        decreases ledger.len() - i,
    {
        assert(all.take(i + 1).drop_last() == all.take(i as int));
        assert(all.take(i + 1).last() == ledger@[i as int]@);
        let row = &ledger[i];
        let o = outflow_of(row, month);
        let ghost before = amounts_view(groups@);
        if o > 0 {
            let label = match &row.category {
                Some(c) => c.clone(),
                None => "Uncategorized".to_owned(),
            };
            assert(label@ == label_of(row@));
            match find_label(&groups, &label) {
                Some(g) => {
                    assert(before[g as int].category == label@);
                    let sum = groups[g].amount + o;
                    groups.set(g, CategoryAmount { category: label, amount: sum });
                    proof {
                        let after = amounts_view(groups@);
                        assert forall|k: int| 0 <= k < after.len() implies (#[trigger] after[k]).category
                            == before[k].category && after[k].amount == before[k].amount + if k
                            == g {
                            o as int
                        } else {
                            0
                        } by {}
                        assert forall|a: int, b: int| 0 <= a < b < after.len() implies (
                        #[trigger] after[a]).category != (#[trigger] after[b]).category by {
                            assert(before[a].category != before[b].category);
                        }
                        assert forall|k: int| 0 <= k < after.len() implies (#[trigger] after[k]).amount
                            == label_spend(all.take(i + 1), month@, after[k].category) && 0
                            < after[k].amount <= (i + 1) * OUTFLOW_LIMIT by {
                            assert(before[k].amount == label_spend(
                                all.take(i as int),
                                month@,
                                before[k].category,
                            ));
                            if k < g {
                                assert(before[k].category != before[g as int].category);
                            } else if k > g {
                                assert(before[g as int].category != before[k].category);
                            }
                        }
                        assert forall|l: Seq<char>| #[trigger]
                            label_spend(all.take(i + 1), month@, l) > 0 implies has_label(
                            after,
                            l,
                        ) by {
                            if l == label@ {
                                assert(after[g as int].category == l);
                            } else {
                                assert(label_spend(all.take(i as int), month@, l) > 0);
                                assert(has_label(before, l));
                                let k = choose|k: int|
                                    0 <= k < before.len() && (#[trigger] before[k]).category == l;
                                assert(after[k].category == l);
                            }
                        }
                    }
                },
                None => {
                    proof {
                        lemma_label_spend_nonnegative(all.take(i as int), month@, label@);
                    }
                    groups.push(CategoryAmount { category: label, amount: o });
                    proof {
                        let after = amounts_view(groups@);
                        let n = before.len() as int;
                        assert(after.len() == n + 1);
                        assert forall|k: int| 0 <= k < n implies (#[trigger] after[k])
                            == before[k] by {}
                        assert(after[n].category == label@ && after[n].amount == o);
                        assert forall|a: int, b: int| 0 <= a < b < after.len() implies (
                        #[trigger] after[a]).category != (#[trigger] after[b]).category by {
                            if b < n {
                                assert(before[a].category != before[b].category);
                            } else {
                                assert(before[a].category != label@);
                            }
                        }
                        assert forall|k: int| 0 <= k < after.len() implies (#[trigger] after[k]).amount
                            == label_spend(all.take(i + 1), month@, after[k].category) && 0
                            < after[k].amount <= (i + 1) * OUTFLOW_LIMIT by {
                            if k < n {
                                assert(before[k].amount == label_spend(
                                    all.take(i as int),
                                    month@,
                                    before[k].category,
                                ));
                                assert(before[k].category != label@);
                            }
                        }
                        assert forall|l: Seq<char>| #[trigger]
                            label_spend(all.take(i + 1), month@, l) > 0 implies has_label(
                            after,
                            l,
                        ) by {
                            if l == label@ {
                                assert(after[n].category == l);
                            } else {
                                assert(label_spend(all.take(i as int), month@, l) > 0);
                                assert(has_label(before, l));
                                let k = choose|k: int|
                                    0 <= k < before.len() && (#[trigger] before[k]).category == l;
                                assert(after[k].category == l);
                            }
                        }
                    }
                },
            }
        } else {
            proof {
                assert forall|k: int| 0 <= k < before.len() implies (#[trigger] before[k]).amount
                    == label_spend(all.take(i + 1), month@, before[k].category) by {
                    assert(before[k].amount == label_spend(
                        all.take(i as int),
                        month@,
                        before[k].category,
                    ));
                }
                assert forall|l: Seq<char>| #[trigger]
                    label_spend(all.take(i + 1), month@, l) > 0 implies has_label(before, l) by {
                    assert(label_spend(all.take(i as int), month@, l) > 0);
                }
            }
        }
        i += 1;
    }
    assert(all.take(ledger.len() as int) == all);
    groups
}

/// What a month's outflows come to by category: one entry for every label
/// with outflows, the largest sum first, equal sums in the order of the
/// names. Rows without a category are reported as `Uncategorized`.
pub fn category_breakdown(ledger: &Vec<LedgerTransaction>, month: &Vec<char>) -> (out: Vec<
    CategoryAmount,
>)
    ensures
        is_category_breakdown(ledger_view(ledger@), month@, amounts_view(out@)),
{
    let groups = group_by_label(ledger, month);
    let ghost g = amounts_view(groups@);
    let mut keys: Vec<SortKey> = Vec::new();
    let mut k: usize = 0;
    while k < groups.len()
        invariant
            k <= groups.len(),
            g == amounts_view(groups@),
            keys@.len() == k,
            forall|t: int| 0 <= t < g.len() ==> (#[trigger] g[t]).amount > 0,
            forall|t: int|
                0 <= t < k ==> (#[trigger] keys_view(keys@)[t]).rank == -g[t].amount && keys_view(
                    keys@,
                )[t].name == g[t].category,
        decreases groups.len() - k,
    {
        assert(g[k as int].amount == groups@[k as int].amount);
        let key = SortKey {
            rank: -groups[k].amount,
            name: chars_of(groups[k].category.as_str()),
        };
        let ghost before = keys_view(keys@);
        keys.push(key);
        assert forall|t: int| 0 <= t < k + 1 implies (#[trigger] keys_view(keys@)[t]).rank
            == -g[t].amount && keys_view(keys@)[t].name == g[t].category by {
            if t < k {
                assert(keys_view(keys@)[t] == before[t]);
            }
        }
        k += 1;
    }
    let order = sorted_order(&keys, false);
    let ghost kv = keys_view(keys@);
    let mut out: Vec<CategoryAmount> = Vec::new();
    let mut i: usize = 0;
    while i < order.len()
        invariant
            i <= order.len(),
            g == amounts_view(groups@),
            kv == keys_view(keys@),
            is_sorted_order(kv, false, order@),
            kv.len() == g.len(),
            out@.len() == i,
            forall|t: int| 0 <= t < i ==> (#[trigger] amounts_view(out@)[t]) == g[order@[t] as int],
        decreases order.len() - i,
    {
        let at = order[i];
        assert(order@[i as int] < kv.len());
        let ghost before = amounts_view(out@);
        let entry = CategoryAmount {
            category: groups[at].category.clone(),
            amount: groups[at].amount,
        };
        assert(entry@ == g[at as int]);
        out.push(entry);
        assert forall|t: int| 0 <= t < i + 1 implies (#[trigger] amounts_view(out@)[t])
            == g[order@[t] as int] by {
            if t < i {
                assert(amounts_view(out@)[t] == before[t]);
            }
        }
        i += 1;
    }
    proof {
        let all = ledger_view(ledger@);
        let o = amounts_view(out@);
        assert forall|t: int| 0 <= t < o.len() implies (#[trigger] o[t]).amount == label_spend(
            all,
            month@,
            o[t].category,
        ) && o[t].amount > 0 by {
            assert(o[t] == g[order@[t] as int]);
            assert(order@[t] < kv.len());
        }
        assert forall|label: Seq<char>| #[trigger]
            label_spend(all, month@, label) > 0 implies has_label(o, label) by {
            assert(has_label(g, label));
            let x = choose|x: int| 0 <= x < g.len() && (#[trigger] g[x]).category == label;
            assert(lists(order@, x));
            let t = choose|t: int| 0 <= t < order@.len() && #[trigger] order@[t] == x;
            assert(o[t] == g[order@[t] as int]);
        }
        assert forall|a: int, b: int| 0 <= a < b < o.len() implies outranks(
            #[trigger] o[a],
            #[trigger] o[b],
        ) by {
            let x = order@[a] as int;
            let y = order@[b] as int;
            assert(o[a] == g[x] && o[b] == g[y]);
            assert(order@[a] < kv.len() && order@[b] < kv.len());
            assert(ranks_before(kv, false, x, y));
            assert(kv[x].rank == -g[x].amount && kv[x].name == g[x].category);
            assert(kv[y].rank == -g[y].amount && kv[y].name == g[y].category);
            if kv[x] == kv[y] && x < y {
                assert(g[x].category != g[y].category);
            }
        }
    }
    out
}

/// The budgets held against a month's spending, in the order of the category
/// names: for each budget its cap and what the month's rows of that category
/// took out.
pub fn budget_usage(
    ledger: &Vec<LedgerTransaction>,
    month: &Vec<char>,
    budgets: &Vec<BudgetConfig>,
) -> (out: Vec<BudgetUsage>)
    requires
        distinct_categories(budgets_view(budgets@)),
    ensures
        is_budget_usage(ledger_view(ledger@), month@, budgets_view(budgets@), usages_view(out@)),
{
    let ghost b = budgets_view(budgets@);
    let mut keys: Vec<SortKey> = Vec::new();
    let mut k: usize = 0;
    while k < budgets.len()
        invariant
            k <= budgets.len(),
            b == budgets_view(budgets@),
            keys@.len() == k,
            forall|t: int|
                0 <= t < k ==> (#[trigger] keys_view(keys@)[t]).rank == 0 && keys_view(
                    keys@,
                )[t].name == b[t].category,
        decreases budgets.len() - k,
    {
        let key = SortKey { rank: 0, name: chars_of(budgets[k].category.as_str()) };
        assert(b[k as int].category == budgets@[k as int].category@);
        let ghost before = keys_view(keys@);
        keys.push(key);
        assert forall|t: int| 0 <= t < k + 1 implies (#[trigger] keys_view(keys@)[t]).rank == 0
            && keys_view(keys@)[t].name == b[t].category by {
            if t < k {
                assert(keys_view(keys@)[t] == before[t]);
            }
        }
        k += 1;
    }
    let order = sorted_order(&keys, false);
    let ghost kv = keys_view(keys@);
    let ghost all = ledger_view(ledger@);
    let mut out: Vec<BudgetUsage> = Vec::new();
    let mut i: usize = 0;
    while i < order.len()
        invariant
            i <= order.len(),
            b == budgets_view(budgets@),
            kv == keys_view(keys@),
            all == ledger_view(ledger@),
            is_sorted_order(kv, false, order@),
            kv.len() == b.len(),
            out@.len() == i,
            forall|t: int|
                0 <= t < i ==> (#[trigger] usages_view(out@)[t]).category == b[order@[t] as int].category
                    && usages_view(out@)[t].cap == b[order@[t] as int].cap && usages_view(
                    out@,
                )[t].spent == category_spend(all, month@, usages_view(out@)[t].category),
        decreases order.len() - i,
    {
        let at = order[i];
        assert(order@[i as int] < kv.len());
        assert(b[at as int] == budgets@[at as int]@);
        let ghost before = usages_view(out@);
        let category = budgets[at].category.clone();
        let spent = month_category_total(ledger, month, &category);
        let entry = BudgetUsage { category, cap: budgets[at].cap, spent };
        out.push(entry);
        assert forall|t: int| 0 <= t < i + 1 implies (#[trigger] usages_view(out@)[t]).category
            == b[order@[t] as int].category && usages_view(out@)[t].cap == b[order@[t] as int].cap
            && usages_view(out@)[t].spent == category_spend(
            all,
            month@,
            usages_view(out@)[t].category,
        ) by {
            if t < i {
                assert(usages_view(out@)[t] == before[t]);
            }
        }
        i += 1;
    }
    proof {
        let o = usages_view(out@);
        assert forall|t: int| 0 <= t < o.len() implies configured(
            b,
            (#[trigger] o[t]).category,
            o[t].cap,
        ) && o[t].spent == category_spend(all, month@, o[t].category) by {
            assert(order@[t] < kv.len());
            assert(b[order@[t] as int].category == o[t].category);
        }
        assert forall|j: int| 0 <= j < b.len() implies reported(o, (#[trigger] b[j]).category) by {
            assert(lists(order@, j));
            let t = choose|t: int| 0 <= t < order@.len() && #[trigger] order@[t] == j;
            assert(o[t].category == b[j].category);
        }
        assert forall|x: int, y: int| 0 <= x < y < o.len() implies text_lt(
            (#[trigger] o[x]).category,
            (#[trigger] o[y]).category,
        ) by {
            let p = order@[x] as int;
            let q = order@[y] as int;
            assert(order@[x] < kv.len() && order@[y] < kv.len());
            assert(ranks_before(kv, false, p, q));
            assert(kv[p].rank == 0 && kv[p].name == b[p].category);
            assert(kv[q].rank == 0 && kv[q].name == b[q].category);
            if kv[p] == kv[q] && p < q {
                assert(b[p].category != b[q].category);
            }
        }
    }
    out
}

/// The summary of a month: what was spent in all, what was spent by
/// category, and every budget against what was spent in its category.
///
/// `month` is the month's text as dates begin with it, such as `2026-01`.
pub fn monthly_summary(
    ledger: &Vec<LedgerTransaction>,
    budgets: &Vec<BudgetConfig>,
    month: &str,
) -> (out: SummaryResponse)
    requires
        distinct_categories(budgets_view(budgets@)),
    ensures
        is_summary(ledger_view(ledger@), budgets_view(budgets@), month@, out@),
{
    let month_chars = chars_of(month);
    SummaryResponse {
        month: month.to_owned(),
        total_spend: month_total(ledger, &month_chars),
        by_category: category_breakdown(ledger, &month_chars),
        budgets: budget_usage(ledger, &month_chars, budgets),
    }
}

} // verus!
