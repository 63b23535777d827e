//! Settings and budgets: small tables of one row per key, read and updated
//! row by row.

use vstd::prelude::*;
use crate::dto::{AppSettings, AppSettingsView, BudgetConfig, BudgetConfigView};
use crate::sorting::{is_sorted_order, keys_view, sorted_order, SortKey, SortKeyView};
use crate::summary::{budgets_view, distinct_categories};
use crate::text::chars_of;

verus! {

/// One row of the settings table.
#[derive(Debug, Clone)]
pub struct SettingRow {
    pub key: String,
    pub value: String,
}

/// The model of a [`SettingRow`].
pub struct SettingRowView {
    pub key: Seq<char>,
    pub value: Seq<char>,
}

impl View for SettingRow {
    type V = SettingRowView;

    open spec fn view(&self) -> SettingRowView {
        SettingRowView { key: self.key@, value: self.value@ }
    }
}

/// The models of a sequence of settings rows.
pub open spec fn settings_view(rows: Seq<SettingRow>) -> Seq<SettingRowView> {
    rows.map_values(|row: SettingRow| row@)
}

/// The value of the last row with the key `key`.
pub open spec fn last_value(rows: Seq<SettingRowView>, key: Seq<char>) -> Option<Seq<char>>
    decreases rows.len(),
{
    if rows.len() == 0 {
        None
    } else if rows.last().key == key {
        Some(rows.last().value)
    } else {
        last_value(rows.drop_last(), key)
    }
}

/// The settings that a table amounts to: the theme is `system` unless a row
/// sets it, the accounts are absent unless a row sets them.
pub open spec fn app_settings_of(rows: Seq<SettingRowView>) -> AppSettingsView {
    AppSettingsView {
        theme: match last_value(rows, "theme"@) {
            Some(value) => value,
            None => "system"@,
        },
        accounts: last_value(rows, "accounts"@),
    }
}

/// Whether some row has the key `key`.
pub open spec fn has_key(rows: Seq<SettingRowView>, key: Seq<char>) -> bool {
    exists|i: int| 0 <= i < rows.len() && (#[trigger] rows[i]).key == key
}

/// A row after `key` was set to `value`: changed if it has that key, else
/// left as it is.
pub open spec fn row_with(row: SettingRowView, key: Seq<char>, value: Seq<char>) -> SettingRowView {
    if row.key == key {
        SettingRowView { key, value }
    } else {
        row
    }
}

/// The table after `key` was set to `value`: every row with that key holds
/// the value; where there was none, a row was added at the end.
pub open spec fn with_setting(rows: Seq<SettingRowView>, key: Seq<char>, value: Seq<char>) -> Seq<
    SettingRowView,
> {
    let changed = Seq::new(rows.len(), |i: int| row_with(rows[i], key, value));
    if has_key(rows, key) {
        changed
    } else {
        changed.push(SettingRowView { key, value })
    }
}

/// What was set is what is read, and no other key is touched.
pub proof fn lemma_setting_round_trip(
    rows: Seq<SettingRowView>,
    key: Seq<char>,
    value: Seq<char>,
    other: Seq<char>,
)
    ensures
        last_value(with_setting(rows, key, value), key) == Some(value),
        other != key ==> last_value(with_setting(rows, key, value), other) == last_value(
            rows,
            other,
        ),
{
    let changed = Seq::new(rows.len(), |i: int| row_with(rows[i], key, value));
    lemma_changed_rows(rows, key, value, other, rows.len() as int);
    assert(rows.take(rows.len() as int) == rows);
    assert(changed.take(rows.len() as int) == changed);
    if has_key(rows, key) {
    } else {
        assert(changed.push(SettingRowView { key, value }).drop_last() == changed);
    }
}

proof fn lemma_changed_rows(
    rows: Seq<SettingRowView>,
    key: Seq<char>,
    value: Seq<char>,
    other: Seq<char>,
    n: int,
)
    requires
        0 <= n <= rows.len(),
    ensures
        ({
            let changed = Seq::new(rows.len(), |i: int| row_with(rows[i], key, value));
            &&& has_key(rows.take(n), key) ==> last_value(changed.take(n), key) == Some(value)
            &&& !has_key(rows.take(n), key) ==> last_value(changed.take(n), key) is None
            &&& other != key ==> last_value(changed.take(n), other) == last_value(
                rows.take(n),
                other,
            )
        }),
    decreases n,
{
    let changed = Seq::new(rows.len(), |i: int| row_with(rows[i], key, value));
    if n > 0 {
        lemma_changed_rows(rows, key, value, other, n - 1);
        assert(rows.take(n).drop_last() == rows.take(n - 1));
        assert(changed.take(n).drop_last() == changed.take(n - 1));
        assert(changed.take(n).last() == row_with(rows[n - 1], key, value));
        assert(rows.take(n).last() == rows[n - 1]);
        if has_key(rows.take(n), key) {
            let i = choose|i: int| 0 <= i < n && (#[trigger] rows.take(n)[i]).key == key;
            if i < n - 1 {
                assert(rows.take(n - 1)[i].key == key);
            }
        } else {
            assert(rows.take(n)[n - 1].key != key);
            if has_key(rows.take(n - 1), key) {
                let i = choose|i: int| 0 <= i < n - 1 && (#[trigger] rows.take(n - 1)[i]).key == key;
                assert(rows.take(n)[i].key == key);
            }
        }
        if has_key(rows.take(n - 1), key) {
            let i = choose|i: int| 0 <= i < n - 1 && (#[trigger] rows.take(n - 1)[i]).key == key;
            assert(rows.take(n)[i].key == key);
        }
        if rows[n - 1].key == key {
            assert(rows.take(n)[n - 1].key == key);
        }
    }
}

/// Reads the application's settings from the rows of the settings table.
/// Of two rows with one key the later counts.
pub fn get_app_settings(rows: &Vec<SettingRow>) -> (settings: AppSettings)
    ensures
        settings@ == app_settings_of(settings_view(rows@)),
{
    let ghost all = settings_view(rows@);
    let theme_key = "theme".to_owned();
    let accounts_key = "accounts".to_owned();
    let mut theme: Option<String> = None;
    let mut accounts: Option<String> = None;
    let mut i: usize = 0;
    while i < rows.len()
        invariant
            i <= rows.len(),
            all == settings_view(rows@),
            theme_key@ == "theme"@,
            accounts_key@ == "accounts"@,
            crate::dto::text_option(theme) == last_value(all.take(i as int), "theme"@),
            crate::dto::text_option(accounts) == last_value(all.take(i as int), "accounts"@),
        decreases rows.len() - i,
    {
        assert(all.take(i + 1).drop_last() == all.take(i as int));
        assert(all.take(i + 1).last() == rows@[i as int]@);
        if rows[i].key == theme_key {
            theme = Some(rows[i].value.clone());
        }
        if rows[i].key == accounts_key {
            accounts = Some(rows[i].value.clone());
        }
        i += 1;
    }
    assert(all.take(rows.len() as int) == all);
    AppSettings {
        theme: match theme {
            Some(value) => value,
            None => "system".to_owned(),
        },
        accounts,
    }
}

/// Sets `key` to `value`: every row with that key is overwritten; if there
/// is none, a row is added.
pub fn set_setting(rows: &mut Vec<SettingRow>, key: &str, value: &str)
    ensures
        settings_view(final(rows)@) == with_setting(settings_view(old(rows)@), key@, value@),
{
    let ghost before = settings_view(rows@);
    let key_text = key.to_owned();
    let mut found = false;
    let mut i: usize = 0;
    while i < rows.len()
        invariant
            i <= rows.len(),
            rows@.len() == before.len(),
            key_text@ == key@,
            found <==> has_key(before.take(i as int), key@),
            forall|t: int|
                0 <= t < i ==> (#[trigger] settings_view(rows@)[t]) == row_with(
                    before[t],
                    key@,
                    value@,
                ),
            forall|t: int|
                i <= t < rows@.len() ==> (#[trigger] settings_view(rows@)[t]) == before[t],
        decreases rows.len() - i,
    {
        let ghost current = settings_view(rows@);
        assert(current[i as int] == before[i as int]);
        assert(current[i as int].key == rows@[i as int].key@);
        let hit = rows[i].key == key_text;
        if hit {
            found = true;
            rows.set(i, SettingRow { key: key.to_owned(), value: value.to_owned() });
        }
        proof {
            let after = settings_view(rows@);
            assert forall|t: int| 0 <= t < i + 1 implies (#[trigger] after[t]) == row_with(
                before[t],
                key@,
                value@,
            ) by {
                if t < i {
                    assert(after[t] == current[t]);
                }
            }
            assert forall|t: int| i + 1 <= t < rows@.len() implies (#[trigger] after[t])
                == before[t] by {
                assert(after[t] == current[t]);
            }
            if has_key(before.take(i + 1), key@) {
                let t = choose|t: int|
                    0 <= t < i + 1 && (#[trigger] before.take(i + 1)[t]).key == key@;
                if t < i {
                    assert(before.take(i as int)[t].key == key@);
                }
            }
            if has_key(before.take(i as int), key@) {
                let t = choose|t: int| 0 <= t < i && (#[trigger] before.take(i as int)[t]).key == key@;
                assert(before.take(i + 1)[t].key == key@);
            }
            if hit {
                assert(before.take(i + 1)[i as int].key == key@);
            }
        }
        i += 1;
    }
    assert(before.take(rows.len() as int) == before);
    let ghost changed = Seq::new(before.len(), |t: int| row_with(before[t], key@, value@));
    assert(settings_view(rows@) == changed);
    if !found {
        let ghost current = settings_view(rows@);
        rows.push(SettingRow { key: key.to_owned(), value: value.to_owned() });
        assert(settings_view(rows@) == current.push(SettingRowView { key: key@, value: value@ }));
    }
}

/// Whether some budget is for `category`.
pub open spec fn has_budget(budgets: Seq<BudgetConfigView>, category: Seq<char>) -> bool {
    exists|i: int| 0 <= i < budgets.len() && (#[trigger] budgets[i]).category == category
}

/// A budget after the cap of `category` was set: changed if it is for that
/// category, else left as it is.
pub open spec fn budget_with(budget: BudgetConfigView, category: Seq<char>, cap: int) -> BudgetConfigView {
    if budget.category == category {
        BudgetConfigView { category, cap }
    } else {
        budget
    }
}

/// The budgets after the cap of `category` was set: every budget for that
/// category holds the cap; where there was none, one was added at the end.
pub open spec fn with_budget(budgets: Seq<BudgetConfigView>, category: Seq<char>, cap: int) -> Seq<
    BudgetConfigView,
> {
    let changed = Seq::new(budgets.len(), |i: int| budget_with(budgets[i], category, cap));
    if has_budget(budgets, category) {
        changed
    } else {
        changed.push(BudgetConfigView { category, cap })
    }
}

/// Setting a cap leaves one budget for every category that had one, adds one
/// for the category if it had none, and never makes two for one category.
pub proof fn lemma_with_budget_distinct(
    budgets: Seq<BudgetConfigView>,
    category: Seq<char>,
    cap: int,
)
    requires
        distinct_categories(budgets),
    ensures
        distinct_categories(with_budget(budgets, category, cap)),
        has_budget(with_budget(budgets, category, cap), category),
{
    let changed = Seq::new(budgets.len(), |i: int| budget_with(budgets[i], category, cap));
    let after = with_budget(budgets, category, cap);
    assert forall|i: int| 0 <= i < changed.len() implies (#[trigger] changed[i]).category
        == budgets[i].category by {}
    assert forall|i: int, j: int| 0 <= i < j < after.len() implies (#[trigger] after[i]).category
        != (#[trigger] after[j]).category by {
        if j < budgets.len() {
            assert(after[i] == changed[i] && after[j] == changed[j]);
            assert(budgets[i].category != budgets[j].category);
        } else {
            assert(after[i] == changed[i]);
            assert(budgets[i].category == after[i].category);
        }
    }
    if has_budget(budgets, category) {
        let i = choose|i: int| 0 <= i < budgets.len() && (#[trigger] budgets[i]).category == category;
        assert(after[i].category == category);
    } else {
        assert(after[budgets.len() as int].category == category);
    }
}

/// The keys by which budgets are listed: their categories.
pub open spec fn category_keys(budgets: Seq<BudgetConfigView>) -> Seq<SortKeyView> {
    Seq::new(budgets.len(), |i: int| SortKeyView { rank: 0, name: budgets[i].category })
}

/// Whether `out` lists `budgets` in the order of `order`.
pub open spec fn budgets_in_order(
    budgets: Seq<BudgetConfigView>,
    order: Seq<usize>,
    out: Seq<BudgetConfigView>,
) -> bool {
    &&& is_sorted_order(category_keys(budgets), false, order)
    &&& out.len() == budgets.len()
    &&& forall|i: int| 0 <= i < out.len() ==> (#[trigger] out[i]) == budgets[order[i] as int]
}

/// Whether `out` lists `budgets` by category name, budgets for one category
/// in the order in which they were given.
pub open spec fn is_budget_listing(budgets: Seq<BudgetConfigView>, out: Seq<BudgetConfigView>) -> bool {
    exists|order: Seq<usize>| budgets_in_order(budgets, order, out)
}

/// The budgets in the order of their category names.
pub fn get_budgets(budgets: &Vec<BudgetConfig>) -> (out: Vec<BudgetConfig>)
    ensures
        is_budget_listing(budgets_view(budgets@), budgets_view(out@)),
{
    let ghost b = budgets_view(budgets@);
    let mut keys: Vec<SortKey> = Vec::new();
    let mut k: usize = 0;
    while k < budgets.len()
        invariant
            k <= budgets.len(),
            b == budgets_view(budgets@),
            keys_view(keys@) == category_keys(b).take(k as int),
        decreases budgets.len() - k,
    {
        let key = SortKey { rank: 0, name: chars_of(budgets[k].category.as_str()) };
        assert(b[k as int].category == budgets@[k as int].category@);
        let ghost before = keys_view(keys@);
        keys.push(key);
        assert(keys_view(keys@) == before.push(key@));
        assert(category_keys(b).take(k + 1) == category_keys(b).take(k as int).push(key@));
        k += 1;
    }
    assert(category_keys(b).take(budgets.len() as int) == category_keys(b));
    let order = sorted_order(&keys, false);
    let mut out: Vec<BudgetConfig> = Vec::new();
    let mut i: usize = 0;
    while i < order.len()
        invariant
            i <= order.len(),
            b == budgets_view(budgets@),
            is_sorted_order(category_keys(b), false, order@),
            out@.len() == i,
            forall|t: int|
                0 <= t < i ==> (#[trigger] budgets_view(out@)[t]) == b[order@[t] as int],
        decreases order.len() - i,
    {
        let at = order[i];
        assert(order@[i as int] < category_keys(b).len());
        assert(b[at as int] == budgets@[at as int]@);
        let ghost before = budgets_view(out@);
        out.push(budgets[at].duplicate());
        assert forall|t: int| 0 <= t < i + 1 implies (#[trigger] budgets_view(out@)[t])
            == b[order@[t] as int] by {
            if t < i {
                assert(budgets_view(out@)[t] == before[t]);
            }
        }
        i += 1;
    }
    assert(budgets_in_order(b, order@, budgets_view(out@)));
    out
}

/// Sets the cap of `category`: every budget for it is overwritten; if there
/// is none, one is added.
pub fn set_budget(budgets: &mut Vec<BudgetConfig>, category: &str, cap: u64)
    ensures
        budgets_view(final(budgets)@) == with_budget(
            budgets_view(old(budgets)@),
            category@,
            cap as int,
        ),
{
    let ghost before = budgets_view(budgets@);
    let category_text = category.to_owned();
    let mut found = false;
    let mut i: usize = 0;
    while i < budgets.len()
        invariant
            i <= budgets.len(),
            budgets@.len() == before.len(),
            category_text@ == category@,
            found <==> has_budget(before.take(i as int), category@),
            forall|t: int|
                0 <= t < i ==> (#[trigger] budgets_view(budgets@)[t]) == budget_with(
                    before[t],
                    category@,
                    cap as int,
                ),
            forall|t: int|
                i <= t < budgets@.len() ==> (#[trigger] budgets_view(budgets@)[t]) == before[t],
        decreases budgets.len() - i,
    {
        let ghost current = budgets_view(budgets@);
        assert(current[i as int] == before[i as int]);
        assert(current[i as int].category == budgets@[i as int].category@);
        let hit = budgets[i].category == category_text;
        if hit {
            found = true;
            budgets.set(i, BudgetConfig { category: category.to_owned(), cap });
        }
        proof {
            let after = budgets_view(budgets@);
            assert forall|t: int| 0 <= t < i + 1 implies (#[trigger] after[t]) == budget_with(
                before[t],
                category@,
                cap as int,
            ) by {
                if t < i {
                    assert(after[t] == current[t]);
                }
            }
            assert forall|t: int| i + 1 <= t < budgets@.len() implies (#[trigger] after[t])
                == before[t] by {
                assert(after[t] == current[t]);
            }
            if has_budget(before.take(i + 1), category@) {
                let t = choose|t: int|
                    0 <= t < i + 1 && (#[trigger] before.take(i + 1)[t]).category == category@;
                if t < i {
                    assert(before.take(i as int)[t].category == category@);
                }
            }
            if has_budget(before.take(i as int), category@) {
                let t = choose|t: int|
                    0 <= t < i && (#[trigger] before.take(i as int)[t]).category == category@;
                assert(before.take(i + 1)[t].category == category@);
            }
            if hit {
                assert(before.take(i + 1)[i as int].category == category@);
            }
        }
        i += 1;
    }
    assert(before.take(budgets.len() as int) == before);
    let ghost changed = Seq::new(
        before.len(),
        |t: int| budget_with(before[t], category@, cap as int),
    );
    assert(budgets_view(budgets@) == changed);
    if !found {
        let ghost current = budgets_view(budgets@);
        budgets.push(BudgetConfig { category: category.to_owned(), cap });
        assert(budgets_view(budgets@) == current.push(
            BudgetConfigView { category: category@, cap: cap as int },
        ));
    }
}

} // verus!
