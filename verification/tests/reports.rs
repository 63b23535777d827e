use artha_core::dto::{BudgetConfig, FlowKind, LedgerTransaction};
use artha_core::networth::{net_worth_curve, share_of};
use artha_core::settings::{get_app_settings, get_budgets, set_budget, set_setting, SettingRow};
use artha_core::storage::{key_statement, seed_default_budgets};
use artha_core::summary::monthly_summary;
use artha_core::ArthaCore;

fn entry(id: u64, date: &str, amount: i64, category: Option<&str>) -> LedgerTransaction {
    LedgerTransaction {
        id,
        date: date.to_string(),
        description: "row".to_string(),
        amount,
        flow: FlowKind::from_amount(amount),
        category: category.map(|c| c.to_string()),
    }
}

fn budget(category: &str, cap: u64) -> BudgetConfig {
    BudgetConfig { category: category.to_string(), cap }
}

fn sample_ledger() -> Vec<LedgerTransaction> {
    vec![
        entry(1, "2026-01-03", -12_000, Some("Dining")),
        entry(2, "2026-01-04", -50_000, Some("Housing")),
        entry(3, "2026-01-09", -8_000, Some("Dining")),
        entry(4, "2026-01-10", 300_000, Some("Salary")),
        entry(5, "2026-01-11", -20_000, None),
        entry(6, "2026-02-01", -99_000, Some("Dining")),
        entry(7, "2026-01-20", -20_000, Some("Books")),
        entry(8, "2026-011-20", -1, Some("Dining")),
        entry(9, "2026-01", -1, Some("Dining")),
        entry(10, "2026-01-", -500, Some("Uncategorized")),
    ]
}

#[test]
fn summary_totals_outflows_of_the_month() {
    let summary = monthly_summary(&sample_ledger(), &vec![], "2026-01");
    assert_eq!(summary.month, "2026-01");
    assert_eq!(summary.total_spend, 110_500);
    let february = monthly_summary(&sample_ledger(), &vec![], "2026-02");
    assert_eq!(february.total_spend, 99_000);
    let empty = monthly_summary(&sample_ledger(), &vec![], "2027-01");
    assert_eq!(empty.total_spend, 0);
    assert!(empty.by_category.is_empty());
}

#[test]
fn summary_groups_by_category_largest_first() {
    let summary = monthly_summary(&sample_ledger(), &vec![], "2026-01");
    let listed: Vec<(String, i128)> =
        summary.by_category.into_iter().map(|c| (c.category, c.amount)).collect();
    assert_eq!(
        listed,
        vec![
            ("Housing".to_string(), 50_000),
            ("Uncategorized".to_string(), 20_500),
            ("Books".to_string(), 20_000),
            ("Dining".to_string(), 20_000),
        ]
    );
}

#[test]
fn summary_reports_every_budget_once_in_name_order() {
    let budgets = vec![
        budget("Transportation", 25_000),
        budget("Dining", 35_000),
        budget("Housing", 180_000),
        budget("Uncategorized", 1_000),
    ];
    let summary = monthly_summary(&sample_ledger(), &budgets, "2026-01");
    let listed: Vec<(String, u64, i128)> =
        summary.budgets.into_iter().map(|b| (b.category, b.cap, b.spent)).collect();
    assert_eq!(
        listed,
        vec![
            ("Dining".to_string(), 35_000, 20_000),
            ("Housing".to_string(), 180_000, 50_000),
            ("Transportation".to_string(), 25_000, 0),
            ("Uncategorized".to_string(), 1_000, 500),
        ]
    );
}

#[test]
fn engine_summary_uses_its_ledger_and_budgets() {
    let mut core = ArthaCore::bootstrap(None);
    core.restore_ledger(&sample_ledger());
    core.restore_budgets(&vec![budget("Dining", 1), budget("Books", 2), budget("Dining", 35_000)]);
    core.set_budget("Zoo", 9);
    core.set_budget("Books", 3);
    let summary = core.get_summary("2026-01");
    assert_eq!(summary.total_spend, 110_500);
    let listed: Vec<(String, u64, i128)> =
        summary.budgets.into_iter().map(|b| (b.category, b.cap, b.spent)).collect();
    assert_eq!(
        listed,
        vec![
            ("Books".to_string(), 3, 20_000),
            ("Dining".to_string(), 35_000, 20_000),
            ("Zoo".to_string(), 9, 0),
        ]
    );
}

#[test]
fn shares_are_fixed_fractions_rounded_down() {
    assert_eq!(share_of(100_000, 40), 40_000);
    assert_eq!(share_of(100_000, 55), 55_000);
    assert_eq!(share_of(100_000, 20), 20_000);
    assert_eq!(share_of(199, 40), 79);
    assert_eq!(share_of(199, 55), 109);
    assert_eq!(share_of(1, 40), 0);
    assert_eq!(share_of(0, 40), 0);
    assert_eq!(share_of(-100_000, 40), 0);
    assert_eq!(share_of(i128::MAX, 100), i128::MAX);
    assert_eq!(share_of(i128::MAX, 40), 68_056_473_384_187_692_692_674_921_486_353_642_290);
}

#[test]
fn curve_accumulates_all_history_up_to_each_month() {
    let ledger = vec![
        entry(1, "2019-06-30", 1_000, None),
        entry(2, "2025-03-01", -400, None),
        entry(3, "2025-04-15", -1_000, None),
        entry(4, "2026-02-28", 10_400, None),
        entry(5, "2026-03-01", 7, None),
        entry(6, "28/02/2026", 999, None),
        entry(7, "2026-02-30", 999, None),
    ];
    let points = net_worth_curve(&ledger, 2026, 2);
    let dates: Vec<&str> = points.iter().map(|p| p.date.as_str()).collect();
    assert_eq!(
        dates,
        vec![
            "2025-03-01", "2025-04-01", "2025-05-01", "2025-06-01", "2025-07-01", "2025-08-01",
            "2025-09-01", "2025-10-01", "2025-11-01", "2025-12-01", "2026-01-01", "2026-02-01",
        ]
    );
    let nets: Vec<i128> = points.iter().map(|p| p.net_worth).collect();
    assert_eq!(nets, vec![600, -400, -400, -400, -400, -400, -400, -400, -400, -400, -400, 10_000]);
    assert_eq!(points[0].cash, 240);
    assert_eq!(points[0].invested, 330);
    assert_eq!(points[0].debt, 0);
    assert_eq!(points[1].cash, 0);
    assert_eq!(points[1].invested, 0);
    assert_eq!(points[1].debt, 80);
    assert_eq!(points[11].cash, 4_000);
    assert_eq!(points[11].invested, 5_500);
    assert_eq!(points[11].debt, 0);
}

#[test]
fn curve_at_the_ends_of_the_calendar() {
    let first = net_worth_curve(&vec![], 1, 1);
    assert_eq!(first[0].date, "0000-02-01");
    assert_eq!(first[11].date, "0001-01-01");
    let last = net_worth_curve(&vec![entry(1, "9999-12-31", -5, None)], 9999, 12);
    assert_eq!(last[0].date, "9999-01-01");
    assert_eq!(last[10].net_worth, 0);
    assert_eq!(last[11].date, "9999-12-01");
    assert_eq!(last[11].net_worth, -5);
    assert_eq!(last[11].debt, 1);
}

#[test]
fn settings_default_and_last_row_wins() {
    let none = get_app_settings(&vec![]);
    assert_eq!(none.theme, "system");
    assert_eq!(none.accounts, None);
    let rows = vec![
        SettingRow { key: "theme".to_string(), value: "dark".to_string() },
        SettingRow { key: "other".to_string(), value: "x".to_string() },
        SettingRow { key: "accounts".to_string(), value: "[1]".to_string() },
        SettingRow { key: "theme".to_string(), value: "light".to_string() },
    ];
    let settings = get_app_settings(&rows);
    assert_eq!(settings.theme, "light");
    assert_eq!(settings.accounts, Some("[1]".to_string()));
}

#[test]
fn setting_a_key_overwrites_or_adds() {
    let mut rows = vec![SettingRow { key: "theme".to_string(), value: "dark".to_string() }];
    set_setting(&mut rows, "theme", "light");
    set_setting(&mut rows, "accounts", "[]");
    assert_eq!(rows.len(), 2);
    assert_eq!(rows[0].key, "theme");
    assert_eq!(rows[0].value, "light");
    assert_eq!(rows[1].key, "accounts");
    assert_eq!(rows[1].value, "[]");
    assert_eq!(get_app_settings(&rows).theme, "light");
}

#[test]
fn budgets_are_listed_by_name_and_set_by_category() {
    let mut budgets = vec![budget("Housing", 1), budget("Dining", 2)];
    set_budget(&mut budgets, "Groceries", 3);
    set_budget(&mut budgets, "Housing", 4);
    let listed: Vec<(String, u64)> =
        get_budgets(&budgets).into_iter().map(|b| (b.category, b.cap)).collect();
    assert_eq!(
        listed,
        vec![("Dining".to_string(), 2), ("Groceries".to_string(), 3), ("Housing".to_string(), 4)]
    );
    assert_eq!(budgets[0].category, "Housing");
    assert_eq!(budgets[0].cap, 4);
}

#[test]
fn default_budgets_are_seeded_once() {
    let mut budgets = vec![];
    assert!(seed_default_budgets(&mut budgets));
    let listed: Vec<(String, u64)> =
        budgets.iter().map(|b| (b.category.clone(), b.cap)).collect();
    assert_eq!(
        listed,
        vec![
            ("Housing".to_string(), 180_000),
            ("Groceries".to_string(), 70_000),
            ("Dining".to_string(), 35_000),
            ("Transportation".to_string(), 25_000),
            ("Discretionary".to_string(), 50_000),
        ]
    );
    set_budget(&mut budgets, "Housing", 1);
    assert!(!seed_default_budgets(&mut budgets));
    assert_eq!(budgets.len(), 5);
    assert_eq!(budgets[0].cap, 1);
    let mut own = vec![budget("Travel", 9)];
    assert!(!seed_default_budgets(&mut own));
    assert_eq!(own.len(), 1);
}

#[test]
fn key_statement_writes_the_key_in_hex() {
    let mut key = [0u8; 32];
    key[0] = 0x0f;
    key[1] = 0xa0;
    key[31] = 0xff;
    let expected = format!("PRAGMA key = \"x'0fa0{}ff'\";", "00".repeat(29));
    assert_eq!(key_statement(&key), expected);
}
