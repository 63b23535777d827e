use artha_core::categorization::TokenBinding;
use artha_core::csv_import::{ImportError, ParsedRow};
use artha_core::dto::{FlowKind, InboxItem, LedgerTransaction};
use artha_core::engine::CoreError;
use artha_core::ArthaCore;

fn row(date: &str, description: &str, amount: i64) -> ParsedRow {
    ParsedRow { date: date.to_string(), description: description.to_string(), amount }
}

fn ids(names: &[&str]) -> Vec<String> {
    names.iter().map(|n| n.to_string()).collect()
}

#[test]
fn flow_follows_the_sign_of_the_amount() {
    assert_eq!(FlowKind::from_amount(-1), FlowKind::Debit);
    assert_eq!(FlowKind::from_amount(i64::MIN), FlowKind::Debit);
    assert_eq!(FlowKind::from_amount(0), FlowKind::Credit);
    assert_eq!(FlowKind::from_amount(1), FlowKind::Credit);
    assert_eq!(FlowKind::from_amount(i64::MAX), FlowKind::Credit);
}

#[test]
fn flow_names() {
    assert_eq!(FlowKind::Debit.as_str(), "debit");
    assert_eq!(FlowKind::Credit.as_str(), "credit");
    assert_eq!(FlowKind::from_name("credit"), FlowKind::Credit);
    assert_eq!(FlowKind::from_name("debit"), FlowKind::Debit);
    assert_eq!(FlowKind::from_name("anything else"), FlowKind::Debit);
    assert_eq!(FlowKind::from_name("Credit"), FlowKind::Debit);
}

#[test]
fn bootstrap_without_stored_memory_starts_empty() {
    let core = ArthaCore::bootstrap(None);
    assert_eq!(core.memory().len(), 0);
    assert!(core.staged().is_empty());
    assert!(core.ledger().is_empty());
}

#[test]
fn bootstrap_hydrates_the_memory() {
    let stored = vec![TokenBinding {
        token: "swiggy".to_string(),
        category: "Dining".to_string(),
        hit_count: 3,
    }];
    let core = ArthaCore::bootstrap(Some(stored));
    assert_eq!(core.memory().suggest("Swiggy order"), Some("Dining".to_string()));
    assert_eq!(core.memory().hit_count("swiggy"), 3);
}

#[test]
fn import_stages_rows_with_flow_and_suggestion() {
    let mut core = ArthaCore::bootstrap(Some(vec![TokenBinding {
        token: "rent".to_string(),
        category: "Housing".to_string(),
        hit_count: 1,
    }]));
    let data = b"Date,Description,Debit,Credit\n01/01/26,Rent January,7500.00,0.00\n02/01/26,Salary,0.00,248.00\n";
    let items = core.import_csv(data).unwrap();
    assert_eq!(items.len(), 2);
    assert_eq!(items[0].date, "2026-01-01");
    assert_eq!(items[0].description, "Rent January");
    assert_eq!(items[0].amount, -750_000);
    assert_eq!(items[0].flow, FlowKind::Debit);
    assert_eq!(items[0].suggested_category, Some("Housing".to_string()));
    assert_eq!(items[1].amount, 24_800);
    assert_eq!(items[1].flow, FlowKind::Credit);
    assert_eq!(items[1].suggested_category, None);
    assert_eq!(items[0].temp_id.len(), 36);
    assert_ne!(items[0].temp_id, items[1].temp_id);
    let staged = core.staged();
    assert_eq!(staged.len(), 2);
    assert_eq!(staged[0].temp_id, items[0].temp_id);
    assert_eq!(staged[1].temp_id, items[1].temp_id);
    assert_eq!(core.memory().hit_count("rent"), 1);
    assert_eq!(core.memory().hit_count("salary"), 0);
}

#[test]
fn failed_import_stages_nothing() {
    let mut core = ArthaCore::bootstrap(None);
    assert_eq!(
        core.import_csv(b"Date,Description,Amount\n").err(),
        Some(ImportError::NoUsableRows)
    );
    assert!(core.staged().is_empty());
}

#[test]
fn staging_an_id_again_overwrites_in_place() {
    let mut core = ArthaCore::bootstrap(None);
    core.stage_rows(
        &vec![row("2026-01-01", "First", -100), row("2026-01-02", "Second", 200)],
        &ids(&["a", "b"]),
    );
    let again = core.stage_rows(
        &vec![row("2026-02-01", "First again", 300), row("2026-02-02", "Third", -400)],
        &ids(&["a", "c"]),
    );
    assert_eq!(again.len(), 2);
    let staged = core.staged();
    assert_eq!(staged.len(), 3);
    assert_eq!(staged[0].temp_id, "a");
    assert_eq!(staged[0].description, "First again");
    assert_eq!(staged[0].amount, 300);
    assert_eq!(staged[0].flow, FlowKind::Credit);
    assert_eq!(staged[1].temp_id, "b");
    assert_eq!(staged[2].temp_id, "c");
}

#[test]
fn inbox_is_listed_latest_date_first() {
    let mut core = ArthaCore::bootstrap(None);
    core.stage_rows(
        &vec![
            row("2026-01-05", "B", -1),
            row("2026-03-01", "A", -2),
            row("2026-01-05", "C", -3),
            row("2025-12-31", "D", -4),
        ],
        &ids(&["1", "2", "3", "4"]),
    );
    let listed: Vec<String> = core.get_inbox().into_iter().map(|i| i.description).collect();
    assert_eq!(listed, vec!["A", "B", "C", "D"]);
}

#[test]
fn setting_a_category_on_an_unknown_id_changes_nothing() {
    let mut core = ArthaCore::bootstrap(None);
    core.stage_rows(&vec![row("2026-01-01", "Swiggy order", -100)], &ids(&["a"]));
    let answer = core.set_inbox_category("missing", "Dining");
    assert!(!answer.ok);
    assert_eq!(core.staged()[0].suggested_category, None);
    assert_eq!(core.memory().len(), 0);
}

#[test]
fn setting_a_category_teaches_the_memory_at_once() {
    let mut core = ArthaCore::bootstrap(None);
    core.stage_rows(&vec![row("2026-01-01", "Swiggy order", -100)], &ids(&["a"]));
    let answer = core.set_inbox_category("a", "Dining");
    assert!(answer.ok);
    assert_eq!(core.staged()[0].suggested_category, Some("Dining".to_string()));
    assert_eq!(core.memory().suggest("swiggy"), Some("Dining".to_string()));
    assert_eq!(core.memory().hit_count("swiggy"), 1);
    assert_eq!(core.memory().hit_count("order"), 1);
}

#[test]
fn commit_moves_every_staged_row_to_the_ledger() {
    let mut core = ArthaCore::bootstrap(None);
    core.restore_ledger(&vec![LedgerTransaction {
        id: 7,
        date: "2025-12-01".to_string(),
        description: "Old".to_string(),
        amount: -5,
        flow: FlowKind::Credit,
        category: None,
    }]);
    core.stage_rows(
        &vec![row("2026-01-01", "Swiggy order", -100), row("2026-01-02", "Salary", 5_000)],
        &ids(&["a", "b"]),
    );
    core.set_inbox_category("a", "Dining");
    assert_eq!(core.commit_inbox(), Ok(2));
    assert!(core.staged().is_empty());
    let ledger = core.ledger();
    assert_eq!(ledger.len(), 3);
    assert_eq!(ledger[0].id, 7);
    assert_eq!(ledger[0].description, "Old");
    assert_eq!(ledger[0].flow, FlowKind::Debit);
    assert_eq!(ledger[1].id, 8);
    assert_eq!(ledger[1].date, "2026-01-01");
    assert_eq!(ledger[1].description, "Swiggy order");
    assert_eq!(ledger[1].amount, -100);
    assert_eq!(ledger[1].flow, FlowKind::Debit);
    assert_eq!(ledger[1].category, Some("Dining".to_string()));
    assert_eq!(ledger[2].id, 9);
    assert_eq!(ledger[2].description, "Salary");
    assert_eq!(ledger[2].amount, 5_000);
    assert_eq!(ledger[2].flow, FlowKind::Credit);
    assert_eq!(ledger[2].category, None);
    assert_eq!(core.commit_inbox(), Ok(0));
    assert_eq!(core.ledger().len(), 3);
}

#[test]
fn commit_reinforces_the_memory_with_staged_suggestions() {
    let mut core = ArthaCore::bootstrap(Some(vec![TokenBinding {
        token: "swiggy".to_string(),
        category: "Dining".to_string(),
        hit_count: 1,
    }]));
    core.stage_rows(&vec![row("2026-01-01", "Swiggy order", -100)], &ids(&["a"]));
    assert_eq!(core.staged()[0].suggested_category, Some("Dining".to_string()));
    assert_eq!(core.commit_inbox(), Ok(1));
    assert_eq!(core.memory().hit_count("swiggy"), 2);
    assert_eq!(core.memory().hit_count("order"), 1);
    assert_eq!(core.memory().suggest("order"), Some("Dining".to_string()));
}

#[test]
fn commit_fails_as_a_whole_when_ids_run_out() {
    let mut core = ArthaCore::bootstrap(None);
    core.restore_ledger(&vec![LedgerTransaction {
        id: u64::MAX - 1,
        date: "2025-12-01".to_string(),
        description: "Last but one".to_string(),
        amount: 1,
        flow: FlowKind::Credit,
        category: None,
    }]);
    core.stage_rows(
        &vec![row("2026-01-01", "One", -100), row("2026-01-02", "Two", -200)],
        &ids(&["a", "b"]),
    );
    core.set_inbox_category("a", "Dining");
    assert_eq!(core.commit_inbox(), Err(CoreError::LedgerFull));
    assert_eq!(core.staged().len(), 2);
    assert_eq!(core.ledger().len(), 1);
    assert_eq!(core.memory().hit_count("one"), 1);
    assert_eq!(CoreError::LedgerFull.message(), "Ledger has no ids left");
}

#[test]
fn restored_inbox_rows_get_the_flow_of_their_amount() {
    let mut core = ArthaCore::bootstrap(None);
    core.restore_inbox(&vec![
        InboxItem {
            temp_id: "a".to_string(),
            date: "2026-01-01".to_string(),
            description: "One".to_string(),
            amount: -1,
            flow: FlowKind::Credit,
            suggested_category: Some("Dining".to_string()),
        },
        InboxItem {
            temp_id: "a".to_string(),
            date: "2026-01-02".to_string(),
            description: "Two".to_string(),
            amount: 2,
            flow: FlowKind::Debit,
            suggested_category: None,
        },
    ]);
    let staged = core.staged();
    assert_eq!(staged.len(), 1);
    assert_eq!(staged[0].description, "Two");
    assert_eq!(staged[0].flow, FlowKind::Credit);
}

#[test]
fn curve_of_the_current_month_has_twelve_consecutive_months() {
    let mut core = ArthaCore::bootstrap(None);
    core.restore_ledger(&vec![LedgerTransaction {
        id: 1,
        date: "2000-01-15".to_string(),
        description: "Opening".to_string(),
        amount: 100_000,
        flow: FlowKind::Credit,
        category: None,
    }]);
    let points = core.get_networth_curve().unwrap();
    assert_eq!(points.len(), 12);
    for pair in points.windows(2) {
        let (y0, m0): (u32, u32) = (pair[0].date[0..4].parse().unwrap(), pair[0].date[5..7].parse().unwrap());
        let (y1, m1): (u32, u32) = (pair[1].date[0..4].parse().unwrap(), pair[1].date[5..7].parse().unwrap());
        assert_eq!(y0 * 12 + m0 + 1, y1 * 12 + m1);
    }
    for point in &points {
        assert_eq!(point.date.len(), 10);
        assert_eq!(&point.date[7..], "-01");
        assert_eq!(point.net_worth, 100_000);
        assert_eq!(point.cash, 40_000);
        assert_eq!(point.invested, 55_000);
        assert_eq!(point.debt, 0);
    }
}

#[test]
fn curve_outside_the_calendar_fails() {
    let core = ArthaCore::bootstrap(None);
    assert_eq!(core.networth_curve_at(0, 5).err(), Some(CoreError::ClockOutOfRange));
    assert_eq!(core.networth_curve_at(10_000, 5).err(), Some(CoreError::ClockOutOfRange));
    assert_eq!(core.networth_curve_at(2026, 0).err(), Some(CoreError::ClockOutOfRange));
    assert_eq!(core.networth_curve_at(2026, 13).err(), Some(CoreError::ClockOutOfRange));
    assert_eq!(core.networth_curve_at(2026, 12).unwrap().len(), 12);
}
