use artha_core::amount::parse_amount;
use artha_core::csv_import::{find_index, normalize_table, parse_csv, Column, ImportError};
use artha_core::dates::normalize_date;

#[test]
fn parentheses_amount_is_negative() {
    assert_eq!(parse_amount("(7,500.00)"), Some(-750_000));
}

#[test]
fn amount_forms() {
    assert_eq!(parse_amount(""), Some(0));
    assert_eq!(parse_amount("   "), Some(0));
    assert_eq!(parse_amount("12"), Some(1_200));
    assert_eq!(parse_amount("12.5"), Some(1_250));
    assert_eq!(parse_amount("12.50"), Some(1_250));
    assert_eq!(parse_amount(".5"), Some(50));
    assert_eq!(parse_amount("5."), Some(500));
    assert_eq!(parse_amount("-$1,234.56"), Some(-123_456));
    assert_eq!(parse_amount("$-1,234.56"), Some(-123_456));
    assert_eq!(parse_amount(" 248.00 "), Some(24_800));
    assert_eq!(parse_amount("- 5"), Some(-500));
    assert_eq!(parse_amount("( 5 )"), Some(-500));
    assert_eq!(parse_amount("-0"), Some(0));
}

#[test]
fn unreadable_amounts() {
    assert_eq!(parse_amount("abc"), None);
    assert_eq!(parse_amount("12.345"), None);
    assert_eq!(parse_amount("1.2.3"), None);
    assert_eq!(parse_amount("."), None);
    assert_eq!(parse_amount("-"), None);
    assert_eq!(parse_amount("()"), None);
    assert_eq!(parse_amount("1e3"), None);
    assert_eq!(parse_amount("5-"), None);
    assert_eq!(parse_amount("+5"), None);
}

#[test]
fn amount_limit() {
    assert_eq!(parse_amount("9999999999999999.99"), Some(999_999_999_999_999_999));
    assert_eq!(parse_amount("10000000000000000"), None);
    assert_eq!(parse_amount("10000000000000000.00"), None);
    assert_eq!(parse_amount("99999999999999999999999999999999"), None);
    assert_eq!(parse_amount("0000000000000000000000000001"), Some(100));
}

#[test]
fn two_digit_year_date_is_normalized() {
    assert_eq!(normalize_date("01/01/26"), "2026-01-01");
}

#[test]
fn date_layouts() {
    assert_eq!(normalize_date("31/12/2025"), "2025-12-31");
    assert_eq!(normalize_date("5/3/24"), "2024-03-05");
    assert_eq!(normalize_date("05-03-2024"), "2024-03-05");
    assert_eq!(normalize_date("2024-3-5"), "2024-03-05");
    assert_eq!(normalize_date("2024-03-05"), "2024-03-05");
    assert_eq!(normalize_date("29/02/2024"), "2024-02-29");
}

#[test]
fn dates_that_fit_no_layout_are_kept() {
    assert_eq!(normalize_date("29/02/2023"), "29/02/2023");
    assert_eq!(normalize_date("31/04/2024"), "31/04/2024");
    assert_eq!(normalize_date("01/13/2024"), "01/13/2024");
    assert_eq!(normalize_date("Jan 5, 2024"), "Jan 5, 2024");
    assert_eq!(normalize_date("2024/03/05"), "2024/03/05");
    assert_eq!(normalize_date("01/01/026"), "01/01/026");
    assert_eq!(normalize_date(""), "");
}

#[test]
fn debit_and_credit_columns() {
    let data = b"Date,Description,Debit,Credit\n01/01/26,Rent,7500.00,0.00\n02/01/26,Refund,0.00,248.00\n";
    let rows = parse_csv(data).unwrap();
    assert_eq!(rows.len(), 2);
    assert_eq!(rows[0].date, "2026-01-01");
    assert_eq!(rows[0].description, "Rent");
    assert_eq!(rows[0].amount, -750_000);
    assert_eq!(rows[1].date, "2026-01-02");
    assert_eq!(rows[1].amount, 24_800);
}

#[test]
fn empty_description_defaults() {
    let data = b"Date,Description,Amount\n2026-01-05,   ,12.00\n2026-01-06\n";
    let rows = parse_csv(data).unwrap();
    assert_eq!(rows.len(), 2);
    assert_eq!(rows[0].description, "Transaction");
    assert_eq!(rows[1].description, "Transaction");
    assert_eq!(rows[1].amount, 0);
}

#[test]
fn header_only_fails() {
    assert_eq!(parse_csv(b"Date,Description,Amount\n").err(), Some(ImportError::NoUsableRows));
}

#[test]
fn all_rows_malformed_fails() {
    let data = b"Date,Description,Amount\n,Coffee,3.50\n2026-01-05,Tea,abc\n";
    assert_eq!(parse_csv(data).err(), Some(ImportError::NoUsableRows));
}

#[test]
fn malformed_rows_are_skipped() {
    let data = b"Date,Description,Amount\n2026-01-05,Tea,abc\n2026-01-06,Coffee,-3.50\n2026-01-07,\xff\xfe,1.00\n";
    let rows = parse_csv(data).unwrap();
    assert_eq!(rows.len(), 1);
    assert_eq!(rows[0].description, "Coffee");
    assert_eq!(rows[0].amount, -350);
}

#[test]
fn missing_columns() {
    assert_eq!(
        parse_csv(b"Description,Amount\nTea,1.00\n").err(),
        Some(ImportError::MissingColumn(Column::Date))
    );
    assert_eq!(
        parse_csv(b"Date,Amount\n2026-01-01,1.00\n").err(),
        Some(ImportError::MissingColumn(Column::Description))
    );
    assert_eq!(parse_csv(b"").err(), Some(ImportError::MissingColumn(Column::Date)));
    assert_eq!(parse_csv(b"\xff,Date\n").err(), Some(ImportError::MissingHeader));
}

#[test]
fn headers_match_without_case_and_by_containment() {
    let data = b" POSTED DATE ,Memo,Debit Value,Credit Value\n01-02-2026,Shop,10.00,\n";
    let rows = parse_csv(data).unwrap();
    assert_eq!(rows.len(), 1);
    assert_eq!(rows[0].date, "2026-02-01");
    assert_eq!(rows[0].description, "Shop");
    assert_eq!(rows[0].amount, -1_000);
}

#[test]
fn exact_names_win_over_containing_ones() {
    let headers = vec!["posted date".to_string(), "date".to_string(), "updated".to_string()];
    assert_eq!(find_index(&headers, &["date", "transaction date", "posted date"]), Some(1));
    assert_eq!(find_index(&headers, &["transaction date", "posted date"]), Some(0));
    assert_eq!(find_index(&headers, &["up"]), Some(2));
    assert_eq!(find_index(&headers, &["amount"]), None);
    let later = vec!["my date".to_string(), "posted date".to_string()];
    assert_eq!(find_index(&later, &["date", "posted date"]), Some(1));
    assert_eq!(find_index(&later, &["date"]), Some(0));
}

#[test]
fn import_error_messages() {
    assert_eq!(ImportError::NoUsableRows.message(), "CSV produced zero rows");
    assert_eq!(ImportError::MissingColumn(Column::Date).message(), "CSV missing date column");
}

fn cells(values: &[&str]) -> Option<Vec<String>> {
    Some(values.iter().map(|v| v.to_string()).collect())
}

#[test]
fn table_of_cells_is_normalized_record_by_record() {
    let header = cells(&["Date", "Name", "Amount", "Debit", "Credit"]);
    let records = vec![
        cells(&["01/02/2026", " Shop ", "-1.50", "9.00", "9.00"]),
        None,
        cells(&["  ", "No date", "1.00"]),
        cells(&["2026-02-03"]),
        cells(&["03.02.2026", "", "($2)"]),
        cells(&["2026-02-04", "Bad", "1,5x"]),
    ];
    let rows = normalize_table(header, records).unwrap();
    assert_eq!(rows.len(), 3);
    assert_eq!(rows[0].date, "2026-02-01");
    assert_eq!(rows[0].description, "Shop");
    assert_eq!(rows[0].amount, -150);
    assert_eq!(rows[1].date, "2026-02-03");
    assert_eq!(rows[1].description, "Transaction");
    assert_eq!(rows[1].amount, 0);
    assert_eq!(rows[2].date, "03.02.2026");
    assert_eq!(rows[2].description, "Transaction");
    assert_eq!(rows[2].amount, -200);
}

#[test]
fn table_without_header_or_rows_fails() {
    assert_eq!(normalize_table(None, vec![]).err(), Some(ImportError::MissingHeader));
    assert_eq!(
        normalize_table(cells(&["date", "memo"]), vec![None, None]).err(),
        Some(ImportError::NoUsableRows)
    );
    assert_eq!(
        normalize_table(cells(&["date", "memo", "debit"]), vec![cells(&["2026-01-01", "x", "?"])])
            .err(),
        Some(ImportError::NoUsableRows)
    );
    let rows = normalize_table(
        cells(&["date", "memo", "debit"]),
        vec![cells(&["2026-01-01", "x", "4"]), cells(&["2026-01-01", "x"])],
    )
    .unwrap();
    assert_eq!(rows[0].amount, -400);
    assert_eq!(rows[1].amount, 0);
}

#[test]
fn normalizing_twice_changes_nothing() {
    for text in ["01/01/26", "5/3/2024", "05-03-2024", "2024-3-5", "31/04/2024", "soon", ""] {
        let once = normalize_date(text);
        assert_eq!(normalize_date(&once), once);
    }
}
