use chrono::{Datelike, NaiveDate};
use financials::error::AppError;
use financials::portfolio::{
    date_format_examples, edit_text, export_records, logged_days_desc, move_swap, pivot_logs,
    portfolio_csv, row_total, row_total_checked, value_on, values_on, BalanceLog, WealthItem,
};
use uuid::Uuid;

fn uid(s: &str) -> u128 {
    Uuid::parse_str(s).unwrap().as_u128()
}

fn day_of(s: &str) -> i32 {
    NaiveDate::parse_from_str(s, "%Y-%m-%d").unwrap().num_days_from_ce()
}

fn item(id: &str, name: &str, item_type: &str, position: i32) -> WealthItem {
    WealthItem {
        item_id: uid(id),
        name: name.to_string(),
        item_type: item_type.to_string(),
        position,
    }
}

fn log(id: &str, item_id: &str, date: &str, value: i64) -> BalanceLog {
    BalanceLog {
        log_id: uid(id),
        item_id: uid(item_id),
        log_date: day_of(date),
        balance_value: value,
    }
}

fn two_items() -> Vec<WealthItem> {
    vec![
        item("00000000-0000-0000-0000-000000000001", "Savings", "cash", 0),
        item("00000000-0000-0000-0000-000000000002", "Mortgage", "debt", 1),
    ]
}

#[test]
fn pivot_logs_basic() {
    let items = two_items();
    let logs = vec![
        log(
            "a0000000-0000-0000-0000-000000000001",
            "00000000-0000-0000-0000-000000000001",
            "2025-07-01",
            500000,
        ),
        log(
            "a0000000-0000-0000-0000-000000000002",
            "00000000-0000-0000-0000-000000000002",
            "2025-07-01",
            -1500000,
        ),
    ];
    let rows = pivot_logs(&items, &logs);
    assert_eq!(rows.len(), 1);
    assert_eq!(rows[0].date, NaiveDate::from_ymd_opt(2025, 7, 1).unwrap().num_days_from_ce());
    assert_eq!(rows[0].values.len(), 2);
    assert_eq!(rows[0].values[0], Some(500000));
    assert_eq!(rows[0].values[1], Some(-1500000));
}

#[test]
fn pivot_logs_missing_entries() {
    let items = two_items();
    let logs = vec![log(
        "a0000000-0000-0000-0000-000000000001",
        "00000000-0000-0000-0000-000000000001",
        "2025-07-01",
        500000,
    )];
    let rows = pivot_logs(&items, &logs);
    assert_eq!(rows.len(), 1);
    assert_eq!(rows[0].values[0], Some(500000));
    assert_eq!(rows[0].values[1], None);
}

#[test]
fn pivot_logs_sorted_descending() {
    let items = vec![item("00000000-0000-0000-0000-000000000001", "Savings", "cash", 0)];
    let logs = vec![
        log(
            "a0000000-0000-0000-0000-000000000001",
            "00000000-0000-0000-0000-000000000001",
            "2025-07-01",
            100,
        ),
        log(
            "a0000000-0000-0000-0000-000000000002",
            "00000000-0000-0000-0000-000000000001",
            "2025-07-15",
            200,
        ),
    ];
    let rows = pivot_logs(&items, &logs);
    assert_eq!(rows[0].date, NaiveDate::from_ymd_opt(2025, 7, 15).unwrap().num_days_from_ce());
    assert_eq!(rows[1].date, NaiveDate::from_ymd_opt(2025, 7, 1).unwrap().num_days_from_ce());
}

#[test]
fn pivot_logs_empty() {
    let items: Vec<WealthItem> = vec![];
    let logs: Vec<BalanceLog> = vec![];
    let rows = pivot_logs(&items, &logs);
    assert!(rows.is_empty());
}

#[test]
fn pivot_logs_ignores_unknown_items_and_keeps_last_log() {
    let items = vec![item("00000000-0000-0000-0000-000000000001", "Savings", "cash", 0)];
    let logs = vec![
        log(
            "a0000000-0000-0000-0000-000000000001",
            "00000000-0000-0000-0000-000000000001",
            "2025-07-01",
            100,
        ),
        log(
            "a0000000-0000-0000-0000-000000000002",
            "00000000-0000-0000-0000-000000000009",
            "2025-07-02",
            7,
        ),
        log(
            "a0000000-0000-0000-0000-000000000003",
            "00000000-0000-0000-0000-000000000001",
            "2025-07-01",
            300,
        ),
    ];
    let rows = pivot_logs(&items, &logs);
    assert_eq!(rows.len(), 2);
    assert_eq!(rows[0].values, vec![None]);
    assert_eq!(rows[1].values, vec![Some(300)]);
}

#[test]
fn logged_days_desc_each_once() {
    let logs = vec![
        log("a0000000-0000-0000-0000-000000000001", "00000000-0000-0000-0000-000000000001", "2025-07-01", 1),
        log("a0000000-0000-0000-0000-000000000002", "00000000-0000-0000-0000-000000000002", "2025-07-15", 2),
        log("a0000000-0000-0000-0000-000000000003", "00000000-0000-0000-0000-000000000001", "2025-07-01", 3),
    ];
    assert_eq!(logged_days_desc(&logs), vec![day_of("2025-07-15"), day_of("2025-07-01")]);
}

#[test]
fn row_total_counts_debts_negative() {
    let items = two_items();
    assert_eq!(row_total(&items, &vec![Some(500000), Some(150000)]), 350000);
    assert_eq!(row_total(&items, &vec![None, Some(1000)]), -1000);
    assert_eq!(row_total(&items, &vec![]), 0);
}

#[test]
fn value_on_takes_first_log_of_the_day() {
    let logs = vec![
        log("a0000000-0000-0000-0000-000000000001", "00000000-0000-0000-0000-000000000001", "2025-07-01", 10),
        log("a0000000-0000-0000-0000-000000000002", "00000000-0000-0000-0000-000000000001", "2025-07-01", 20),
    ];
    let id1 = uid("00000000-0000-0000-0000-000000000001");
    assert_eq!(value_on(&logs, id1, day_of("2025-07-01")), Some(10));
    assert_eq!(value_on(&logs, id1, day_of("2025-07-02")), None);
    let items = two_items();
    assert_eq!(values_on(&items, &logs, day_of("2025-07-01")), vec![Some(10), None]);
}

#[test]
fn edit_text_plain_decimal() {
    assert_eq!(edit_text(123456), "1234.56");
    assert_eq!(edit_text(-1234), "-12.34");
    assert_eq!(edit_text(5), "0.05");
    assert_eq!(edit_text(0), "0.00");
}

#[test]
fn move_swap_left_right_and_edges() {
    let items = vec![
        item("00000000-0000-0000-0000-000000000001", "A", "cash", 0),
        item("00000000-0000-0000-0000-000000000002", "B", "cash", 1),
        item("00000000-0000-0000-0000-000000000003", "C", "cash", 2),
    ];
    let b = uid("00000000-0000-0000-0000-000000000002");
    let a = uid("00000000-0000-0000-0000-000000000001");
    let c = uid("00000000-0000-0000-0000-000000000003");
    assert_eq!(move_swap(&items, b, "left").unwrap(), Some((1, 0)));
    assert_eq!(move_swap(&items, b, "right").unwrap(), Some((1, 2)));
    assert_eq!(move_swap(&items, a, "left").unwrap(), None);
    assert_eq!(move_swap(&items, c, "right").unwrap(), None);
    assert_eq!(move_swap(&items, b, "up").unwrap(), None);
    match move_swap(&items, 42, "left") {
        Err(AppError::BadRequest(m)) => assert_eq!(m, "Item not found"),
        _ => panic!("expected a bad request"),
    }
}

#[test]
fn date_format_examples_renders_each_format() {
    let ex = date_format_examples("2025-07-04", "%Y-%m-%d").unwrap();
    assert_eq!(ex.len(), 11);
    assert_eq!(ex[0], ("%d/%m/%Y".to_string(), "04/07/2025".to_string()));
    assert_eq!(ex[2], ("%Y-%m-%d".to_string(), "2025-07-04".to_string()));
    assert_eq!(ex[3], ("%m/%d/%Y".to_string(), "07/04/2025".to_string()));
    assert_eq!(ex[8], ("%B %d, %Y".to_string(), "July 04, 2025".to_string()));
    assert!(date_format_examples("not a date", "%Y-%m-%d").is_none());
}

#[test]
fn export_records_pivot_by_day_with_negative_debts() {
    let items = two_items();
    let logs = vec![
        log("a0000000-0000-0000-0000-000000000001", "00000000-0000-0000-0000-000000000001", "2025-07-15", 500000),
        log("a0000000-0000-0000-0000-000000000002", "00000000-0000-0000-0000-000000000002", "2025-07-01", 150000),
    ];
    let recs = export_records(&items, &logs);
    assert_eq!(recs.len(), 3);
    assert_eq!(recs[0], vec!["Date", "Savings", "Mortgage"]);
    assert_eq!(recs[1], vec!["2025-07-01", "", "-$1,500.00"]);
    assert_eq!(recs[2], vec!["2025-07-15", "$5,000.00", ""]);
}

#[test]
fn portfolio_csv_bytes() {
    let items = two_items();
    let logs = vec![log(
        "a0000000-0000-0000-0000-000000000001",
        "00000000-0000-0000-0000-000000000001",
        "2025-07-15",
        1234,
    )];
    let bytes = portfolio_csv(&items, &logs).unwrap();
    assert_eq!(
        String::from_utf8(bytes).unwrap(),
        "Date,Savings,Mortgage\n2025-07-15,$12.34,\n"
    );
}

#[test]
fn portfolio_csv_rejects_invalid_day() {
    let items = two_items();
    let mut bad = log(
        "a0000000-0000-0000-0000-000000000001",
        "00000000-0000-0000-0000-000000000001",
        "2025-07-15",
        1,
    );
    bad.log_date = i32::MAX;
    assert!(matches!(portfolio_csv(&items, &vec![bad]), Err(AppError::Internal(_))));
}

#[test]
fn row_total_checked_detects_overflow() {
    let items = two_items();
    assert_eq!(row_total_checked(&items, &vec![Some(500000), Some(150000)]), Some(350000));
    assert_eq!(row_total_checked(&items, &vec![Some(i64::MAX), None]), Some(i64::MAX));
    assert_eq!(row_total_checked(&items, &vec![None, Some(i64::MIN)]), None);
    let cash = vec![item("00000000-0000-0000-0000-000000000001", "A", "cash", 0), item("00000000-0000-0000-0000-000000000003", "B", "cash", 1)];
    assert_eq!(row_total_checked(&cash, &vec![Some(i64::MAX), Some(1)]), None);
}
