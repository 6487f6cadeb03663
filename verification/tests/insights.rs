use chrono::{Datelike, NaiveDate};
use financials::insights::{allocation, compute_insights, greeting, money_text, range_cutoff};
use financials::portfolio::{BalanceLog, WealthItem};

fn day(y: i32, m: u32, d: u32) -> i32 {
    NaiveDate::from_ymd_opt(y, m, d).unwrap().num_days_from_ce()
}

fn item(id: u128, name: &str, item_type: &str) -> WealthItem {
    WealthItem {
        item_id: id,
        name: name.to_string(),
        item_type: item_type.to_string(),
        position: 0,
    }
}

fn log(item_id: u128, date: i32, value: i64) -> BalanceLog {
    BalanceLog {
        log_id: 0,
        item_id,
        log_date: date,
        balance_value: value,
    }
}

#[test]
fn greeting_by_hour() {
    assert_eq!(greeting(0), "Good morning");
    assert_eq!(greeting(11), "Good morning");
    assert_eq!(greeting(12), "Good afternoon");
    assert_eq!(greeting(17), "Good afternoon");
    assert_eq!(greeting(18), "Good evening");
    assert_eq!(greeting(23), "Good evening");
}

#[test]
fn range_cutoff_presets() {
    let today = day(2025, 8, 15);
    let t = today as i64;
    let r = |s: &str| range_cutoff(&Some(s.to_string()), today);
    assert_eq!(r("30d"), t - 30);
    assert_eq!(r("90d"), t - 90);
    assert_eq!(r("6m"), t - 180);
    assert_eq!(r("1y"), t - 365);
    assert_eq!(r("quarter"), day(2025, 7, 1) as i64 - 91);
    assert_eq!(r("this_fy"), day(2025, 7, 1) as i64);
    assert_eq!(r("last_fy"), day(2024, 7, 1) as i64);
    assert_eq!(r("all"), day(2000, 1, 1) as i64);
    assert_eq!(range_cutoff(&None, today), day(2000, 1, 1) as i64);
}

#[test]
fn range_cutoff_financial_year_before_july() {
    let today = day(2025, 3, 15);
    assert_eq!(range_cutoff(&Some("this_fy".to_string()), today), day(2024, 7, 1) as i64);
    assert_eq!(range_cutoff(&Some("last_fy".to_string()), today), day(2023, 7, 1) as i64);
    assert_eq!(range_cutoff(&Some("quarter".to_string()), today), day(2025, 1, 1) as i64 - 91);
}

#[test]
fn money_text_formats() {
    assert_eq!(money_text(-12345), "-$123.45");
    assert_eq!(money_text(5), "$0.05");
    assert_eq!(money_text(0), "$0.00");
    assert_eq!(money_text(123456789), "$1234567.89");
}

#[test]
fn compute_insights_summary() {
    let items = vec![item(1, "Savings", "cash"), item(2, "Loan", "debt")];
    let logs = vec![
        log(1, day(1999, 6, 1), 7),
        log(1, day(2025, 1, 15), 100000),
        log(2, day(2025, 1, 15), 50000),
        log(1, day(2025, 3, 10), 120000),
        log(1, day(2025, 3, 10), 130000),
        log(2, day(2025, 3, 10), 40000),
    ];
    let ins = compute_insights(&items, &logs, day(2000, 1, 1) as i64);
    assert_eq!(ins.dates, vec![day(2025, 1, 15), day(2025, 3, 10)]);
    assert_eq!(ins.values, vec![vec![100000, 130000], vec![-50000, -40000]]);
    assert_eq!(ins.net_worth, vec![50000, 90000]);
    assert_eq!(ins.total_net_worth, 90000);
    assert_eq!(ins.total_debt, -40000);
    assert_eq!(ins.total_increase, 40000);
    assert_eq!(ins.num_months, 2);
    assert_eq!(ins.avg_per_month, 20000);
}

#[test]
fn compute_insights_empty_and_single_day() {
    let items = vec![item(1, "Savings", "cash")];
    let none = compute_insights(&items, &vec![], 0);
    assert!(none.dates.is_empty());
    assert_eq!(none.total_net_worth, 0);
    assert_eq!(none.num_months, 1);
    let one = compute_insights(&items, &vec![log(1, day(2025, 1, 1), 999)], 0);
    assert_eq!(one.total_net_worth, 999);
    assert_eq!(one.total_increase, 0);
    assert_eq!(one.avg_per_month, 0);
}

#[test]
fn compute_insights_rounds_average() {
    // An increase of 100 cents over three months is 33 cents a month.
    let items = vec![item(1, "Savings", "cash")];
    let logs = vec![log(1, day(2025, 1, 1), 0), log(1, day(2025, 4, 1), 100)];
    let ins = compute_insights(&items, &logs, 0);
    assert_eq!(ins.num_months, 3);
    assert_eq!(ins.avg_per_month, 33);
}

#[test]
fn allocation_takes_positive_latest_values() {
    let values = vec![vec![100, 0], vec![-5, -7], vec![0, 0], vec![3, 9]];
    assert_eq!(allocation(&values), vec![(0, 100), (3, 9)]);
}
