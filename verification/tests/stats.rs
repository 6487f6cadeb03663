use financials::portfolio::{BalanceLog, WealthItem};
use chrono::{Datelike, NaiveDate};
use financials::requests::StatsFilter;
use financials::stats::{current_totals, stats_data, stats_filter};

fn item(id: u128, name: &str, ty: &str) -> WealthItem {
    WealthItem { item_id: id, name: name.to_string(), item_type: ty.to_string(), position: 0 }
}

fn log(id: u128, day: i32, value: i64) -> BalanceLog {
    BalanceLog { log_id: 0, item_id: id, log_date: day, balance_value: value }
}

#[test]
fn current_totals_use_latest_balance_per_item() {
    let items = vec![
        item(1, "House", "asset"),
        item(2, "Shares", "investment"),
        item(3, "Loan", "debt"),
        item(4, "Wallet", "cash"),
        item(5, "Unused", "asset"),
    ];
    let logs = vec![
        log(1, 10, 100_000),
        log(1, 20, 120_000),
        log(2, 20, 50_000),
        log(2, 15, 40_000),
        log(3, 20, 30_000),
        log(3, 20, 99_999),
        log(4, 5, 700),
    ];
    let t = current_totals(&items, &logs);
    assert_eq!(t.assets, 120_000);
    assert_eq!(t.investments, 50_000);
    assert_eq!(t.debts, 30_000);
    assert_eq!(t.net, 120_000 + 50_000 - 30_000 + 700);
}

#[test]
fn current_totals_empty() {
    let t = current_totals(&Vec::new(), &Vec::new());
    assert_eq!((t.net, t.assets, t.investments, t.debts), (0, 0, 0, 0));
}

fn day(y: i32, m: u32, d: u32) -> i32 {
    NaiveDate::from_ymd_opt(y, m, d).unwrap().num_days_from_ce()
}

#[test]
fn stats_filter_reads_fields() {
    let f = StatsFilter {
        portfolio: Some("00000000-0000-0000-0000-00000000002a".to_string()),
        from: Some("2025-01-31".to_string()),
        to: Some("not a date".to_string()),
    };
    assert_eq!(stats_filter(&f), (Some(42), Some(day(2025, 1, 31)), None));
    let none = StatsFilter { portfolio: Some("x".to_string()), from: None, to: None };
    assert_eq!(stats_filter(&none), (None, None, None));
}

fn sample() -> (Vec<(u128, Vec<WealthItem>)>, Vec<BalanceLog>) {
    let ps = vec![
        (1, vec![item(10, "House", "asset"), item(11, "Loan", "debt")]),
        (2, vec![item(20, "Shares", "investment"), item(21, "Wallet", "cash")]),
    ];
    let logs = vec![
        log(10, day(2025, 1, 1), 100_000),
        log(11, day(2025, 1, 1), 40_000),
        log(20, day(2025, 2, 1), 10_000),
        log(10, day(2025, 3, 1), 110_000),
        log(21, day(2025, 3, 1), 500),
        log(10, day(2025, 3, 1), 111_000),
    ];
    (ps, logs)
}

#[test]
fn stats_data_series_and_totals() {
    let (ps, logs) = sample();
    let r = stats_data(&ps, &logs, (None, None, None));
    assert_eq!(r.dates, vec![day(2025, 1, 1), day(2025, 2, 1), day(2025, 3, 1)]);
    assert_eq!(r.net_worth, vec![60_000, 70_000, 81_500]);
    assert_eq!(r.assets, vec![100_000, 100_000, 111_000]);
    assert_eq!(r.investments, vec![0, 10_000, 10_000]);
    assert_eq!(r.debts, vec![40_000, 40_000, 40_000]);
    assert_eq!(r.mom_change, vec![10_000, 11_500]);
    assert_eq!(r.net_change, 21_500);
    assert_eq!(r.portfolios.len(), 2);
    assert_eq!(r.portfolios[0].0, 1);
    // Current totals keep the first balance logged on an item's latest day.
    assert_eq!(r.portfolios[0].1.net, 110_000 - 40_000);
    assert_eq!(r.portfolios[0].2, 2);
    assert_eq!(r.portfolios[1].1.net, 10_500);
    assert_eq!(r.total.net, 80_500);
    assert_eq!(r.total.assets, 110_000);
    assert_eq!(r.total.investments, 10_000);
    assert_eq!(r.total.debts, 40_000);
    assert_eq!(r.total_items, 4);
    assert_eq!(r.type_labels, vec!["asset", "debt", "investment", "cash"]);
    assert_eq!(r.type_values, vec![110_000, -40_000, 10_000, 500]);
    let loan = r.item_trends.iter().find(|t| t.0 == 11).unwrap();
    assert_eq!(loan.1, vec![(day(2025, 1, 1), -40_000), (day(2025, 2, 1), -40_000), (day(2025, 3, 1), -40_000)]);
    let wallet = r.item_trends.iter().find(|t| t.0 == 21).unwrap();
    assert_eq!(wallet.1, vec![(day(2025, 3, 1), 500)]);
}

#[test]
fn stats_data_filters_portfolio_and_days() {
    let (ps, logs) = sample();
    let r = stats_data(&ps, &logs, (Some(1), Some(day(2025, 2, 1)), None));
    assert_eq!(r.dates, vec![day(2025, 3, 1)]);
    assert_eq!(r.net_worth, vec![111_000]);
    assert!(r.mom_change.is_empty());
    assert_eq!(r.net_change, 0);
    assert_eq!(r.portfolios.len(), 1);
    assert_eq!(r.total.net, 70_000);
    assert_eq!(r.total_items, 2);
    assert_eq!(r.item_trends.len(), 1);
    let empty = stats_data(&vec![], &logs, (None, None, None));
    assert!(empty.dates.is_empty() && empty.net_worth.is_empty() && empty.type_labels.is_empty());
}
