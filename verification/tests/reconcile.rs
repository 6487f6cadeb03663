use chrono::{Datelike, NaiveDate};
use financials::reconcile::{find_subset_sum, gap_text, unmatched_totals, match_gap, plan_auto_match, OutgoingTxn, ReconciledTxn, SortOrder};
use uuid::Uuid;

fn day(y: i32, m: u32, d: u32) -> i32 {
    NaiveDate::from_ymd_opt(y, m, d).unwrap().num_days_from_ce()
}

fn id(s: &str) -> u128 {
    Uuid::parse_str(s).unwrap().as_u128()
}

fn txn(s: &str, amount: i64) -> ReconciledTxn {
    ReconciledTxn {
        txn_id: id(s),
        session_id: 0,
        date: day(2025, 1, 1),
        amount,
        vendor: "test".to_string(),
        matched: false,
        ignored: false,
        metadata: vec![],
    }
}

fn out(s: &str, amount: i64, matched: bool) -> OutgoingTxn {
    OutgoingTxn {
        txn_id: id(s),
        session_id: 0,
        date: day(2025, 1, 1),
        amount,
        vendor: "shop".to_string(),
        matched,
        ignored: false,
        metadata: vec![],
    }
}

#[test]
fn find_subset_sum_exact_single_match() {
    let items = vec![txn("00000000-0000-0000-0000-000000000001", 100)];
    assert_eq!(find_subset_sum(&items, 100, 4), None);
}

#[test]
fn find_subset_sum_two_item_match() {
    let items = vec![
        txn("00000000-0000-0000-0000-000000000001", 60),
        txn("00000000-0000-0000-0000-000000000002", 40),
    ];
    let result = find_subset_sum(&items, 100, 4);
    assert!(result.is_some());
    let ids = result.unwrap();
    assert_eq!(ids.len(), 2);
}

#[test]
fn find_subset_sum_three_item_match() {
    let items = vec![
        txn("00000000-0000-0000-0000-000000000001", 50),
        txn("00000000-0000-0000-0000-000000000002", 30),
        txn("00000000-0000-0000-0000-000000000003", 20),
    ];
    let result = find_subset_sum(&items, 100, 4);
    assert!(result.is_some());
}

#[test]
fn find_subset_sum_no_match() {
    let items = vec![
        txn("00000000-0000-0000-0000-000000000001", 10),
        txn("00000000-0000-0000-0000-000000000002", 20),
    ];
    assert_eq!(find_subset_sum(&items, 100, 4), None);
}

#[test]
fn find_subset_sum_empty_items() {
    let items: Vec<ReconciledTxn> = vec![];
    assert_eq!(find_subset_sum(&items, 50, 4), None);
}

#[test]
fn find_subset_sum_respects_max_len() {
    let items = vec![
        txn("00000000-0000-0000-0000-000000000001", 20),
        txn("00000000-0000-0000-0000-000000000002", 20),
        txn("00000000-0000-0000-0000-000000000003", 20),
        txn("00000000-0000-0000-0000-000000000004", 20),
        txn("00000000-0000-0000-0000-000000000005", 20),
    ];
    assert_eq!(find_subset_sum(&items, 100, 3), None);
}

#[test]
fn find_subset_sum_four_item_match() {
    let items = vec![
        txn("00000000-0000-0000-0000-000000000001", 10),
        txn("00000000-0000-0000-0000-000000000002", 20),
        txn("00000000-0000-0000-0000-000000000003", 30),
        txn("00000000-0000-0000-0000-000000000004", 40),
    ];
    let result = find_subset_sum(&items, 100, 4);
    assert!(result.is_some());
    assert_eq!(result.unwrap().len(), 4);
}

#[test]
fn find_subset_sum_large_set_performance() {
    let items: Vec<ReconciledTxn> = (0..200)
        .map(|i| {
            txn(
                &format!("00000000-0000-0000-0000-{:012}", i),
                (i as i64 % 97) + 1,
            )
        })
        .collect();
    let result = find_subset_sum(&items, 999999, 4);
    assert_eq!(result, None);
}

#[test]
fn find_subset_sum_pairs_before_triples() {
    // 30 + 70 is a pair; 10 + 20 + 70 a triple: the pair is preferred.
    let items = vec![
        txn("00000000-0000-0000-0000-000000000001", 10),
        txn("00000000-0000-0000-0000-000000000002", 20),
        txn("00000000-0000-0000-0000-000000000003", 30),
        txn("00000000-0000-0000-0000-000000000004", 70),
    ];
    let ids = find_subset_sum(&items, 100, 4).unwrap();
    let mut sorted = ids.clone();
    sorted.sort();
    assert_eq!(sorted, vec![3, 4]);
}

#[test]
fn find_subset_sum_found_ids_sum_to_target() {
    let items = vec![
        txn("00000000-0000-0000-0000-000000000001", 5),
        txn("00000000-0000-0000-0000-000000000002", 15),
        txn("00000000-0000-0000-0000-000000000003", 25),
        txn("00000000-0000-0000-0000-000000000004", 45),
    ];
    let ids = find_subset_sum(&items, 65, 4).unwrap();
    let total: i64 = ids
        .iter()
        .map(|i| items.iter().find(|t| t.txn_id == *i).unwrap().amount)
        .sum();
    assert_eq!(total, 65);
    assert_eq!(ids.len(), 3);
}

#[test]
fn find_subset_sum_negative_amounts() {
    let items = vec![
        txn("00000000-0000-0000-0000-000000000001", -30),
        txn("00000000-0000-0000-0000-000000000002", 130),
    ];
    let ids = find_subset_sum(&items, 100, 4).unwrap();
    assert_eq!(ids.len(), 2);
}

#[test]
fn plan_auto_match_exact_then_combination() {
    let outgoing = vec![
        out("10000000-0000-0000-0000-000000000001", 100, false),
        out("10000000-0000-0000-0000-000000000002", 50, false),
        out("10000000-0000-0000-0000-000000000003", 70, true),
    ];
    let reconciled = vec![
        txn("00000000-0000-0000-0000-000000000001", 50),
        txn("00000000-0000-0000-0000-000000000002", 60),
        txn("00000000-0000-0000-0000-000000000003", 40),
    ];
    let proposals = plan_auto_match(&outgoing, &reconciled, &vec![]);
    // The largest amount comes first: 100 gets 60 + 40, 50 gets the 50.
    assert_eq!(proposals.len(), 2);
    assert_eq!(proposals[0].outgoing_id, id("10000000-0000-0000-0000-000000000001"));
    let mut first = proposals[0].reconciled_ids.clone();
    first.sort();
    assert_eq!(first, vec![2, 3]);
    assert_eq!(proposals[1].outgoing_id, id("10000000-0000-0000-0000-000000000002"));
    assert_eq!(proposals[1].reconciled_ids, vec![1]);
}

#[test]
fn plan_auto_match_skips_and_does_not_reuse() {
    let outgoing = vec![
        out("10000000-0000-0000-0000-000000000001", 50, false),
        out("10000000-0000-0000-0000-000000000002", 50, false),
        out("10000000-0000-0000-0000-000000000003", 50, false),
    ];
    let mut used = txn("00000000-0000-0000-0000-000000000009", 50);
    used.matched = true;
    let reconciled = vec![txn("00000000-0000-0000-0000-000000000001", 50), used];
    let skip = vec![id("10000000-0000-0000-0000-000000000001")];
    let proposals = plan_auto_match(&outgoing, &reconciled, &skip);
    assert_eq!(proposals.len(), 1);
    assert_eq!(proposals[0].outgoing_id, id("10000000-0000-0000-0000-000000000002"));
    assert_eq!(proposals[0].reconciled_ids, vec![1]);
}

#[test]
fn plan_auto_match_nothing_open() {
    let proposals = plan_auto_match(&vec![], &vec![txn("00000000-0000-0000-0000-000000000001", 5)], &vec![]);
    assert!(proposals.is_empty());
}

#[test]
fn sort_order_names_and_default() {
    assert_eq!(SortOrder::default(), SortOrder::Date);
    assert_eq!(SortOrder::Date.to_string(), "date");
    assert_eq!(SortOrder::Amount.to_string(), "amount");
}

#[test]
fn match_gap_over_and_under() {
    assert_eq!(match_gap(100, &vec![60, 50]), 10);
    assert_eq!(match_gap(100, &vec![60]), -40);
    assert_eq!(match_gap(-5, &vec![]), 5);
}

#[test]
fn gap_text_over_under_exact() {
    assert_eq!(gap_text(10_000, &vec![6_000, 4_550]), Some("Over $5.50".to_string()));
    assert_eq!(gap_text(123_456_789, &vec![100]), Some("Under $1,234,566.89".to_string()));
    assert_eq!(gap_text(10_000, &vec![6_000, 4_000]), None);
    assert_eq!(gap_text(0, &vec![]), None);
}

#[test]
fn unmatched_totals_sum_open_sides() {
    let a = "00000000-0000-0000-0000-000000000001";
    let outs = vec![out(a, 5_000, false), out(a, 7_000, true), out(a, 1_250, false)];
    let mut matched = txn(a, 9_999);
    matched.matched = true;
    let recs = vec![txn(a, 3_000), matched, txn(a, 500)];
    assert_eq!(unmatched_totals(&outs, &recs), (6_250, 3_500, 2_750));
    assert_eq!(unmatched_totals(&vec![], &vec![]), (0, 0, 0));
}
