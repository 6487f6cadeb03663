//! The figures of the statistics page: a portfolio's current net worth
//! and its totals per item type, from the latest balance of every item.

use vstd::prelude::*;
use crate::dates::{chrono_parse_day, parse_day};
use crate::forms::{parse_uuid, uuid_parse};
use crate::portfolio::{has_day, listed, logged_days_desc, BalanceLog, WealthItem};
use crate::requests::StatsFilter;
use crate::text::{chars_eq, chars_of};

verus! {

/// The latest `(day, balance)` logged for the item: going through the
/// logs in order, a log replaces the one kept only when its day is later,
/// so of several logs on the latest day the first counts.
pub open spec fn latest_log(logs: Seq<BalanceLog>, id: u128) -> Option<(i32, i64)>
    decreases logs.len(),
{
    if logs.len() == 0 {
        None
    } else {
        let p = latest_log(logs.drop_last(), id);
        let l = logs.last();
        if l.item_id != id {
            p
        } else {
            match p {
                Some((d, _)) => if l.log_date > d {
                    Some((l.log_date, l.balance_value))
                } else {
                    p
                },
                None => Some((l.log_date, l.balance_value)),
            }
        }
    }
}

/// Whether the item at `j` is the first with its id (an id counts once,
/// with the type of its first item).
pub open spec fn first_with_id(items: Seq<WealthItem>, j: int) -> bool {
    forall|k: int| 0 <= k < j ==> (#[trigger] items[k]).item_id != items[j].item_id
}

/// The current totals over the first `j` items, from the latest balance
/// of each id that has one: the net worth (debts counted negative), and
/// the sums of the assets, the investments and the debts.
pub open spec fn totals_upto(items: Seq<WealthItem>, logs: Seq<BalanceLog>, j: int) -> (
    int,
    int,
    int,
    int,
)
    decreases j,
{
    if j <= 0 {
        (0, 0, 0, 0)
    } else {
        let t = totals_upto(items, logs, j - 1);
        let it = items[j - 1];
        if first_with_id(items, j - 1) {
            match latest_log(logs, it.item_id) {
                Some((_, v)) => {
                    let ty = it.item_type@;
                    (
                        t.0 + if ty == "debt"@ {
                            -v
                        } else {
                            v as int
                        },
                        t.1 + if ty == "asset"@ {
                            v as int
                        } else {
                            0
                        },
                        t.2 + if ty == "investment"@ {
                            v as int
                        } else {
                            0
                        },
                        t.3 + if ty == "debt"@ {
                            v as int
                        } else {
                            0
                        },
                    )
                },
                None => t,
            }
        } else {
            t
        }
    }
}

/// A portfolio's current totals, in cents.
pub struct PortfolioTotals {
    /// Assets, investments and other items, less debts.
    pub net: i128,
    pub assets: i128,
    pub investments: i128,
    pub debts: i128,
}

/// The view of the totals: `(net, assets, investments, debts)`.
pub open spec fn totals_view(t: PortfolioTotals) -> (int, int, int, int) {
    (t.net as int, t.assets as int, t.investments as int, t.debts as int)
}

/// Each of the first `j` totals is at most `j` balances in size.
proof fn lemma_totals_bound(items: Seq<WealthItem>, logs: Seq<BalanceLog>, j: int)
    requires
        0 <= j <= items.len(),
    ensures
        -j * 0x8000_0000_0000_0000 <= totals_upto(items, logs, j).0 <= j * 0x8000_0000_0000_0000,
        -j * 0x8000_0000_0000_0000 <= totals_upto(items, logs, j).1 <= j * 0x8000_0000_0000_0000,
        -j * 0x8000_0000_0000_0000 <= totals_upto(items, logs, j).2 <= j * 0x8000_0000_0000_0000,
        -j * 0x8000_0000_0000_0000 <= totals_upto(items, logs, j).3 <= j * 0x8000_0000_0000_0000,
    decreases j,
{
    if j > 0 {
        lemma_totals_bound(items, logs, j - 1);
    }
}

/// The latest `(day, balance)` logged for the item (see `latest_log`).
fn latest_log_exec(logs: &Vec<BalanceLog>, id: u128) -> (r: Option<(i32, i64)>)
    ensures
        r == latest_log(logs@, id),
{
    let mut cur: Option<(i32, i64)> = None;
    let mut i: usize = 0;
    assert(logs@.take(0) =~= Seq::<BalanceLog>::empty());
    while i < logs.len()
        invariant
            i <= logs.len(),
            cur == latest_log(logs@.take(i as int), id),
        decreases logs.len() - i,
    {
        assert(logs@.take(i + 1).drop_last() =~= logs@.take(i as int));
        let l = logs[i];
        if l.item_id == id {
            match cur {
                Some((d, _)) => {
                    if l.log_date > d {
                        cur = Some((l.log_date, l.balance_value));
                    }
                },
                None => {
                    cur = Some((l.log_date, l.balance_value));
                },
            }
        }
        i = i + 1;
    }
    assert(logs@.take(logs.len() as int) =~= logs@);
    cur
}

fn first_with_id_exec(items: &Vec<WealthItem>, j: usize) -> (r: bool)
    requires
        j < items.len(),
    ensures
        r == first_with_id(items@, j as int),
{
    let mut k: usize = 0;
    while k < j
        invariant
            k <= j < items.len(),
            forall|t: int| 0 <= t < k ==> (#[trigger] items@[t]).item_id != items@[j as int].item_id,
        decreases j - k,
    {
        if items[k].item_id == items[j].item_id {
            return false;
        }
        k = k + 1;
    }
    true
}

/// A portfolio's current totals: for each item id that has a balance, its
/// latest balance (see `latest_log`), counted by the type of the first
/// item with that id (see `totals_upto`).
pub fn current_totals(items: &Vec<WealthItem>, logs: &Vec<BalanceLog>) -> (r: PortfolioTotals)
    ensures
        totals_view(r) == totals_upto(items@, logs@, items.len() as int),
{
    let debt = chars_of("debt");
    let asset = chars_of("asset");
    let investment = chars_of("investment");
    let mut net: i128 = 0;
    let mut assets: i128 = 0;
    let mut investments: i128 = 0;
    let mut debts: i128 = 0;
    let mut j: usize = 0;
    while j < items.len()
        invariant
            j <= items.len(),
            debt@ == "debt"@,
            asset@ == "asset"@,
            investment@ == "investment"@,
            (net as int, assets as int, investments as int, debts as int) == totals_upto(
                items@,
                logs@,
                j as int,
            ),
        decreases items.len() - j,
    {
        proof {
            lemma_totals_bound(items@, logs@, j as int);
            lemma_totals_bound(items@, logs@, j + 1);
            assert(j * 0x8000_0000_0000_0000 < 0x8000_0000_0000_0000_0000_0000_0000_0000 - 0x8000_0000_0000_0000);
            reveal_strlit("debt");
            reveal_strlit("asset");
            reveal_strlit("investment");
            assert("debt"@ != "asset"@ && "debt"@ != "investment"@ && "asset"@ != "investment"@) by {
                assert("debt"@[0] != "asset"@[0]);
                assert("debt"@[0] != "investment"@[0]);
                assert("asset"@[0] != "investment"@[0]);
            }
        }
        if first_with_id_exec(items, j) {
            match latest_log_exec(logs, items[j].item_id) {
                Some((_, v)) => {
                    let ty = chars_of(items[j].item_type.as_str());
                    let w = v as i128;
                    if chars_eq(&ty, &debt) {
                        net = net - w;
                        debts = debts + w;
                    } else {
                        net = net + w;
                        if chars_eq(&ty, &asset) {
                            assets = assets + w;
                        } else if chars_eq(&ty, &investment) {
                            investments = investments + w;
                        }
                    }
                },
                None => {},
            }
        }
        j = j + 1;
    }
    PortfolioTotals { net, assets, investments, debts }
}

// ── The statistics page ──

/// The page's filter read from its query: the portfolio's id and the first
/// and last day, each `None` when missing or unreadable (ids as
/// `uuid::Uuid::parse_str` reads them, days as `%Y-%m-%d`).
pub fn stats_filter(f: &StatsFilter) -> (r: (Option<u128>, Option<i32>, Option<i32>))
    ensures
        r.0 == (match f.portfolio {
            Some(s) => uuid_parse(s@),
            None => None,
        }),
        r.1 == (match f.from {
            Some(s) => chrono_parse_day(s@, "%Y-%m-%d"@),
            None => None,
        }),
        r.2 == (match f.to {
            Some(s) => chrono_parse_day(s@, "%Y-%m-%d"@),
            None => None,
        }),
{
    let p = match &f.portfolio {
        Some(s) => parse_uuid(s.as_str()),
        None => None,
    };
    let a = match &f.from {
        Some(s) => parse_day(s.as_str(), "%Y-%m-%d"),
        None => None,
    };
    let b = match &f.to {
        Some(s) => parse_day(s.as_str(), "%Y-%m-%d"),
        None => None,
    };
    (p, a, b)
}

/// The kind of an item type: 0 for `asset`, 1 for `investment`, 2 for
/// `debt`, 3 for any other type.
pub open spec fn kind_of(ty: Seq<char>) -> u8 {
    if ty == "asset"@ {
        0
    } else if ty == "investment"@ {
        1
    } else if ty == "debt"@ {
        2
    } else {
        3
    }
}

fn kind_exec(ty: &String) -> (k: u8)
    ensures
        k == kind_of(ty@),
{
    let v = chars_of(ty.as_str());
    if chars_eq(&v, &chars_of("asset")) {
        0
    } else if chars_eq(&v, &chars_of("investment")) {
        1
    } else if chars_eq(&v, &chars_of("debt")) {
        2
    } else {
        3
    }
}

/// Whether the portfolio passes the filter's portfolio.
pub open spec fn kept(pid: u128, fp: Option<u128>) -> bool {
    match fp {
        Some(f) => pid == f,
        None => true,
    }
}

/// Whether the day lies within the filter's days.
pub open spec fn in_range(d: i32, from: Option<i32>, to: Option<i32>) -> bool {
    &&& match from {
        Some(f) => d >= f,
        None => true,
    }
    &&& match to {
        Some(t) => d <= t,
        None => true,
    }
}

/// The items as `(id, kind)`.
pub open spec fn item_keys(items: Seq<WealthItem>) -> Seq<(u128, u8)> {
    Seq::new(items.len(), |i: int| (items[i].item_id, kind_of(items[i].item_type@)))
}

/// The items of the portfolios that pass the filter, in order, as `(id,
/// kind)`.
pub open spec fn selected(ps: Seq<(u128, Vec<WealthItem>)>, fp: Option<u128>) -> Seq<(u128, u8)>
    decreases ps.len(),
{
    if ps.len() == 0 {
        Seq::empty()
    } else {
        selected(ps.drop_last(), fp) + if kept(ps.last().0, fp) {
            item_keys(ps.last().1@)
        } else {
            Seq::empty()
        }
    }
}

/// The number of items of all the portfolios.
pub open spec fn item_count(ps: Seq<(u128, Vec<WealthItem>)>) -> nat
    decreases ps.len(),
{
    if ps.len() == 0 {
        0
    } else {
        item_count(ps.drop_last()) + ps.last().1@.len()
    }
}

proof fn lemma_selected_len(ps: Seq<(u128, Vec<WealthItem>)>, fp: Option<u128>)
    ensures
        selected(ps, fp).len() <= item_count(ps),
    decreases ps.len(),
{
    if ps.len() > 0 {
        lemma_selected_len(ps.drop_last(), fp);
    }
}

fn selected_exec(ps: &Vec<(u128, Vec<WealthItem>)>, fp: Option<u128>) -> (r: Vec<(u128, u8)>)
    ensures
        r@ == selected(ps@, fp),
{
    let mut r: Vec<(u128, u8)> = Vec::new();
    let mut p: usize = 0;
    while p < ps.len()
        invariant
            p <= ps.len(),
            r@ == selected(ps@.take(p as int), fp),
        decreases ps.len() - p,
    {
        assert(ps@.take(p + 1).drop_last() =~= ps@.take(p as int));
        let ghost before = r@;
        if kept_exec(ps[p].0, fp) {
            let items = &ps[p].1;
            let mut j: usize = 0;
            while j < items.len()
                invariant
                    j <= items.len(),
                    r@ == before + item_keys(items@.take(j as int)),
                decreases items.len() - j,
            {
                let k = kind_exec(&items[j].item_type);
                r.push((items[j].item_id, k));
                assert(item_keys(items@.take(j + 1)) =~= item_keys(items@.take(j as int)).push(
                    (items@[j as int].item_id, k),
                ));
                assert(r@ =~= before + item_keys(items@.take(j + 1)));
                j = j + 1;
            }
            assert(items@.take(items.len() as int) =~= items@);
            assert(r@ =~= selected(ps@.take(p + 1), fp));
        } else {
            assert(r@ =~= selected(ps@.take(p + 1), fp));
        }
        p = p + 1;
    }
    assert(ps@.take(ps.len() as int) =~= ps@);
    r
}

fn kept_exec(pid: u128, fp: Option<u128>) -> (b: bool)
    ensures
        b == kept(pid, fp),
{
    match fp {
        Some(f) => pid == f,
        None => true,
    }
}

/// The balance of the item carried forward to day `d`: of its logs within
/// the filter's days and not after `d`, the latest day, and of several on
/// that day the last logged.
pub open spec fn carried(logs: Seq<BalanceLog>, id: u128, from: Option<i32>, to: Option<i32>, d: i32) -> Option<(i32, i64)>
    decreases logs.len(),
{
    if logs.len() == 0 {
        None
    } else {
        let p = carried(logs.drop_last(), id, from, to, d);
        let l = logs.last();
        if l.item_id == id && in_range(l.log_date, from, to) && l.log_date <= d {
            match p {
                Some((pd, _)) => if l.log_date >= pd {
                    Some((l.log_date, l.balance_value))
                } else {
                    p
                },
                None => Some((l.log_date, l.balance_value)),
            }
        } else {
            p
        }
    }
}

fn carried_exec(logs: &Vec<BalanceLog>, id: u128, from: Option<i32>, to: Option<i32>, d: i32) -> (r: Option<(i32, i64)>)
    ensures
        r == carried(logs@, id, from, to, d),
{
    let mut cur: Option<(i32, i64)> = None;
    let mut i: usize = 0;
    assert(logs@.take(0) =~= Seq::<BalanceLog>::empty());
    while i < logs.len()
        invariant
            i <= logs.len(),
            cur == carried(logs@.take(i as int), id, from, to, d),
        decreases logs.len() - i,
    {
        assert(logs@.take(i + 1).drop_last() =~= logs@.take(i as int));
        let l = logs[i];
        if l.item_id == id && in_range_exec(l.log_date, from, to) && l.log_date <= d {
            match cur {
                Some((pd, _)) => {
                    if l.log_date >= pd {
                        cur = Some((l.log_date, l.balance_value));
                    }
                },
                None => {
                    cur = Some((l.log_date, l.balance_value));
                },
            }
        }
        i = i + 1;
    }
    assert(logs@.take(logs.len() as int) =~= logs@);
    cur
}

fn in_range_exec(d: i32, from: Option<i32>, to: Option<i32>) -> (b: bool)
    ensures
        b == in_range(d, from, to),
{
    let a = match from {
        Some(f) => d >= f,
        None => true,
    };
    let b = match to {
        Some(t) => d <= t,
        None => true,
    };
    a && b
}

/// Whether some selected item has the id.
pub open spec fn has_key(s: Seq<(u128, u8)>, id: u128) -> bool {
    exists|k: int| 0 <= k < s.len() && #[trigger] s[k].0 == id
}

fn has_key_exec(s: &Vec<(u128, u8)>, id: u128) -> (b: bool)
    ensures
        b == has_key(s@, id),
{
    let mut k: usize = 0;
    while k < s.len()
        invariant
            k <= s.len(),
            forall|t: int| 0 <= t < k ==> (#[trigger] s@[t]).0 != id,
        decreases s.len() - k,
    {
        if s[k].0 == id {
            assert(s@[k as int].0 == id);
            return true;
        }
        k = k + 1;
    }
    false
}

/// The logs that the series show: those of a selected item within the
/// filter's days, in order.
pub open spec fn shown_logs(logs: Seq<BalanceLog>, s: Seq<(u128, u8)>, from: Option<i32>, to: Option<i32>) -> Seq<BalanceLog>
    decreases logs.len(),
{
    if logs.len() == 0 {
        Seq::empty()
    } else {
        let p = shown_logs(logs.drop_last(), s, from, to);
        let l = logs.last();
        if has_key(s, l.item_id) && in_range(l.log_date, from, to) {
            p.push(l)
        } else {
            p
        }
    }
}

fn shown_logs_exec(logs: &Vec<BalanceLog>, s: &Vec<(u128, u8)>, from: Option<i32>, to: Option<i32>) -> (r: Vec<BalanceLog>)
    ensures
        r@ == shown_logs(logs@, s@, from, to),
{
    let mut r: Vec<BalanceLog> = Vec::new();
    let mut i: usize = 0;
    while i < logs.len()
        invariant
            i <= logs.len(),
            r@ == shown_logs(logs@.take(i as int), s@, from, to),
        decreases logs.len() - i,
    {
        assert(logs@.take(i + 1).drop_last() =~= logs@.take(i as int));
        let l = logs[i];
        if has_key_exec(s, l.item_id) && in_range_exec(l.log_date, from, to) {
            r.push(l);
        }
        i = i + 1;
    }
    assert(logs@.take(logs.len() as int) =~= logs@);
    r
}

/// `days` are the days of the shown logs, earliest first, each once.
pub open spec fn is_shown_days(shown: Seq<BalanceLog>, days: Seq<i32>) -> bool {
    &&& forall|a: int, b: int| 0 <= a < b < days.len() ==> #[trigger] days[a] < #[trigger] days[b]
    &&& forall|a: int| 0 <= a < days.len() ==> has_day(shown, #[trigger] days[a])
    &&& forall|m: int| 0 <= m < shown.len() ==> listed(days, #[trigger] shown[m].log_date)
}

fn shown_days(shown: &Vec<BalanceLog>) -> (days: Vec<i32>)
    ensures
        is_shown_days(shown@, days@),
{
    let desc = logged_days_desc(shown);
    let mut days: Vec<i32> = Vec::new();
    let mut k: usize = desc.len();
    while k > 0
        invariant
            k <= desc.len(),
            days@ =~= desc@.subrange(k as int, desc.len() as int).reverse(),
        decreases k,
    {
        days.push(desc[k - 1]);
        assert(desc@.subrange(k - 1, desc.len() as int).reverse() =~= desc@.subrange(
            k as int,
            desc.len() as int,
        ).reverse().push(desc@[k - 1]));
        k = k - 1;
    }
    assert(days@ =~= desc@.reverse());
    assert forall|a: int, b: int| 0 <= a < b < days.len() implies #[trigger] days@[a] < #[trigger] days@[b] by {
        assert(days@[a] == desc@[desc.len() - 1 - a]);
        assert(days@[b] == desc@[desc.len() - 1 - b]);
    }
    assert forall|a: int| 0 <= a < days.len() implies has_day(shown@, #[trigger] days@[a]) by {
        assert(days@[a] == desc@[desc.len() - 1 - a]);
    }
    assert forall|m: int| 0 <= m < shown.len() implies listed(days@, #[trigger] shown@[m].log_date) by {
        let d = shown@[m].log_date;
        assert(listed(desc@, d));
        let a = choose|a: int| 0 <= a < desc.len() && #[trigger] desc@[a] == d;
        assert(days@[desc.len() - 1 - a] == d);
    }
    days
}

/// Whether the selected item at `j` is the last with its id (an id counts
/// once, with the kind of its last item).
pub open spec fn last_occ(s: Seq<(u128, u8)>, j: int) -> bool {
    forall|k: int| j < k < s.len() ==> (#[trigger] s[k]).0 != s[j].0
}

fn last_occ_exec(s: &Vec<(u128, u8)>, j: usize) -> (b: bool)
    requires
        j < s.len(),
    ensures
        b == last_occ(s@, j as int),
{
    let mut k: usize = j + 1;
    while k < s.len()
        invariant
            j < k <= s.len(),
            forall|t: int| j < t < k ==> (#[trigger] s@[t]).0 != s@[j as int].0,
        decreases s.len() - k,
    {
        if s[k].0 == s[j].0 {
            assert(s@[k as int].0 == s@[j as int].0);
            return false;
        }
        k = k + 1;
    }
    true
}

/// The figures of day `d` over the first `j` selected items, from the
/// balance each carries to `d`: the net worth (debts negative, other
/// kinds positive) and the sums of assets, investments and debts.
pub open spec fn day_figures(
    s: Seq<(u128, u8)>,
    logs: Seq<BalanceLog>,
    from: Option<i32>,
    to: Option<i32>,
    d: i32,
    j: int,
) -> (int, int, int, int)
    decreases j,
{
    if j <= 0 {
        (0, 0, 0, 0)
    } else {
        let t = day_figures(s, logs, from, to, d, j - 1);
        if last_occ(s, j - 1) {
            match carried(logs, s[j - 1].0, from, to, d) {
                Some((_, v)) => {
                    let k = s[j - 1].1;
                    if k == 0 {
                        (t.0 + v, t.1 + v, t.2, t.3)
                    } else if k == 1 {
                        (t.0 + v, t.1, t.2 + v, t.3)
                    } else if k == 2 {
                        (t.0 - v, t.1, t.2, t.3 + v)
                    } else {
                        (t.0 + v, t.1, t.2, t.3)
                    }
                },
                None => t,
            }
        } else {
            t
        }
    }
}

proof fn lemma_day_figures_bound(
    s: Seq<(u128, u8)>,
    logs: Seq<BalanceLog>,
    from: Option<i32>,
    to: Option<i32>,
    d: i32,
    j: int,
)
    requires
        0 <= j <= s.len(),
    ensures
        -j * 0x8000_0000_0000_0000 <= day_figures(s, logs, from, to, d, j).0 <= j * 0x8000_0000_0000_0000,
        -j * 0x8000_0000_0000_0000 <= day_figures(s, logs, from, to, d, j).1 <= j * 0x8000_0000_0000_0000,
        -j * 0x8000_0000_0000_0000 <= day_figures(s, logs, from, to, d, j).2 <= j * 0x8000_0000_0000_0000,
        -j * 0x8000_0000_0000_0000 <= day_figures(s, logs, from, to, d, j).3 <= j * 0x8000_0000_0000_0000,
    decreases j,
{
    if j > 0 {
        lemma_day_figures_bound(s, logs, from, to, d, j - 1);
    }
}

/// The figures of day `d` over all selected items (see `day_figures`). At
/// most `2^62` items are selected.
fn day_figures_exec(s: &Vec<(u128, u8)>, logs: &Vec<BalanceLog>, from: Option<i32>, to: Option<i32>, d: i32) -> (r: (
    i128,
    i128,
    i128,
    i128,
))
    requires
        s.len() <= 0x4000_0000_0000_0000,
    ensures
        (r.0 as int, r.1 as int, r.2 as int, r.3 as int) == day_figures(s@, logs@, from, to, d, s.len() as int),
        -0x2000_0000_0000_0000_0000_0000_0000_0000 <= r.0 <= 0x2000_0000_0000_0000_0000_0000_0000_0000,
{
    let mut t: (i128, i128, i128, i128) = (0, 0, 0, 0);
    let mut j: usize = 0;
    while j < s.len()
        invariant
            j <= s.len() <= 0x4000_0000_0000_0000,
            (t.0 as int, t.1 as int, t.2 as int, t.3 as int) == day_figures(s@, logs@, from, to, d, j as int),
        decreases s.len() - j,
    {
        proof {
            lemma_day_figures_bound(s@, logs@, from, to, d, j as int);
            assert(j * 0x8000_0000_0000_0000 <= 0x4000_0000_0000_0000 * 0x8000_0000_0000_0000) by (nonlinear_arith)
                requires
                    j <= 0x4000_0000_0000_0000,
            ;
        }
        if last_occ_exec(s, j) {
            match carried_exec(logs, s[j].0, from, to, d) {
                Some((_, v)) => {
                    let w = v as i128;
                    let k = s[j].1;
                    if k == 0 {
                        t = (t.0 + w, t.1 + w, t.2, t.3);
                    } else if k == 1 {
                        t = (t.0 + w, t.1, t.2 + w, t.3);
                    } else if k == 2 {
                        t = (t.0 - w, t.1, t.2, t.3 + w);
                    } else {
                        t = (t.0 + w, t.1, t.2, t.3);
                    }
                },
                None => {},
            }
        }
        j = j + 1;
    }
    proof {
        lemma_day_figures_bound(s@, logs@, from, to, d, s.len() as int);
        assert(s.len() * 0x8000_0000_0000_0000 <= 0x4000_0000_0000_0000 * 0x8000_0000_0000_0000) by (nonlinear_arith)
            requires
                s.len() <= 0x4000_0000_0000_0000,
        ;
    }
    t
}

/// The item's trend: for each of the days on which it carries a balance,
/// the day and the balance (negated for a debt).
pub open spec fn item_points(
    logs: Seq<BalanceLog>,
    id: u128,
    kind: u8,
    from: Option<i32>,
    to: Option<i32>,
    days: Seq<i32>,
) -> Seq<(i32, int)>
    decreases days.len(),
{
    if days.len() == 0 {
        Seq::empty()
    } else {
        let p = item_points(logs, id, kind, from, to, days.drop_last());
        match carried(logs, id, from, to, days.last()) {
            Some((_, v)) => p.push(
                (
                    days.last(),
                    if kind == 2 {
                        -v
                    } else {
                        v as int
                    },
                ),
            ),
            None => p,
        }
    }
}

/// The trends of the first `j` selected items, each id once (at its last
/// item), leaving out those with no point.
pub open spec fn item_trends(
    s: Seq<(u128, u8)>,
    logs: Seq<BalanceLog>,
    from: Option<i32>,
    to: Option<i32>,
    days: Seq<i32>,
    j: int,
) -> Seq<(u128, Seq<(i32, int)>)>
    decreases j,
{
    if j <= 0 {
        Seq::empty()
    } else {
        let p = item_trends(s, logs, from, to, days, j - 1);
        let pts = item_points(logs, s[j - 1].0, s[j - 1].1, from, to, days);
        if last_occ(s, j - 1) && pts.len() > 0 {
            p.push((s[j - 1].0, pts))
        } else {
            p
        }
    }
}

/// Points as `(day, cents)`.
pub open spec fn points_view(v: Seq<(i32, i128)>) -> Seq<(i32, int)> {
    Seq::new(v.len(), |i: int| (v[i].0, v[i].1 as int))
}

/// Trends as `(item, points)`.
pub open spec fn trends_view(v: Seq<(u128, Vec<(i32, i128)>)>) -> Seq<(u128, Seq<(i32, int)>)> {
    Seq::new(v.len(), |i: int| (v[i].0, points_view(v[i].1@)))
}

fn item_points_exec(
    logs: &Vec<BalanceLog>,
    id: u128,
    kind: u8,
    from: Option<i32>,
    to: Option<i32>,
    days: &Vec<i32>,
) -> (r: Vec<(i32, i128)>)
    ensures
        points_view(r@) == item_points(logs@, id, kind, from, to, days@),
{
    let mut r: Vec<(i32, i128)> = Vec::new();
    let mut a: usize = 0;
    while a < days.len()
        invariant
            a <= days.len(),
            points_view(r@) == item_points(logs@, id, kind, from, to, days@.take(a as int)),
        decreases days.len() - a,
    {
        assert(days@.take(a + 1).drop_last() =~= days@.take(a as int));
        assert(days@.take(a + 1).last() == days@[a as int]);
        match carried_exec(logs, id, from, to, days[a]) {
            Some((_, v)) => {
                let w: i128 = if kind == 2 {
                    -(v as i128)
                } else {
                    v as i128
                };
                let ghost before = r@;
                r.push((days[a], w));
                assert(points_view(r@) =~= points_view(before).push((days@[a as int], w as int)));
            },
            None => {},
        }
        a = a + 1;
    }
    assert(days@.take(days.len() as int) =~= days@);
    r
}

fn item_trends_exec(
    s: &Vec<(u128, u8)>,
    logs: &Vec<BalanceLog>,
    from: Option<i32>,
    to: Option<i32>,
    days: &Vec<i32>,
) -> (r: Vec<(u128, Vec<(i32, i128)>)>)
    ensures
        trends_view(r@) == item_trends(s@, logs@, from, to, days@, s.len() as int),
{
    let mut r: Vec<(u128, Vec<(i32, i128)>)> = Vec::new();
    let mut j: usize = 0;
    while j < s.len()
        invariant
            j <= s.len(),
            trends_view(r@) == item_trends(s@, logs@, from, to, days@, j as int),
        decreases s.len() - j,
    {
        if last_occ_exec(s, j) {
            let pts = item_points_exec(logs, s[j].0, s[j].1, from, to, days);
            if pts.len() > 0 {
                let ghost before = r@;
                let ghost pv = points_view(pts@);
                r.push((s[j].0, pts));
                assert(trends_view(r@) =~= trends_view(before).push((s@[j as int].0, pv)));
            }
        }
        j = j + 1;
    }
    r
}

/// The current totals of the portfolios that pass the filter, each as its
/// id, its totals (see `totals_upto`) and its number of items.
pub open spec fn summaries(ps: Seq<(u128, Vec<WealthItem>)>, fp: Option<u128>, logs: Seq<BalanceLog>) -> Seq<
    (u128, (int, int, int, int), nat),
>
    decreases ps.len(),
{
    if ps.len() == 0 {
        Seq::empty()
    } else {
        let p = summaries(ps.drop_last(), fp, logs);
        let last = ps.last();
        if kept(last.0, fp) {
            p.push((last.0, totals_upto(last.1@, logs, last.1@.len() as int), last.1@.len()))
        } else {
            p
        }
    }
}

/// The sums of the summaries' totals and numbers of items.
pub open spec fn summary_sum(v: Seq<(u128, (int, int, int, int), nat)>) -> ((int, int, int, int), nat)
    decreases v.len(),
{
    if v.len() == 0 {
        ((0, 0, 0, 0), 0)
    } else {
        let (t, n) = summary_sum(v.drop_last());
        let (_, u, m) = v.last();
        ((t.0 + u.0, t.1 + u.1, t.2 + u.2, t.3 + u.3), n + m)
    }
}

/// What each of the first `j` items adds to the total of its type: its
/// latest balance (negated for a debt), once per id (see `totals_upto`).
pub open spec fn type_parts(items: Seq<WealthItem>, logs: Seq<BalanceLog>, j: int) -> Seq<(Seq<char>, int)>
    decreases j,
{
    if j <= 0 {
        Seq::empty()
    } else {
        let p = type_parts(items, logs, j - 1);
        let it = items[j - 1];
        if first_with_id(items, j - 1) {
            match latest_log(logs, it.item_id) {
                Some((_, v)) => p.push(
                    (
                        it.item_type@,
                        if it.item_type@ == "debt"@ {
                            -v
                        } else {
                            v as int
                        },
                    ),
                ),
                None => p,
            }
        } else {
            p
        }
    }
}

/// The type parts of the portfolios that pass the filter, in order.
pub open spec fn all_type_parts(ps: Seq<(u128, Vec<WealthItem>)>, fp: Option<u128>, logs: Seq<BalanceLog>) -> Seq<
    (Seq<char>, int),
>
    decreases ps.len(),
{
    if ps.len() == 0 {
        Seq::empty()
    } else {
        all_type_parts(ps.drop_last(), fp, logs) + if kept(ps.last().0, fp) {
            type_parts(ps.last().1@, logs, ps.last().1@.len() as int)
        } else {
            Seq::empty()
        }
    }
}

/// The types of the parts, each once, in order of first appearance.
pub open spec fn part_types(cs: Seq<(Seq<char>, int)>) -> Seq<Seq<char>>
    decreases cs.len(),
{
    if cs.len() == 0 {
        Seq::empty()
    } else {
        let p = part_types(cs.drop_last());
        if p.contains(cs.last().0) {
            p
        } else {
            p.push(cs.last().0)
        }
    }
}

/// The sum of the parts of type `ty`.
pub open spec fn type_sum(cs: Seq<(Seq<char>, int)>, ty: Seq<char>) -> int
    decreases cs.len(),
{
    if cs.len() == 0 {
        0
    } else {
        type_sum(cs.drop_last(), ty) + if cs.last().0 == ty {
            cs.last().1
        } else {
            0
        }
    }
}

proof fn lemma_type_parts_bound(items: Seq<WealthItem>, logs: Seq<BalanceLog>, j: int)
    requires
        0 <= j <= items.len(),
    ensures
        type_parts(items, logs, j).len() <= j,
        forall|i: int|
            0 <= i < type_parts(items, logs, j).len() ==> -0x8000_0000_0000_0000 <= (
            #[trigger] type_parts(items, logs, j)[i]).1 <= 0x8000_0000_0000_0000,
    decreases j,
{
    if j > 0 {
        lemma_type_parts_bound(items, logs, j - 1);
        let p = type_parts(items, logs, j - 1);
        assert forall|i: int| 0 <= i < type_parts(items, logs, j).len() implies -0x8000_0000_0000_0000 <= (
        #[trigger] type_parts(items, logs, j)[i]).1 <= 0x8000_0000_0000_0000 by {
            if i < p.len() {
                assert(type_parts(items, logs, j)[i] == p[i]);
            }
        }
    }
}

proof fn lemma_type_sum_bound(cs: Seq<(Seq<char>, int)>, ty: Seq<char>)
    requires
        forall|i: int| 0 <= i < cs.len() ==> -0x8000_0000_0000_0000 <= (#[trigger] cs[i]).1 <= 0x8000_0000_0000_0000,
    ensures
        -cs.len() * 0x8000_0000_0000_0000 <= type_sum(cs, ty) <= cs.len() * 0x8000_0000_0000_0000,
    decreases cs.len(),
{
    if cs.len() > 0 {
        let p = cs.drop_last();
        assert forall|i: int| 0 <= i < p.len() implies -0x8000_0000_0000_0000 <= (#[trigger] p[i]).1 <= 0x8000_0000_0000_0000 by {
            assert(p[i] == cs[i]);
        }
        lemma_type_sum_bound(p, ty);
        assert(-0x8000_0000_0000_0000 <= cs[cs.len() - 1].1 <= 0x8000_0000_0000_0000);
    }
}

/// Texts as character sequences.
pub open spec fn names_view(v: Seq<String>) -> Seq<Seq<char>> {
    Seq::new(v.len(), |i: int| v[i]@)
}

/// Whether `names` and `vals` hold the types of the parts, each once in
/// order of first appearance, with the sum of each type's parts.
pub open spec fn is_type_table(cs: Seq<(Seq<char>, int)>, names: Seq<String>, vals: Seq<i128>) -> bool {
    &&& names_view(names) == part_types(cs)
    &&& vals.len() == names.len()
    &&& forall|k: int| 0 <= k < vals.len() ==> vals[k] == type_sum(cs, #[trigger] part_types(cs)[k])
}

/// Adds a part to the table of type totals.
fn add_part(names: &mut Vec<String>, vals: &mut Vec<i128>, Ghost(cs): Ghost<Seq<(Seq<char>, int)>>, ty: &String, v: i128)
    requires
        is_type_table(cs, old(names)@, old(vals)@),
        -0x8000_0000_0000_0000 <= v <= 0x8000_0000_0000_0000,
        forall|t: Seq<char>|
            -0x2000_0000_0000_0000_0000_0000_0000_0000 <= #[trigger] type_sum(cs.push((ty@, v as int)), t)
                <= 0x2000_0000_0000_0000_0000_0000_0000_0000,
    ensures
        is_type_table(cs.push((ty@, v as int)), final(names)@, final(vals)@),
{
    let ghost c = (ty@, v as int);
    let ghost cs2 = cs.push(c);
    assert(cs2.drop_last() =~= cs);
    assert(forall|t: Seq<char>| #[trigger] type_sum(cs2, t) == type_sum(cs, t) + if t == ty@ {
        v as int
    } else {
        0
    });
    let tv = chars_of(ty.as_str());
    let mut k: usize = 0;
    while k < names.len()
        invariant
            k <= names.len(),
            names@ == old(names)@,
            vals@ == old(vals)@,
            is_type_table(cs, names@, vals@),
            cs2 == cs.push(c),
            c == (ty@, v as int),
            -0x2000_0000_0000_0000_0000_0000_0000_0000 <= type_sum(cs2, ty@) <= 0x2000_0000_0000_0000_0000_0000_0000_0000,
            tv@ == ty@,
            forall|t: int| 0 <= t < k ==> (#[trigger] names@[t])@ != ty@,
        decreases names.len() - k,
    {
        if chars_eq(&chars_of(names[k].as_str()), &tv) {
            proof {
                assert(names_view(names@)[k as int] == ty@);
                assert(part_types(cs)[k as int] == ty@);
                assert(part_types(cs).contains(ty@));
                assert(cs2.drop_last() =~= cs);
                assert(cs2.last() == c);
                assert(part_types(cs2) == part_types(cs));
                assert(type_sum(cs2, ty@) == vals@[k as int] + v);
            }
            let nv = vals[k] + v;
            vals.set(k, nv);
            proof {
                assert forall|m: int| 0 <= m < vals.len() implies vals@[m] == type_sum(cs2, #[trigger] part_types(cs2)[m]) by {
                    if m != k {
                        assert(part_types(cs)[m] != ty@) by {
                            assert(names_view(names@)[m] == part_types(cs)[m]);
                            assert(names_view(names@)[k as int] == part_types(cs)[k as int]);
                            lemma_part_types_distinct(cs);
                        }
                    }
                }
            }
            return;
        }
        k = k + 1;
    }
    proof {
        assert(!part_types(cs).contains(ty@)) by {
            if part_types(cs).contains(ty@) {
                let m = choose|m: int| 0 <= m < part_types(cs).len() && part_types(cs)[m] == ty@;
                assert(names_view(names@)[m] == names@[m]@);
            }
        }
        assert(part_types(cs2) == part_types(cs).push(ty@));
        lemma_part_types_distinct(cs);
        assert(type_sum(cs, ty@) == 0) by {
            lemma_type_sum_absent(cs, ty@);
        }
    }
    let ghost old_vals = vals@;
    names.push(ty.clone());
    vals.push(v);
    proof {
        assert(names_view(names@) =~= part_types(cs2));
        assert forall|m: int| 0 <= m < vals.len() implies vals@[m] == type_sum(cs2, #[trigger] part_types(cs2)[m]) by {
            if m < old_vals.len() {
                assert(part_types(cs2)[m] == part_types(cs)[m]);
                assert(part_types(cs)[m] != ty@);
            }
        }
    }
}

/// The types listed by `part_types` occur among the parts, and each once.
proof fn lemma_part_types_distinct(cs: Seq<(Seq<char>, int)>)
    ensures
        forall|a: int, b: int|
            0 <= a < b < part_types(cs).len() ==> #[trigger] part_types(cs)[a] != #[trigger] part_types(cs)[b],
    decreases cs.len(),
{
    if cs.len() > 0 {
        lemma_part_types_distinct(cs.drop_last());
        let p = part_types(cs.drop_last());
        if !p.contains(cs.last().0) {
            assert forall|a: int, b: int| 0 <= a < b < part_types(cs).len() implies #[trigger] part_types(cs)[a]
                != #[trigger] part_types(cs)[b] by {
                if b == p.len() {
                    assert(part_types(cs)[a] == p[a]);
                } else {
                    assert(part_types(cs)[a] == p[a]);
                    assert(part_types(cs)[b] == p[b]);
                }
            }
        }
    }
}

/// A type that is not listed has no parts.
proof fn lemma_type_sum_absent(cs: Seq<(Seq<char>, int)>, ty: Seq<char>)
    requires
        !part_types(cs).contains(ty),
    ensures
        type_sum(cs, ty) == 0,
    decreases cs.len(),
{
    if cs.len() > 0 {
        let p = part_types(cs.drop_last());
        if p.contains(cs.last().0) {
            assert(cs.last().0 != ty);
        } else {
            assert(part_types(cs) == p.push(cs.last().0));
            assert(part_types(cs)[p.len() as int] == cs.last().0);
            assert(cs.last().0 != ty);
            assert(!p.contains(ty)) by {
                if p.contains(ty) {
                    let m = choose|m: int| 0 <= m < p.len() && p[m] == ty;
                    assert(part_types(cs)[m] == ty);
                }
            }
        }
        lemma_type_sum_absent(cs.drop_last(), ty);
    }
}

proof fn lemma_item_count_prefix(ps: Seq<(u128, Vec<WealthItem>)>, p: int)
    requires
        0 <= p <= ps.len(),
    ensures
        item_count(ps.take(p)) <= item_count(ps),
    decreases ps.len() - p,
{
    if p < ps.len() {
        lemma_item_count_prefix(ps, p + 1);
        assert(ps.take(p + 1).drop_last() =~= ps.take(p));
    } else {
        assert(ps.take(p) =~= ps);
    }
}

proof fn lemma_prefix_bounds(ps: Seq<(u128, Vec<WealthItem>)>, fp: Option<u128>, logs: Seq<BalanceLog>)
    ensures
        all_type_parts(ps, fp, logs).len() <= item_count(ps),
        forall|i: int|
            0 <= i < all_type_parts(ps, fp, logs).len() ==> -0x8000_0000_0000_0000 <= (
            #[trigger] all_type_parts(ps, fp, logs)[i]).1 <= 0x8000_0000_0000_0000,
        summary_sum(summaries(ps, fp, logs)).1 <= item_count(ps),
        -item_count(ps) * 0x8000_0000_0000_0000 <= summary_sum(summaries(ps, fp, logs)).0.0 <= item_count(ps) * 0x8000_0000_0000_0000,
        -item_count(ps) * 0x8000_0000_0000_0000 <= summary_sum(summaries(ps, fp, logs)).0.1 <= item_count(ps) * 0x8000_0000_0000_0000,
        -item_count(ps) * 0x8000_0000_0000_0000 <= summary_sum(summaries(ps, fp, logs)).0.2 <= item_count(ps) * 0x8000_0000_0000_0000,
        -item_count(ps) * 0x8000_0000_0000_0000 <= summary_sum(summaries(ps, fp, logs)).0.3 <= item_count(ps) * 0x8000_0000_0000_0000,
    decreases ps.len(),
{
    if ps.len() > 0 {
        let q = ps.drop_last();
        lemma_prefix_bounds(q, fp, logs);
        let items = ps.last().1@;
        lemma_totals_bound(items, logs, items.len() as int);
        lemma_type_parts_bound(items, logs, items.len() as int);
        let a = all_type_parts(q, fp, logs);
        if kept(ps.last().0, fp) {
            let b = type_parts(items, logs, items.len() as int);
            assert(all_type_parts(ps, fp, logs) == a + b);
            assert forall|i: int| 0 <= i < (a + b).len() implies -0x8000_0000_0000_0000 <= (#[trigger] (a
                + b)[i]).1 <= 0x8000_0000_0000_0000 by {
                if i < a.len() {
                    assert((a + b)[i] == a[i]);
                } else {
                    assert((a + b)[i] == b[i - a.len()]);
                }
            }
            let sm = summaries(q, fp, logs);
            let sm2 = summaries(ps, fp, logs);
            assert(sm2.drop_last() =~= sm);
        } else {
            assert(all_type_parts(ps, fp, logs) =~= a);
        }
    }
}

/// Summaries as `(portfolio, totals, number of items)`.
pub open spec fn summaries_view(v: Seq<(u128, PortfolioTotals, usize)>) -> Seq<(u128, (int, int, int, int), nat)> {
    Seq::new(v.len(), |i: int| (v[i].0, totals_view(v[i].1), v[i].2 as nat))
}

/// Per portfolio that passes the filter its summary, the table of type
/// totals, and the sums of the summaries.
#[verifier::rlimit(40)]
fn portfolio_figures(ps: &Vec<(u128, Vec<WealthItem>)>, fp: Option<u128>, logs: &Vec<BalanceLog>) -> (r: (
    Vec<(u128, PortfolioTotals, usize)>,
    Vec<String>,
    Vec<i128>,
    PortfolioTotals,
    u64,
))
    requires
        item_count(ps@) <= 0x4000_0000_0000_0000,
    ensures
        summaries_view(r.0@) == summaries(ps@, fp, logs@),
        is_type_table(all_type_parts(ps@, fp, logs@), r.1@, r.2@),
        (totals_view(r.3), r.4 as nat) == summary_sum(summaries(ps@, fp, logs@)),
{
    let mut sums: Vec<(u128, PortfolioTotals, usize)> = Vec::new();
    let mut names: Vec<String> = Vec::new();
    let mut vals: Vec<i128> = Vec::new();
    let mut total = PortfolioTotals { net: 0, assets: 0, investments: 0, debts: 0 };
    let mut count: u64 = 0;
    let debt = chars_of("debt");
    let mut p: usize = 0;
    assert(ps@.take(0) =~= Seq::<(u128, Vec<WealthItem>)>::empty());
    assert(names_view(names@) =~= part_types(all_type_parts(ps@.take(0), fp, logs@)));
    assert(summaries_view(sums@) =~= summaries(ps@.take(0), fp, logs@));
    while p < ps.len()
        invariant
            p <= ps.len(),
            item_count(ps@) <= 0x4000_0000_0000_0000,
            debt@ == "debt"@,
            summaries_view(sums@) == summaries(ps@.take(p as int), fp, logs@),
            is_type_table(all_type_parts(ps@.take(p as int), fp, logs@), names@, vals@),
            (totals_view(total), count as nat) == summary_sum(summaries(ps@.take(p as int), fp, logs@)),
        decreases ps.len() - p,
    {
        let ghost pre = ps@.take(p as int);
        let ghost pre2 = ps@.take(p + 1);
        assert(pre2.drop_last() =~= pre);
        assert(pre2.last() == ps@[p as int]);
        proof {
            lemma_item_count_prefix(ps@, p + 1);
            lemma_prefix_bounds(pre2, fp, logs@);
            lemma_prefix_bounds(pre, fp, logs@);
            assert(item_count(pre2) * 0x8000_0000_0000_0000 <= 0x4000_0000_0000_0000 * 0x8000_0000_0000_0000) by (nonlinear_arith)
                requires
                    item_count(pre2) <= 0x4000_0000_0000_0000,
            ;
        }
        if kept_exec(ps[p].0, fp) {
            let items = &ps[p].1;
            let t = current_totals(items, logs);
            let ghost sm = summaries(pre, fp, logs@);
            let ghost sm2 = summaries(pre2, fp, logs@);
            assert(sm2.drop_last() =~= sm);
            total = PortfolioTotals {
                net: total.net + t.net,
                assets: total.assets + t.assets,
                investments: total.investments + t.investments,
                debts: total.debts + t.debts,
            };
            count = count + items.len() as u64;
            let ghost sv = summaries_view(sums@);
            sums.push((ps[p].0, t, items.len()));
            assert(summaries_view(sums@) =~= sv.push((ps@[p as int].0, totals_view(t), items.len() as nat)));
            let ghost base = all_type_parts(pre, fp, logs@);
            proof {
                lemma_type_parts_bound(items@, logs@, items.len() as int);
            }
            let mut j: usize = 0;
            while j < items.len()
                invariant
                    j <= items.len(),
                    items == &ps@[p as int].1,
                    debt@ == "debt"@,
                    base == all_type_parts(pre, fp, logs@),
                    base.len() + items.len() <= 0x4000_0000_0000_0000,
                    forall|i: int| 0 <= i < base.len() ==> -0x8000_0000_0000_0000 <= (#[trigger] base[i]).1 <= 0x8000_0000_0000_0000,
                    is_type_table(base + type_parts(items@, logs@, j as int), names@, vals@),
                decreases items.len() - j,
            {
                let ghost cs = base + type_parts(items@, logs@, j as int);
                if first_with_id_exec(items, j) {
                    match latest_log_exec(logs, items[j].item_id) {
                        Some((_, v)) => {
                            let is_debt = chars_eq(&chars_of(items[j].item_type.as_str()), &debt);
                            let w: i128 = if is_debt {
                                -(v as i128)
                            } else {
                                v as i128
                            };
                            let ghost c = (items@[j as int].item_type@, w as int);
                            proof {
                                lemma_type_parts_bound(items@, logs@, j as int);
                                assert(type_parts(items@, logs@, j + 1) == type_parts(items@, logs@, j as int).push(c));
                                assert(base + type_parts(items@, logs@, j + 1) =~= cs.push(c));
                                let tp = type_parts(items@, logs@, j as int);
                                assert forall|i: int| 0 <= i < cs.push(c).len() implies -0x8000_0000_0000_0000 <= (
                                #[trigger] cs.push(c)[i]).1 <= 0x8000_0000_0000_0000 by {
                                    if i < base.len() {
                                        assert(cs.push(c)[i] == base[i]);
                                    } else if i < cs.len() {
                                        assert(cs.push(c)[i] == tp[i - base.len()]);
                                    }
                                }
                                assert(cs.push(c).len() <= 0x4000_0000_0000_0000);
                                assert forall|ty: Seq<char>|
                                    -0x2000_0000_0000_0000_0000_0000_0000_0000 <= #[trigger] type_sum(cs.push(c), ty)
                                        <= 0x2000_0000_0000_0000_0000_0000_0000_0000 by {
                                    lemma_type_sum_bound(cs.push(c), ty);
                                    assert(cs.push(c).len() * 0x8000_0000_0000_0000 <= 0x4000_0000_0000_0000 * 0x8000_0000_0000_0000) by (nonlinear_arith)
                                        requires
                                            cs.push(c).len() <= 0x4000_0000_0000_0000,
                                    ;
                                }
                            }
                            add_part(&mut names, &mut vals, Ghost(cs), &items[j].item_type, w);
                        },
                        None => {},
                    }
                }
                j = j + 1;
            }
            assert(all_type_parts(pre2, fp, logs@) == base + type_parts(items@, logs@, items.len() as int));
        } else {
            assert(summaries(pre2, fp, logs@) == summaries(pre, fp, logs@));
            assert(all_type_parts(pre2, fp, logs@) =~= all_type_parts(pre, fp, logs@));
        }
        p = p + 1;
    }
    assert(ps@.take(ps.len() as int) =~= ps@);
    (sums, names, vals, total, count)
}

/// The figures of the statistics page.
pub struct StatsData {
    /// The days of the shown balances, earliest first.
    pub dates: Vec<i32>,
    /// Per day: the net worth and the sums of assets, investments and
    /// debts, each item counting its balance carried forward to the day.
    pub net_worth: Vec<i128>,
    pub assets: Vec<i128>,
    pub investments: Vec<i128>,
    pub debts: Vec<i128>,
    /// The change of the net worth from each day to the next.
    pub mom_change: Vec<i128>,
    /// Per item with a shown balance, its trend over the days.
    pub item_trends: Vec<(u128, Vec<(i32, i128)>)>,
    /// Per portfolio that passes the filter: its current totals and its
    /// number of items.
    pub portfolios: Vec<(u128, PortfolioTotals, usize)>,
    /// The item types, in order of first appearance, and the current total
    /// of each (debts negative).
    pub type_labels: Vec<String>,
    pub type_values: Vec<i128>,
    /// The sums over the portfolios.
    pub total: PortfolioTotals,
    pub total_items: u64,
    /// The last day's net worth less the first day's (0 without days).
    pub net_change: i128,
}

/// Whether `r` holds the figures of the statistics page for the
/// portfolios with their items, the balance logs, and the filter's
/// portfolio and days.
pub open spec fn is_stats(
    ps: Seq<(u128, Vec<WealthItem>)>,
    logs: Seq<BalanceLog>,
    filter: (Option<u128>, Option<i32>, Option<i32>),
    r: StatsData,
) -> bool {
    let (fp, from, to) = filter;
    let s = selected(ps, fp);
    let n = r.dates.len();
    &&& is_shown_days(shown_logs(logs, s, from, to), r.dates@)
    &&& r.net_worth.len() == n && r.assets.len() == n && r.investments.len() == n && r.debts.len() == n
    &&& forall|a: int|
        0 <= a < n ==> day_figures(s, logs, from, to, #[trigger] r.dates@[a], s.len() as int) == (
            r.net_worth@[a] as int,
            r.assets@[a] as int,
            r.investments@[a] as int,
            r.debts@[a] as int,
        )
    &&& r.mom_change.len() == (if n == 0 {
        0
    } else {
        n - 1
    })
    &&& forall|i: int|
        0 <= i < r.mom_change.len() ==> #[trigger] r.mom_change@[i] == r.net_worth@[i + 1] - r.net_worth@[i]
    &&& trends_view(r.item_trends@) == item_trends(s, logs, from, to, r.dates@, s.len() as int)
    &&& summaries_view(r.portfolios@) == summaries(ps, fp, logs)
    &&& is_type_table(all_type_parts(ps, fp, logs), r.type_labels@, r.type_values@)
    &&& (totals_view(r.total), r.total_items as nat) == summary_sum(summaries(ps, fp, logs))
    &&& r.net_change == (if n == 0 {
        0
    } else {
        r.net_worth@[n - 1] - r.net_worth@[0]
    })
}

/// The figures of the statistics page (see `is_stats`). At most `2^62`
/// items are in the portfolios.
pub fn stats_data(
    ps: &Vec<(u128, Vec<WealthItem>)>,
    logs: &Vec<BalanceLog>,
    filter: (Option<u128>, Option<i32>, Option<i32>),
) -> (r: StatsData)
    requires
        item_count(ps@) <= 0x4000_0000_0000_0000,
    ensures
        is_stats(ps@, logs@, filter, r),
{
    let (fp, from, to) = filter;
    let s = selected_exec(ps, fp);
    proof {
        lemma_selected_len(ps@, fp);
    }
    let shown = shown_logs_exec(logs, &s, from, to);
    let dates = shown_days(&shown);
    let mut net_worth: Vec<i128> = Vec::new();
    let mut assets: Vec<i128> = Vec::new();
    let mut investments: Vec<i128> = Vec::new();
    let mut debts: Vec<i128> = Vec::new();
    let mut a: usize = 0;
    while a < dates.len()
        invariant
            a <= dates.len(),
            s.len() <= 0x4000_0000_0000_0000,
            net_worth.len() == a && assets.len() == a && investments.len() == a && debts.len() == a,
            forall|b: int|
                0 <= b < a ==> day_figures(s@, logs@, from, to, #[trigger] dates@[b], s.len() as int) == (
                    net_worth@[b] as int,
                    assets@[b] as int,
                    investments@[b] as int,
                    debts@[b] as int,
                ),
            forall|b: int|
                0 <= b < a ==> -0x2000_0000_0000_0000_0000_0000_0000_0000 <= #[trigger] net_worth@[b]
                    <= 0x2000_0000_0000_0000_0000_0000_0000_0000,
        decreases dates.len() - a,
    {
        let f = day_figures_exec(&s, logs, from, to, dates[a]);
        net_worth.push(f.0);
        assets.push(f.1);
        investments.push(f.2);
        debts.push(f.3);
        a = a + 1;
    }
    let mut mom_change: Vec<i128> = Vec::new();
    let mut i: usize = 1;
    while i < net_worth.len()
        invariant
            1 <= i <= net_worth.len() + 1,
            net_worth.len() > 0 ==> i <= net_worth.len(),
            net_worth.len() == dates.len(),
            mom_change.len() == i - 1,
            forall|b: int|
                0 <= b < net_worth.len() ==> -0x2000_0000_0000_0000_0000_0000_0000_0000 <= #[trigger] net_worth@[b]
                    <= 0x2000_0000_0000_0000_0000_0000_0000_0000,
            forall|b: int| 0 <= b < mom_change.len() ==> #[trigger] mom_change@[b] == net_worth@[b + 1] - net_worth@[b],
        decreases net_worth.len() - i,
    {
        let x = net_worth[i];
        let y = net_worth[i - 1];
        mom_change.push(x - y);
        i = i + 1;
    }
    let net_change: i128 = if net_worth.len() == 0 {
        0
    } else {
        let x = net_worth[net_worth.len() - 1];
        let y = net_worth[0];
        x - y
    };
    let item_trends = item_trends_exec(&s, logs, from, to, &dates);
    let (portfolios, type_labels, type_values, total, total_items) = portfolio_figures(ps, fp, logs);
    StatsData {
        dates,
        net_worth,
        assets,
        investments,
        debts,
        mom_change,
        item_trends,
        portfolios,
        type_labels,
        type_values,
        total,
        total_items,
        net_change,
    }
}

} // verus!
