//! The dashboard greeting and the insights of a portfolio: the period
//! shown, the balances per item and date, and the summary figures, all in
//! cents.

use vstd::prelude::*;
use crate::dates::{chrono_from_ymd, chrono_year_month, from_ymd, year_month};
use crate::digits::{decimal, digit_to_char, push_decimal_wide};
use crate::money::{abs, two_digits};
use crate::portfolio::{has_day, is_debt, last_value, listed, BalanceLog, WealthItem};
use crate::text::{chars_eq, chars_of, string_of};

verus! {

/// The greeting for an hour of the day.
pub open spec fn spec_greeting(hour: u32) -> Seq<char> {
    if hour <= 11 {
        "Good morning"@
    } else if hour <= 17 {
        "Good afternoon"@
    } else {
        "Good evening"@
    }
}

/// The greeting for an hour of the day: morning until 11, afternoon until
/// 17, evening after.
pub fn greeting(hour: u32) -> (r: &'static str)
    ensures
        r@ == spec_greeting(hour),
{
    if hour <= 11 {
        "Good morning"
    } else if hour <= 17 {
        "Good afternoon"
    } else {
        "Good evening"
    }
}

// ── The period ──

/// The first month of the quarter of month `m`.
pub open spec fn quarter_start(m: u32) -> u32 {
    (((m as int - 1) / 3) * 3 + 1) as u32
}

/// The first day the insights cover for a range preset and today's day
/// number: 30, 90, 180 or 365 days back; for `quarter` the 91 days before
/// the current quarter; for `this_fy` and `last_fy` the first of July that
/// starts the current or the previous financial year; for anything else
/// the first of January 2000. Dates that `chrono` cannot give fall back on
/// today.
pub open spec fn spec_range_cutoff(range: Option<Seq<char>>, today: i32) -> int {
    let t = today as int;
    let ym = chrono_year_month(today);
    match range {
        Some(r) => if r == "30d"@ {
            t - 30
        } else if r == "90d"@ {
            t - 90
        } else if r == "6m"@ {
            t - 180
        } else if r == "1y"@ {
            t - 365
        } else if r == "quarter"@ {
            match ym {
                Some((y, m)) => match chrono_from_ymd(y, quarter_start(m), 1) {
                    Some(q) => q - 91,
                    None => t - 91,
                },
                None => t - 91,
            }
        } else if r == "this_fy"@ || r == "last_fy"@ {
            match ym {
                Some((y, m)) => {
                    let fy = (if m >= 7 {
                        y as int
                    } else {
                        y - 1
                    }) - (if r == "last_fy"@ {
                        1int
                    } else {
                        0int
                    });
                    if i32::MIN <= fy <= i32::MAX {
                        match chrono_from_ymd(fy as i32, 7, 1) {
                            Some(d) => d as int,
                            None => t,
                        }
                    } else {
                        t
                    }
                },
                None => t,
            }
        } else {
            match chrono_from_ymd(2000, 1, 1) {
                Some(d) => d as int,
                None => t,
            }
        },
        None => match chrono_from_ymd(2000, 1, 1) {
            Some(d) => d as int,
            None => t,
        },
    }
}

/// The first day the insights cover (see `spec_range_cutoff`).
pub fn range_cutoff(range: &Option<String>, today: i32) -> (r: i64)
    ensures
        r == spec_range_cutoff(
            match range {
                Some(s) => Some(s@),
                None => None,
            },
            today,
        ),
{
    let t = today as i64;
    let all_time = match from_ymd(2000, 1, 1) {
        Some(d) => d as i64,
        None => t,
    };
    let r = match range {
        Some(s) => s,
        None => {
            return all_time;
        },
    };
    let v = chars_of(r.as_str());
    if chars_eq(&v, &chars_of("30d")) {
        t - 30
    } else if chars_eq(&v, &chars_of("90d")) {
        t - 90
    } else if chars_eq(&v, &chars_of("6m")) {
        t - 180
    } else if chars_eq(&v, &chars_of("1y")) {
        t - 365
    } else if chars_eq(&v, &chars_of("quarter")) {
        match year_month(today) {
            Some((y, m)) => {
                let qm: u32 = ((m - 1) / 3) * 3 + 1;
                match from_ymd(y, qm, 1) {
                    Some(q) => q as i64 - 91,
                    None => t - 91,
                }
            },
            None => t - 91,
        }
    } else {
        let this_fy = chars_eq(&v, &chars_of("this_fy"));
        let last_fy = chars_eq(&v, &chars_of("last_fy"));
        if this_fy || last_fy {
            match year_month(today) {
                Some((y, m)) => {
                    let fy: i64 = (if m >= 7 {
                        y as i64
                    } else {
                        y as i64 - 1
                    }) - (if last_fy {
                        1
                    } else {
                        0
                    });
                    if i32::MIN as i64 <= fy && fy <= i32::MAX as i64 {
                        match from_ymd(fy as i32, 7, 1) {
                            Some(d) => d as i64,
                            None => t,
                        }
                    } else {
                        t
                    }
                },
                None => t,
            }
        } else {
            all_time
        }
    }
}

// ── The figures ──

/// The value of an item on a date, in cents: its last balance logged that
/// day, negative for a debt, 0 when nothing is logged.
pub open spec fn item_value(item: WealthItem, logs: Seq<BalanceLog>, d: i32) -> int {
    match last_value(logs, item.item_id, d) {
        Some(v) => if is_debt(item) {
            -v
        } else {
            v as int
        },
        None => 0,
    }
}

/// The sum of column `j` over the first `k` rows.
pub open spec fn column_sum(values: Seq<Seq<i128>>, j: int, k: int) -> int
    decreases k,
{
    if k <= 0 {
        0
    } else {
        column_sum(values, j, k - 1) + values[k - 1][j]
    }
}

/// The last value of a row that is not 0, or 0.
pub open spec fn last_nonzero(row: Seq<i128>) -> int
    decreases row.len(),
{
    if row.len() == 0 {
        0
    } else if row.last() != 0 {
        row.last() as int
    } else {
        last_nonzero(row.drop_last())
    }
}

/// The sum over the first `k` items that are debts of their last value
/// that is not 0.
pub open spec fn debt_sum(items: Seq<WealthItem>, values: Seq<Seq<i128>>, k: int) -> int
    decreases k,
{
    if k <= 0 {
        0
    } else {
        debt_sum(items, values, k - 1) + if is_debt(items[k - 1]) {
            last_nonzero(values[k - 1])
        } else {
            0
        }
    }
}

/// `x / m` rounded to a whole number, halves away from zero (`m > 0`).
pub open spec fn div_round(x: int, m: int) -> int {
    if x >= 0 {
        (2 * x + m) / (2 * m)
    } else {
        -((2 * (-x) + m) / (2 * m))
    }
}

/// The insights of a portfolio over a period, in cents.
pub struct Insights {
    /// The logged days in the period, earliest first.
    pub dates: Vec<i32>,
    /// Per item, its value on each of those days.
    pub values: Vec<Vec<i128>>,
    /// The net worth on each of those days: the sum of the items' values.
    pub net_worth: Vec<i128>,
    /// The net worth on the last day, or 0.
    pub total_net_worth: i128,
    /// The sum over debts of their last value that is not 0.
    pub total_debt: i128,
    /// The net worth on the last day less that on the first, or 0 for
    /// fewer than two days.
    pub total_increase: i128,
    /// The months between the first and the last day, at least 1.
    pub num_months: i128,
    /// The increase per month, rounded to cents.
    pub avg_per_month: i128,
}

/// The months from the first to the last date, counted by year and month,
/// at least one; dates that `chrono` cannot give count as January of year
/// 0.
pub open spec fn months_between(first: i32, last: i32) -> int {
    let (y1, m1) = match chrono_year_month(first) {
        Some((y, m)) => (y as int, m as int),
        None => (0int, 1int),
    };
    let (y2, m2) = match chrono_year_month(last) {
        Some((y, m)) => (y as int, m as int),
        None => (0int, 1int),
    };
    let n = (y2 - y1) * 12 + (m2 - m1);
    if n < 1 {
        1
    } else {
        n
    }
}

/// `r` holds the insights of the items and logs from day `cutoff` on.
pub open spec fn is_insights(items: Seq<WealthItem>, logs: Seq<BalanceLog>, cutoff: int, r: Insights) -> bool {
    let ds = r.dates@;
    let n = ds.len() as int;
    let nw = r.net_worth@;
    &&& forall|a: int, b: int| 0 <= a < b < n ==> #[trigger] ds[a] < #[trigger] ds[b]
    &&& forall|a: int| 0 <= a < n ==> ds[a] >= cutoff && has_day(logs, #[trigger] ds[a])
    &&& forall|m: int|
        0 <= m < logs.len() && logs[m].log_date >= cutoff ==> listed(ds, #[trigger] logs[m].log_date)
    &&& r.values.len() == items.len()
    &&& forall|i: int| 0 <= i < items.len() ==> (#[trigger] r.values@[i])@.len() == n
    &&& forall|i: int, j: int|
        0 <= i < items.len() && 0 <= j < n ==> #[trigger] r.values@[i]@[j] == item_value(
            items[i],
            logs,
            ds[j],
        )
    &&& nw.len() == n
    &&& forall|j: int|
        0 <= j < n ==> #[trigger] nw[j] == column_sum(
            Seq::new(items.len(), |i: int| r.values@[i]@),
            j,
            items.len() as int,
        )
    &&& r.total_net_worth == if n > 0 {
        nw[n - 1] as int
    } else {
        0
    }
    &&& r.total_debt == debt_sum(items, Seq::new(items.len(), |i: int| r.values@[i]@), items.len() as int)
    &&& r.total_increase == if n >= 2 {
        nw[n - 1] - nw[0]
    } else {
        0
    }
    &&& r.num_months == if n >= 2 {
        months_between(ds[0], ds[n - 1])
    } else {
        1
    }
    &&& r.avg_per_month == div_round(r.total_increase as int, r.num_months as int)
}

/// An amount in cents as shown among the insights: sign, `$`, whole
/// dollars without separators, a point and two digits of cents.
pub open spec fn spec_money_text(c: int) -> Seq<char> {
    let a = abs(c);
    (if c < 0 {
        seq!['-', '$']
    } else {
        seq!['$']
    }) + decimal(a / 100) + seq!['.'] + two_digits(a % 100)
}

/// Writes an amount in cents as the insights show it (see
/// `spec_money_text`).
pub fn money_text(c: i128) -> (s: String)
    requires
        c != i128::MIN,
    ensures
        s@ == spec_money_text(c as int),
{
    let a: u128 = if c < 0 {
        (-c) as u128
    } else {
        c as u128
    };
    let mut out: Vec<char> = Vec::new();
    if c < 0 {
        out.push('-');
    }
    out.push('$');
    push_decimal_wide(a / 100, &mut out);
    out.push('.');
    out.push(digit_to_char(((a % 100) / 10) as u64));
    out.push(digit_to_char(((a % 100) % 10) as u64));
    proof {
        assert(abs(c as int) == a);
        assert(out@ =~= spec_money_text(c as int));
    }
    string_of(&out)
}

/// Column sums over `k` rows of values bounded by `2^63` are bounded by
/// `k * 2^63`.
proof fn lemma_column_sum_bound(values: Seq<Seq<i128>>, j: int, k: int)
    requires
        0 <= k <= values.len(),
        forall|i: int|
            0 <= i < k ==> -0x8000_0000_0000_0000 <= #[trigger] values[i][j] <= 0x8000_0000_0000_0000,
    ensures
        -k * 0x8000_0000_0000_0000 <= column_sum(values, j, k) <= k * 0x8000_0000_0000_0000,
    decreases k,
{
    if k > 0 {
        lemma_column_sum_bound(values, j, k - 1);
    }
}

/// Debt sums over `k` rows of values bounded by `2^63` are bounded by
/// `k * 2^63`.
proof fn lemma_debt_sum_bound(items: Seq<WealthItem>, values: Seq<Seq<i128>>, k: int)
    requires
        0 <= k <= values.len(),
        k <= items.len(),
        forall|i: int, j: int|
            0 <= i < k && 0 <= j < values[i].len() ==> -0x8000_0000_0000_0000 <= #[trigger] values[i][j]
                <= 0x8000_0000_0000_0000,
    ensures
        -k * 0x8000_0000_0000_0000 <= debt_sum(items, values, k) <= k * 0x8000_0000_0000_0000,
    decreases k,
{
    if k > 0 {
        lemma_debt_sum_bound(items, values, k - 1);
        lemma_last_nonzero_bound(values[k - 1]);
    }
}

/// The last value that is not 0 is one of the values, or 0.
proof fn lemma_last_nonzero_bound(row: Seq<i128>)
    requires
        forall|j: int| 0 <= j < row.len() ==> -0x8000_0000_0000_0000 <= #[trigger] row[j] <= 0x8000_0000_0000_0000,
    ensures
        -0x8000_0000_0000_0000 <= last_nonzero(row) <= 0x8000_0000_0000_0000,
    decreases row.len(),
{
    if row.len() > 0 && row.last() == 0 {
        let q = row.drop_last();
        assert forall|j: int| 0 <= j < q.len() implies -0x8000_0000_0000_0000 <= #[trigger] q[j]
            <= 0x8000_0000_0000_0000 by {
            assert(q[j] == row[j]);
        }
        lemma_last_nonzero_bound(q);
    }
}

/// The insights of a portfolio from day `cutoff` on (see `is_insights`).
/// A list of items cannot be longer than `2^59`, the bound that keeps the
/// sums in range.
pub fn compute_insights(items: &Vec<WealthItem>, logs: &Vec<BalanceLog>, cutoff: i64) -> (r: Insights)
    requires
        items.len() <= 0x0800_0000_0000_0000,
    ensures
        is_insights(items@, logs@, cutoff as int, r),
{
    // The logs of the period, and their days.
    let mut period: Vec<BalanceLog> = Vec::new();
    let mut k: usize = 0;
    while k < logs.len()
        invariant
            k <= logs.len(),
            forall|t: int| 0 <= t < period.len() ==> (#[trigger] period@[t]).log_date >= cutoff && has_day(
                logs@,
                period@[t].log_date,
            ),
            forall|m: int|
                0 <= m < k && logs@[m].log_date >= cutoff ==> has_day(period@, #[trigger] logs@[m].log_date),
        decreases logs.len() - k,
    {
        if logs[k].log_date as i64 >= cutoff {
            let ghost before = period@;
            period.push(logs[k]);
            assert(has_day(logs@, logs@[k as int].log_date)) by {
                assert(logs@[k as int].log_date == logs@[k as int].log_date);
            }
            assert forall|m: int|
                0 <= m < k + 1 && logs@[m].log_date >= cutoff implies has_day(period@, #[trigger] logs@[m].log_date) by {
                if m == k {
                    assert(period@[period.len() - 1] == logs@[k as int]);
                } else {
                    let t = choose|t: int| 0 <= t < before.len() && #[trigger] before[t].log_date == logs@[m].log_date;
                    assert(period@[t] == before[t]);
                }
            }
        }
        k = k + 1;
    }
    let desc = crate::portfolio::logged_days_desc(&period);
    let n = desc.len();
    let mut dates: Vec<i32> = Vec::new();
    let mut a: usize = n;
    while a > 0
        invariant
            a <= n == desc.len(),
            dates@ == desc@.reverse().take(n - a),
        decreases a,
    {
        dates.push(desc[a - 1]);
        assert(dates@ =~= desc@.reverse().take(n - a + 1));
        a = a - 1;
    }
    assert(desc@.reverse().take(n as int) =~= desc@.reverse());
    let ghost ds = dates@;
    proof {
        assert forall|x: int, y: int| 0 <= x < y < n implies #[trigger] ds[x] < #[trigger] ds[y] by {
            assert(ds[x] == desc@[n - 1 - x] && ds[y] == desc@[n - 1 - y]);
        }
        assert forall|x: int| 0 <= x < n implies ds[x] >= cutoff && has_day(logs@, #[trigger] ds[x]) by {
            assert(ds[x] == desc@[n - 1 - x]);
            assert(has_day(period@, desc@[n - 1 - x]));
            let t = choose|t: int| 0 <= t < period.len() && #[trigger] period@[t].log_date == ds[x];
            assert(period@[t].log_date >= cutoff && has_day(logs@, period@[t].log_date));
        }
        assert forall|m: int| 0 <= m < logs.len() && logs@[m].log_date >= cutoff implies listed(ds, #[trigger] logs@[m].log_date) by {
            let dm = logs@[m].log_date;
            assert(has_day(period@, dm));
            let t = choose|t: int| 0 <= t < period.len() && #[trigger] period@[t].log_date == dm;
            assert(listed(desc@, period@[t].log_date));
            let x = choose|x: int| 0 <= x < desc.len() && #[trigger] desc@[x] == dm;
            assert(ds[n - 1 - x] == desc@[x]);
        }
    }
    // The values.
    let debt = chars_of("debt");
    let mut values: Vec<Vec<i128>> = Vec::new();
    let mut i: usize = 0;
    while i < items.len()
        invariant
            i <= items.len(),
            dates@ == ds,
            ds.len() == n,
            debt@ == "debt"@,
            values.len() == i,
            forall|x: int| 0 <= x < i ==> (#[trigger] values@[x])@.len() == n,
            forall|x: int, j: int|
                0 <= x < i && 0 <= j < n ==> #[trigger] values@[x]@[j] == item_value(items@[x], logs@, ds[j]),
        decreases items.len() - i,
    {
        let is_d = chars_eq(&chars_of(items[i].item_type.as_str()), &debt);
        let mut row: Vec<i128> = Vec::new();
        let mut j: usize = 0;
        while j < n
            invariant
                j <= n,
                i < items.len(),
                dates@ == ds,
                ds.len() == n,
                is_d == is_debt(items@[i as int]),
                row.len() == j,
                forall|t: int| 0 <= t < j ==> #[trigger] row@[t] == item_value(items@[i as int], logs@, ds[t]),
            decreases n - j,
        {
            let v: i128 = match crate::portfolio::last_value_exec(logs, items[i].item_id, dates[j]) {
                Some(b) => if is_d {
                    -(b as i128)
                } else {
                    b as i128
                },
                None => 0,
            };
            row.push(v);
            j = j + 1;
        }
        values.push(row);
        i = i + 1;
    }
    let ghost vs = Seq::new(items.len() as nat, |x: int| values@[x]@);
    assert forall|x: int, j: int|
        0 <= x < items.len() && 0 <= j < vs[x].len() implies -0x8000_0000_0000_0000 <= #[trigger] vs[x][j]
            <= 0x8000_0000_0000_0000 by {
        assert(vs[x][j] == item_value(items@[x], logs@, ds[j]));
    }
    // Net worth per day.
    let mut net: Vec<i128> = Vec::new();
    let mut j: usize = 0;
    while j < n
        invariant
            j <= n,
            values.len() == items.len() <= 0x0800_0000_0000_0000,
            vs == Seq::new(items.len() as nat, |x: int| values@[x]@),
            forall|x: int| 0 <= x < items.len() ==> (#[trigger] values@[x])@.len() == n,
            forall|x: int, y: int|
                0 <= x < items.len() && 0 <= y < vs[x].len() ==> -0x8000_0000_0000_0000 <= #[trigger] vs[x][y]
                    <= 0x8000_0000_0000_0000,
            net.len() == j,
            forall|t: int| 0 <= t < j ==> #[trigger] net@[t] == column_sum(vs, t, items.len() as int),
            forall|t: int| 0 <= t < j ==> -0x1000_0000_0000_0000_0000_0000_0000_0000 <= #[trigger] net@[t] <= 0x1000_0000_0000_0000_0000_0000_0000_0000,
        decreases n - j,
    {
        let mut s: i128 = 0;
        let mut x: usize = 0;
        while x < items.len()
            invariant
                x <= items.len() <= 0x0800_0000_0000_0000,
                j < n,
                values.len() == items.len(),
                vs == Seq::new(items.len() as nat, |x: int| values@[x]@),
                forall|x: int| 0 <= x < items.len() ==> (#[trigger] values@[x])@.len() == n,
                forall|x: int, y: int|
                    0 <= x < items.len() && 0 <= y < vs[x].len() ==> -0x8000_0000_0000_0000 <= #[trigger] vs[x][y]
                        <= 0x8000_0000_0000_0000,
                s == column_sum(vs, j as int, x as int),
            decreases items.len() - x,
        {
            proof {
                lemma_column_sum_bound(vs, j as int, x as int);
                lemma_column_sum_bound(vs, j as int, x + 1);
                assert(vs[x as int][j as int] == values@[x as int]@[j as int]);
                assert(x * 0x8000_0000_0000_0000 <= 0x0800_0000_0000_0000 * 0x8000_0000_0000_0000) by (nonlinear_arith)
                    requires x <= 0x0800_0000_0000_0000;
                assert((x + 1) * 0x8000_0000_0000_0000 <= 0x0800_0000_0000_0001 * 0x8000_0000_0000_0000) by (nonlinear_arith)
                    requires x <= 0x0800_0000_0000_0000;
            }
            s = s + values[x][j];
            x = x + 1;
        }
        proof {
            lemma_column_sum_bound(vs, j as int, items.len() as int);
            assert(items.len() * 0x8000_0000_0000_0000 <= 0x0800_0000_0000_0000 * 0x8000_0000_0000_0000) by (nonlinear_arith)
                requires items.len() <= 0x0800_0000_0000_0000;
        }
        net.push(s);
        j = j + 1;
    }
    // Debts.
    let mut total_debt: i128 = 0;
    let mut x: usize = 0;
    while x < items.len()
        invariant
            x <= items.len() <= 0x0800_0000_0000_0000,
            debt@ == "debt"@,
            values.len() == items.len(),
            vs == Seq::new(items.len() as nat, |x: int| values@[x]@),
            forall|x: int, y: int|
                0 <= x < items.len() && 0 <= y < vs[x].len() ==> -0x8000_0000_0000_0000 <= #[trigger] vs[x][y]
                    <= 0x8000_0000_0000_0000,
            total_debt == debt_sum(items@, vs, x as int),
        decreases items.len() - x,
    {
        proof {
            lemma_debt_sum_bound(items@, vs, x as int);
            lemma_debt_sum_bound(items@, vs, x + 1);
            assert(x * 0x8000_0000_0000_0000 <= 0x0800_0000_0000_0000 * 0x8000_0000_0000_0000) by (nonlinear_arith)
                requires x <= 0x0800_0000_0000_0000;
            assert((x + 1) * 0x8000_0000_0000_0000 <= 0x0800_0000_0000_0001 * 0x8000_0000_0000_0000) by (nonlinear_arith)
                requires x <= 0x0800_0000_0000_0000;
        }
        if chars_eq(&chars_of(items[x].item_type.as_str()), &debt) {
            let row = &values[x];
            let mut t = row.len();
            assert(vs[x as int] == row@);
            assert(row@.take(t as int) =~= row@);
            while t > 0 && row[t - 1] == 0
                invariant
                    t <= row.len(),
                    last_nonzero(row@) == last_nonzero(row@.take(t as int)),
                decreases t,
            {
                assert(row@.take(t as int).drop_last() =~= row@.take(t - 1));
                t = t - 1;
            }
            let last: i128 = if t == 0 {
                0
            } else {
                assert(row@.take(t as int).last() == row@[t - 1]);
                row[t - 1]
            };
            total_debt = total_debt + last;
        }
        x = x + 1;
    }
    // Summary.
    let total_net_worth: i128 = if n > 0 {
        net[n - 1]
    } else {
        0
    };
    let total_increase: i128 = if n >= 2 {
        net[n - 1] - net[0]
    } else {
        0
    };
    let num_months: i128 = if n >= 2 {
        let (y1, m1): (i64, i64) = match year_month(dates[0]) {
            Some((y, m)) => (y as i64, m as i64),
            None => (0, 1),
        };
        let (y2, m2): (i64, i64) = match year_month(dates[n - 1]) {
            Some((y, m)) => (y as i64, m as i64),
            None => (0, 1),
        };
        let months = ((y2 - y1) as i128) * 12 + ((m2 - m1) as i128);
        if months < 1 {
            1
        } else {
            months
        }
    } else {
        1
    };
    let avg: i128 = if total_increase >= 0 {
        (2 * total_increase + num_months) / (2 * num_months)
    } else {
        -((2 * (-total_increase) + num_months) / (2 * num_months))
    };
    Insights {
        dates,
        values,
        net_worth: net,
        total_net_worth,
        total_debt,
        total_increase,
        num_months,
        avg_per_month: avg,
    }
}


// ── The allocation ──

/// The items whose last value that is not 0 is positive, as `(item
/// index, value)`, in item order: the slices of the allocation chart.
pub open spec fn spec_allocation(values: Seq<Seq<i128>>) -> Seq<(usize, int)>
    decreases values.len(),
{
    if values.len() == 0 {
        Seq::empty()
    } else {
        let rest = spec_allocation(values.drop_last());
        let v = last_nonzero(values.last());
        if v > 0 {
            rest.push(((values.len() - 1) as usize, v))
        } else {
            rest
        }
    }
}

/// Slices as `(item index, value)`.
pub open spec fn slice_views(v: Seq<(usize, i128)>) -> Seq<(usize, int)> {
    Seq::new(v.len(), |i: int| (v[i].0, v[i].1 as int))
}

/// The last value of the row that is not 0, or 0.
fn last_nonzero_exec(row: &Vec<i128>) -> (r: i128)
    ensures
        r == last_nonzero(row@),
{
    let mut t = row.len();
    assert(row@.take(t as int) =~= row@);
    while t > 0
        invariant
            t <= row.len(),
            last_nonzero(row@) == last_nonzero(row@.take(t as int)),
        decreases t,
    {
        assert(row@.take(t as int).drop_last() =~= row@.take(t - 1));
        if row[t - 1] != 0 {
            return row[t - 1];
        }
        t = t - 1;
    }
    0
}

/// The slices of the allocation chart for the items' values by date (see
/// `spec_allocation`).
pub fn allocation(values: &Vec<Vec<i128>>) -> (r: Vec<(usize, i128)>)
    ensures
        slice_views(r@) == spec_allocation(Seq::new(values@.len(), |i: int| values@[i]@)),
{
    let ghost vs = Seq::new(values@.len(), |i: int| values@[i]@);
    let mut out: Vec<(usize, i128)> = Vec::new();
    let mut i: usize = 0;
    assert(slice_views(out@) =~= spec_allocation(vs.take(0)));
    while i < values.len()
        invariant
            i <= values.len(),
            vs == Seq::new(values@.len(), |k: int| values@[k]@),
            slice_views(out@) == spec_allocation(vs.take(i as int)),
        decreases values.len() - i,
    {
        assert(vs.take(i + 1).drop_last() =~= vs.take(i as int));
        assert(vs.take(i + 1).last() == values@[i as int]@);
        let v = last_nonzero_exec(&values[i]);
        if v > 0 {
            let ghost before = out@;
            out.push((i, v));
            assert(slice_views(out@) =~= slice_views(before).push((i, v as int)));
        }
        i = i + 1;
    }
    assert(vs.take(values.len() as int) =~= vs);
    out
}

} // verus!
