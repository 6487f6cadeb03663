//! Portfolios: wealth items with balances logged by date, the grid of
//! balances by date, row totals, moving items, and the CSV export.

use vstd::prelude::*;
use crate::dates::{chrono_day_valid, chrono_format_day, chrono_parse_day, format_day, parse_day};
use crate::digits::{decimal, digit_to_char, push_decimal};
use crate::error::AppError;
use crate::money::{abs, format_cents, spec_format_cents, two_digits};
use crate::text::{chars_eq, chars_of, string_of};

verus! {

/// A wealth item of a portfolio.
pub struct WealthItem {
    pub item_id: u128,
    pub name: String,
    /// `asset`, `cash`, `debt` or `investment`.
    pub item_type: String,
    pub position: i32,
}

/// A balance logged for an item on a date.
#[derive(Clone, Copy)]
pub struct BalanceLog {
    pub log_id: u128,
    pub item_id: u128,
    /// The day number of the date.
    pub log_date: i32,
    /// The balance in cents.
    pub balance_value: i64,
}

/// One row of the balance grid: a date and a value per item.
pub struct GridRow {
    pub date: i32,
    pub values: Vec<Option<i64>>,
}

/// The ids of the items.
pub open spec fn item_ids(items: Seq<WealthItem>) -> Seq<u128> {
    Seq::new(items.len(), |i: int| items[i].item_id)
}

/// The last position of `id` among `ids`.
pub open spec fn last_index(ids: Seq<u128>, id: u128) -> Option<int>
    decreases ids.len(),
{
    if ids.len() == 0 {
        None
    } else if ids.last() == id {
        Some(ids.len() - 1)
    } else {
        last_index(ids.drop_last(), id)
    }
}

/// The grid value of column `j` on day `d`: the balance of the last log of
/// that day whose item's (last) column is `j`.
pub open spec fn grid_value(ids: Seq<u128>, logs: Seq<BalanceLog>, d: i32, j: int) -> Option<i64>
    decreases logs.len(),
{
    if logs.len() == 0 {
        None
    } else {
        let l = logs.last();
        if l.log_date == d && last_index(ids, l.item_id) == Some(j) {
            Some(l.balance_value)
        } else {
            grid_value(ids, logs.drop_last(), d, j)
        }
    }
}

/// Whether some log is of day `d`.
pub open spec fn has_day(logs: Seq<BalanceLog>, d: i32) -> bool {
    exists|k: int| 0 <= k < logs.len() && #[trigger] logs[k].log_date == d
}

/// Whether some row is of day `d`.
pub open spec fn has_row(rows: Seq<GridRow>, d: i32) -> bool {
    exists|a: int| 0 <= a < rows.len() && #[trigger] rows[a].date == d
}

/// Whether `d` is among `days`.
pub open spec fn listed(days: Seq<i32>, d: i32) -> bool {
    exists|a: int| 0 <= a < days.len() && #[trigger] days[a] == d
}

/// `rows` is the balance grid of the logs: one row per logged date, latest
/// first, with a value per item.
pub open spec fn is_grid(items: Seq<WealthItem>, logs: Seq<BalanceLog>, rows: Seq<GridRow>) -> bool {
    &&& forall|a: int, b: int| 0 <= a < b < rows.len() ==> #[trigger] rows[a].date > #[trigger] rows[b].date
    &&& forall|a: int| 0 <= a < rows.len() ==> has_day(logs, #[trigger] rows[a].date)
    &&& forall|k: int| 0 <= k < logs.len() ==> has_row(rows, #[trigger] logs[k].log_date)
    &&& forall|a: int| 0 <= a < rows.len() ==> (#[trigger] rows[a]).values.len() == items.len()
    &&& forall|a: int, j: int|
        0 <= a < rows.len() && 0 <= j < items.len() ==> #[trigger] rows[a].values@[j] == grid_value(
            item_ids(items),
            logs,
            rows[a].date,
            j,
        )
}

/// The last position of `id` among the items' ids.
fn last_item_index(items: &Vec<WealthItem>, id: u128) -> (r: Option<usize>)
    ensures
        match r {
            Some(j) => last_index(item_ids(items@), id) == Some(j as int) && j < items.len(),
            None => last_index(item_ids(items@), id) is None,
        },
{
    let ghost ids = item_ids(items@);
    let mut n = items.len();
    assert(ids.take(n as int) =~= ids);
    while n > 0
        invariant
            n <= items.len(),
            ids == item_ids(items@),
            last_index(ids, id) == last_index(ids.take(n as int), id),
        decreases n,
    {
        assert(ids.take(n as int).drop_last() =~= ids.take(n - 1));
        if items[n - 1].item_id == id {
            return Some(n - 1);
        }
        n = n - 1;
    }
    None
}

/// The days on which something is logged, latest first, each once.
pub fn logged_days_desc(logs: &Vec<BalanceLog>) -> (days: Vec<i32>)
    ensures
        forall|a: int, b: int| 0 <= a < b < days.len() ==> #[trigger] days@[a] > #[trigger] days@[b],
        forall|a: int| 0 <= a < days.len() ==> has_day(logs@, #[trigger] days@[a]),
        forall|m: int| 0 <= m < logs.len() ==> listed(days@, #[trigger] logs@[m].log_date),
{
    let mut days: Vec<i32> = Vec::new();
    let mut k: usize = 0;
    while k < logs.len()
        invariant
            k <= logs.len(),
            forall|a: int, b: int| 0 <= a < b < days.len() ==> #[trigger] days@[a] > #[trigger] days@[b],
            forall|a: int| 0 <= a < days.len() ==> has_day(logs@, #[trigger] days@[a]),
            forall|m: int| 0 <= m < k ==> listed(days@, #[trigger] logs@[m].log_date),
        decreases logs.len() - k,
    {
        let d = logs[k].log_date;
        assert(has_day(logs@, d)) by {
            assert(logs@[k as int].log_date == d);
        }
        let mut p: usize = 0;
        while p < days.len() && days[p] > d
            invariant
                p <= days.len(),
                forall|a: int| 0 <= a < p ==> #[trigger] days@[a] > d,
            decreases days.len() - p,
        {
            p = p + 1;
        }
        if p < days.len() && days[p] == d {
            assert(days@[p as int] == logs@[k as int].log_date);
        } else {
            let ghost old_days = days@;
            days.insert(p, d);
            assert(days@ == old_days.insert(p as int, d));
            assert forall|a: int, b: int| 0 <= a < b < days.len() implies #[trigger] days@[a]
                > #[trigger] days@[b] by {
                if b < p {
                } else if a < p && b == p {
                } else if a < p {
                    assert(days@[b] == old_days[b - 1]);
                } else if a == p {
                    assert(days@[b] == old_days[b - 1]);
                    assert(old_days[p as int] < d);
                    if b - 1 > p {
                        assert(old_days[p as int] > old_days[b - 1]);
                    }
                } else {
                    assert(days@[a] == old_days[a - 1] && days@[b] == old_days[b - 1]);
                }
            }
            assert forall|a: int| 0 <= a < days.len() implies has_day(logs@, #[trigger] days@[a]) by {
                if a < p {
                    assert(days@[a] == old_days[a]);
                } else if a > p {
                    assert(days@[a] == old_days[a - 1]);
                }
            }
            assert forall|m: int| 0 <= m < k + 1 implies listed(days@, #[trigger] logs@[m].log_date) by {
                if m == k {
                    assert(days@[p as int] == logs@[m].log_date);
                } else {
                    assert(listed(old_days, logs@[m].log_date));
                    let a0 = choose|a: int| 0 <= a < old_days.len() && #[trigger] old_days[a] == logs@[m].log_date;
                    if a0 < p {
                        assert(days@[a0] == old_days[a0]);
                    } else {
                        assert(days@[a0 + 1] == old_days[a0]);
                    }
                }
            }
        }
        k = k + 1;
    }
    days
}

/// Pivots balance logs into a grid by date, latest date first (see
/// `is_grid`).
pub fn pivot_logs(items: &Vec<WealthItem>, logs: &Vec<BalanceLog>) -> (rows: Vec<GridRow>)
    ensures
        is_grid(items@, logs@, rows@),
{
    let days = logged_days_desc(logs);
    // The rows.
    let ghost ids = item_ids(items@);
    let mut rows: Vec<GridRow> = Vec::new();
    let mut a: usize = 0;
    while a < days.len()
        invariant
            a <= days.len(),
            ids == item_ids(items@),
            rows.len() == a,
            forall|x: int, y: int| 0 <= x < y < days.len() ==> #[trigger] days@[x] > #[trigger] days@[y],
            forall|x: int| 0 <= x < days.len() ==> has_day(logs@, #[trigger] days@[x]),
            forall|m: int| 0 <= m < logs.len() ==> listed(days@, #[trigger] logs@[m].log_date),
            forall|x: int| 0 <= x < a ==> (#[trigger] rows@[x]).date == days@[x],
            forall|x: int| 0 <= x < a ==> (#[trigger] rows@[x]).values.len() == items.len(),
            forall|x: int, j: int|
                0 <= x < a && 0 <= j < items.len() ==> #[trigger] rows@[x].values@[j] == grid_value(
                    ids,
                    logs@,
                    days@[x],
                    j,
                ),
        decreases days.len() - a,
    {
        let d = days[a];
        let mut values: Vec<Option<i64>> = Vec::new();
        let mut j: usize = 0;
        while j < items.len()
            invariant
                j <= items.len(),
                values.len() == j,
                forall|t: int| 0 <= t < j ==> #[trigger] values@[t] == None::<i64>,
            decreases items.len() - j,
        {
            values.push(None);
            j = j + 1;
        }
        let mut m: usize = 0;
        while m < logs.len()
            invariant
                m <= logs.len(),
                ids == item_ids(items@),
                values.len() == items.len(),
                forall|t: int|
                    0 <= t < items.len() ==> #[trigger] values@[t] == grid_value(
                        ids,
                        logs@.take(m as int),
                        d,
                        t,
                    ),
            decreases logs.len() - m,
        {
            assert(logs@.take(m + 1).drop_last() =~= logs@.take(m as int));
            assert(logs@.take(m + 1).last() == logs@[m as int]);
            if logs[m].log_date == d {
                match last_item_index(items, logs[m].item_id) {
                    Some(t) => {
                        values.set(t, Some(logs[m].balance_value));
                    },
                    None => {},
                }
            }
            m = m + 1;
        }
        assert(logs@.take(logs.len() as int) =~= logs@);
        rows.push(GridRow { date: d, values });
        a = a + 1;
    }
    proof {
        assert forall|k: int| 0 <= k < logs.len() implies has_row(rows@, #[trigger] logs@[k].log_date) by {
            let dk = logs@[k].log_date;
            assert(listed(days@, dk));
            let x = choose|x: int| 0 <= x < days.len() && #[trigger] days@[x] == dk;
            assert(rows@[x].date == days@[x]);
        }
        assert forall|x: int, y: int| 0 <= x < y < rows.len() implies #[trigger] rows@[x].date
            > #[trigger] rows@[y].date by {
            assert(rows@[x].date == days@[x] && rows@[y].date == days@[y]);
        }
        assert forall|x: int| 0 <= x < rows.len() implies has_day(logs@, #[trigger] rows@[x].date) by {
            assert(rows@[x].date == days@[x]);
        }
    }
    rows
}

// ── Row totals ──

/// Whether the item is a debt.
pub open spec fn is_debt(item: WealthItem) -> bool {
    item.item_type@ == "debt"@
}

/// The net value of the first `k` cells of a row: the present values,
/// debts counted negative.
pub open spec fn row_total_upto(items: Seq<WealthItem>, values: Seq<Option<i64>>, k: int) -> int
    decreases k,
{
    if k <= 0 {
        0
    } else {
        row_total_upto(items, values, k - 1) + match values[k - 1] {
            Some(v) => if is_debt(items[k - 1]) {
                -v
            } else {
                v as int
            },
            None => 0,
        }
    }
}

/// A row's total reads only its first `n` cells.
proof fn lemma_row_total_prefix(items: Seq<WealthItem>, a: Seq<Option<i64>>, b: Seq<Option<i64>>, n: int)
    requires
        0 <= n <= a.len(),
        n <= b.len(),
        forall|i: int| 0 <= i < n ==> a[i] == b[i],
    ensures
        row_total_upto(items, a, n) == row_total_upto(items, b, n),
    decreases n,
{
    if n > 0 {
        lemma_row_total_prefix(items, a, b, n - 1);
        assert(a[n - 1] == b[n - 1]);
    }
}

/// What one cell adds to a row's total: setting the cell of item `k` to
/// `x` rather than leaving it empty changes the total by `-x` when the
/// item's type is `debt` and by `x` for any other type (asset,
/// investment, cash).
pub proof fn lemma_row_total_cell(items: Seq<WealthItem>, values: Seq<Option<i64>>, k: int, x: i64, n: int)
    requires
        0 <= k < n <= values.len(),
    ensures
        row_total_upto(items, values.update(k, Some(x)), n) == row_total_upto(items, values.update(k, None), n)
            + if items[k].item_type@ == "debt"@ {
            -x
        } else {
            x as int
        },
    decreases n,
{
    let a = values.update(k, Some(x));
    let b = values.update(k, None);
    if n == k + 1 {
        lemma_row_total_prefix(items, a, b, k);
    } else {
        lemma_row_total_cell(items, values, k, x, n - 1);
        assert(a[n - 1] == b[n - 1]);
    }
}

/// A row with no values totals zero.
pub proof fn lemma_row_total_empty(items: Seq<WealthItem>, values: Seq<Option<i64>>, n: int)
    requires
        0 <= n <= values.len(),
        forall|i: int| 0 <= i < n ==> values[i] is None,
    ensures
        row_total_upto(items, values, n) == 0,
    decreases n,
{
    if n > 0 {
        lemma_row_total_empty(items, values, n - 1);
    }
}

/// The net value of a row of the grid: the sum of its values, debts
/// counted negative. The running sum must stay in the `i64` range.
pub fn row_total(items: &Vec<WealthItem>, values: &Vec<Option<i64>>) -> (t: i64)
    requires
        values.len() <= items.len(),
        forall|k: int|
            0 <= k <= values.len() ==> i64::MIN <= #[trigger] row_total_upto(items@, values@, k)
                <= i64::MAX,
        forall|k: int|
            0 <= k < values.len() && is_debt(#[trigger] items@[k]) ==> values@[k] != Some(i64::MIN),
    ensures
        t == row_total_upto(items@, values@, values.len() as int),
{
    let debt = chars_of("debt");
    let mut t: i64 = 0;
    let mut k: usize = 0;
    while k < values.len()
        invariant
            k <= values.len() <= items.len(),
            debt@ == "debt"@,
            t == row_total_upto(items@, values@, k as int),
            forall|k: int|
                0 <= k <= values.len() ==> i64::MIN <= #[trigger] row_total_upto(items@, values@, k)
                    <= i64::MAX,
            forall|k: int|
                0 <= k < values.len() && is_debt(#[trigger] items@[k]) ==> values@[k] != Some(
                    i64::MIN,
                ),
        decreases values.len() - k,
    {
        assert(i64::MIN <= row_total_upto(items@, values@, k + 1) <= i64::MAX);
        match values[k] {
            Some(v) => {
                if chars_eq(&chars_of(items[k].item_type.as_str()), &debt) {
                    assert(is_debt(items@[k as int]));
                    t = t - v;
                } else {
                    t = t + v;
                }
            },
            None => {},
        }
        k = k + 1;
    }
    t
}

/// The net value of a row of the grid (see `row_total`), or `None` when a
/// running sum leaves the `i64` range or a debt holds the least `i64`.
pub fn row_total_checked(items: &Vec<WealthItem>, values: &Vec<Option<i64>>) -> (r: Option<i64>)
    requires
        values.len() <= items.len(),
    ensures
        r is Some <==> (forall|k: int|
            0 <= k <= values.len() ==> i64::MIN <= #[trigger] row_total_upto(items@, values@, k)
                <= i64::MAX) && (forall|k: int|
            0 <= k < values.len() && is_debt(#[trigger] items@[k]) ==> values@[k] != Some(i64::MIN)),
        r matches Some(t) ==> t == row_total_upto(items@, values@, values.len() as int),
{
    let debt_s = chars_of("debt");
    let mut acc: i128 = 0;
    let mut k: usize = 0;
    while k < values.len()
        invariant
            k <= values.len() <= items.len(),
            debt_s@ == "debt"@,
            acc == row_total_upto(items@, values@, k as int),
            forall|j: int| 0 <= j <= k ==> i64::MIN <= #[trigger] row_total_upto(items@, values@, j) <= i64::MAX,
            forall|j: int| 0 <= j < k && is_debt(#[trigger] items@[j]) ==> values@[j] != Some(i64::MIN),
        decreases values.len() - k,
    {
        let debt = chars_eq(&chars_of(items[k].item_type.as_str()), &debt_s);
        match values[k] {
            Some(v) => {
                if debt {
                    assert(is_debt(items@[k as int]));
                    if v == i64::MIN {
                        return None;
                    }
                    acc = acc - v as i128;
                } else {
                    acc = acc + v as i128;
                }
            },
            None => {},
        }
        assert(acc == row_total_upto(items@, values@, k + 1));
        if acc < i64::MIN as i128 || acc > i64::MAX as i128 {
            assert(!(i64::MIN <= row_total_upto(items@, values@, k + 1) <= i64::MAX));
            return None;
        }
        k = k + 1;
    }
    Some(acc as i64)
}

/// The values of the items on a date: the balance of the first log of
/// that item and date.
pub open spec fn first_value(logs: Seq<BalanceLog>, id: u128, d: i32) -> Option<i64>
    decreases logs.len(),
{
    if logs.len() == 0 {
        None
    } else if logs[0].item_id == id && logs[0].log_date == d {
        Some(logs[0].balance_value)
    } else {
        first_value(logs.drop_first(), id, d)
    }
}

/// The value logged for an item on a date (the first such log), if any.
pub fn value_on(logs: &Vec<BalanceLog>, item_id: u128, day: i32) -> (r: Option<i64>)
    ensures
        r == first_value(logs@, item_id, day),
{
    let mut m: usize = 0;
    assert(logs@.subrange(0, logs.len() as int) =~= logs@);
    while m < logs.len()
        invariant
            m <= logs.len(),
            first_value(logs@, item_id, day) == first_value(
                logs@.subrange(m as int, logs.len() as int),
                item_id,
                day,
            ),
        decreases logs.len() - m,
    {
        let ghost rest = logs@.subrange(m as int, logs.len() as int);
        assert(rest[0] == logs@[m as int]);
        assert(rest.drop_first() =~= logs@.subrange(m + 1, logs.len() as int));
        if logs[m].item_id == item_id && logs[m].log_date == day {
            return Some(logs[m].balance_value);
        }
        m = m + 1;
    }
    None
}

/// The values of all items on a date, in item order.
pub fn values_on(items: &Vec<WealthItem>, logs: &Vec<BalanceLog>, day: i32) -> (r: Vec<Option<i64>>)
    ensures
        r.len() == items.len(),
        forall|j: int|
            0 <= j < items.len() ==> #[trigger] r@[j] == first_value(logs@, items@[j].item_id, day),
{
    let mut r: Vec<Option<i64>> = Vec::new();
    let mut j: usize = 0;
    while j < items.len()
        invariant
            j <= items.len(),
            r.len() == j,
            forall|t: int| 0 <= t < j ==> #[trigger] r@[t] == first_value(logs@, items@[t].item_id, day),
        decreases items.len() - j,
    {
        r.push(value_on(logs, items[j].item_id, day));
        j = j + 1;
    }
    r
}

// ── Editing a cell ──

/// The text put in a cell's edit box: the amount in cents as a plain
/// decimal number, sign, whole dollars, a point and two digits of cents
/// (`-1234` cents is `-12.34`).
pub open spec fn spec_edit_text(c: int) -> Seq<char> {
    let a = abs(c);
    (if c < 0 {
        seq!['-']
    } else {
        Seq::<char>::empty()
    }) + decimal(a / 100) + seq!['.'] + two_digits(a % 100)
}

/// The text of a cell's edit box for a balance in cents.
pub fn edit_text(c: i64) -> (s: String)
    requires
        c != i64::MIN,
    ensures
        s@ == spec_edit_text(c as int),
{
    let a: u64 = if c < 0 {
        (-c) as u64
    } else {
        c as u64
    };
    let mut out: Vec<char> = Vec::new();
    if c < 0 {
        out.push('-');
    }
    let ghost before = out@;
    push_decimal(a / 100, &mut out);
    out.push('.');
    out.push(digit_to_char((a % 100) / 10));
    out.push(digit_to_char((a % 100) % 10));
    proof {
        assert(abs(c as int) == a);
        assert(out@ =~= spec_edit_text(c as int));
    }
    string_of(&out)
}

// ── Moving items ──

/// Which positions to swap to move the item `id` left or right: `None`
/// when it is already at that edge or the direction is neither; an error
/// when no item has the id.
pub open spec fn spec_move_swap(ids: Seq<u128>, id: u128, direction: Seq<char>) -> Result<
    Option<(int, int)>,
    Seq<char>,
> {
    if !ids.contains(id) {
        Err("Item not found"@)
    } else {
        let idx = choose|i: int| 0 <= i < ids.len() && ids[i] == id && forall|j: int| 0 <= j < i ==> ids[j] != id;
        if direction == "left"@ && idx > 0 {
            Ok(Some((idx, idx - 1)))
        } else if direction == "right"@ && idx < ids.len() - 1 {
            Ok(Some((idx, idx + 1)))
        } else {
            Ok(None)
        }
    }
}

/// The positions of the items to swap when moving the item `item_id` in
/// the direction `left` or `right` (see `spec_move_swap`); the item is the
/// first one with that id.
pub fn move_swap(items: &Vec<WealthItem>, item_id: u128, direction: &str) -> (r: Result<
    Option<(usize, usize)>,
    AppError,
>)
    ensures
        match spec_move_swap(item_ids(items@), item_id, direction@) {
            Err(m) => r matches Err(AppError::BadRequest(e)) && e@ == m,
            Ok(None) => r matches Ok(None),
            Ok(Some((a, b))) => r matches Ok(Some((x, y))) && x == a && y == b,
        },
{
    let ghost ids = item_ids(items@);
    let mut idx: usize = 0;
    while idx < items.len() && items[idx].item_id != item_id
        invariant
            idx <= items.len(),
            ids == item_ids(items@),
            forall|j: int| 0 <= j < idx ==> ids[j] != item_id,
        decreases items.len() - idx,
    {
        idx = idx + 1;
    }
    if idx == items.len() {
        assert(!ids.contains(item_id)) by {
            if ids.contains(item_id) {
                let j = choose|j: int| 0 <= j < ids.len() && ids[j] == item_id;
                assert(ids[j] != item_id);
            }
        }
        return Err(AppError::BadRequest("Item not found".to_owned()));
    }
    proof {
        assert(ids[idx as int] == item_id);
        assert(ids.contains(item_id));
        let c = choose|i: int| 0 <= i < ids.len() && ids[i] == item_id && forall|j: int| 0 <= j < i ==> ids[j] != item_id;
        assert(0 <= idx < ids.len() && ids[idx as int] == item_id && forall|j: int| 0 <= j < idx ==> ids[j] != item_id);
        if c < idx {
            assert(ids[c] != item_id);
        } else if c > idx {
            assert(ids[idx as int] != item_id);
        }
    }
    let d = chars_of(direction);
    if chars_eq(&d, &chars_of("left")) && idx > 0 {
        Ok(Some((idx, idx - 1)))
    } else if chars_eq(&d, &chars_of("right")) && idx < items.len() - 1 {
        Ok(Some((idx, idx + 1)))
    } else {
        Ok(None)
    }
}

// ── Date format examples ──

/// The date formats offered when importing, in order.
pub open spec fn example_formats() -> Seq<Seq<char>> {
    seq![
        "%d/%m/%Y"@,
        "%d/%m/%y"@,
        "%Y-%m-%d"@,
        "%m/%d/%Y"@,
        "%m/%d/%y"@,
        "%Y/%m/%d"@,
        "%b %d, %Y"@,
        "%d %b %Y"@,
        "%B %d, %Y"@,
        "%d %B %y"@,
        "%d %B %Y"@,
    ]
}

fn example_format_at(i: usize) -> (r: &'static str)
    requires
        i < 11,
    ensures
        r@ == example_formats()[i as int],
        crate::dates::renderable_format(r@),
{
    match i {
        0 => "%d/%m/%Y",
        1 => "%d/%m/%y",
        2 => "%Y-%m-%d",
        3 => "%m/%d/%Y",
        4 => "%m/%d/%y",
        5 => "%Y/%m/%d",
        6 => "%b %d, %Y",
        7 => "%d %b %Y",
        8 => "%B %d, %Y",
        9 => "%d %B %y",
        _ => "%d %B %Y",
    }
}

/// Each offered date format with the sample date written in it, when the
/// sample reads as a date in the detected format; `None` otherwise.
pub fn date_format_examples(sample: &str, detected_format: &str) -> (r: Option<Vec<(String, String)>>)
    ensures
        match chrono_parse_day(sample@, detected_format@) {
            None => r is None,
            Some(d) => r matches Some(v) && v.len() == example_formats().len() && forall|i: int|
                0 <= i < v.len() ==> (#[trigger] v@[i]).0@ == example_formats()[i] && v@[i].1@
                    == chrono_format_day(d, example_formats()[i]),
        },
{
    let day = match parse_day(sample, detected_format) {
        Some(d) => d,
        None => {
            return None;
        },
    };
    let mut out: Vec<(String, String)> = Vec::new();
    let mut i: usize = 0;
    while i < 11
        invariant
            i <= 11,
            example_formats().len() == 11,
            chrono_day_valid(day),
            chrono_parse_day(sample@, detected_format@) == Some(day),
            out.len() == i,
            forall|j: int|
                0 <= j < i ==> (#[trigger] out@[j]).0@ == example_formats()[j] && out@[j].1@
                    == chrono_format_day(day, example_formats()[j]),
        decreases 11 - i,
    {
        let fmt = example_format_at(i);
        out.push((fmt.to_owned(), format_day(day, fmt)));
        i = i + 1;
    }
    Some(out)
}

// ── CSV export ──

/// The balance of the last log of item `id` on day `d`.
pub open spec fn last_value(logs: Seq<BalanceLog>, id: u128, d: i32) -> Option<i64>
    decreases logs.len(),
{
    if logs.len() == 0 {
        None
    } else if logs.last().item_id == id && logs.last().log_date == d {
        Some(logs.last().balance_value)
    } else {
        last_value(logs.drop_last(), id, d)
    }
}

/// Whether some debt item has the id.
pub open spec fn debt_id(items: Seq<WealthItem>, id: u128) -> bool {
    exists|j: int| 0 <= j < items.len() && (#[trigger] items[j]).item_id == id && is_debt(items[j])
}

/// The exported cell of an item on a day: its last balance on that day,
/// negated for a debt, as dollars; empty text when nothing is logged.
pub open spec fn export_cell(items: Seq<WealthItem>, logs: Seq<BalanceLog>, d: i32, id: u128) -> Seq<char> {
    match last_value(logs, id, d) {
        Some(v) => spec_format_cents(
            if debt_id(items, id) {
                -v
            } else {
                v as int
            },
        ),
        None => Seq::empty(),
    }
}

/// Whether the day is valid for every log.
pub open spec fn all_days_valid(logs: Seq<BalanceLog>) -> bool {
    forall|m: int| 0 <= m < logs.len() ==> chrono_day_valid(#[trigger] logs[m].log_date)
}

/// `days` are the logged days, earliest first, each once.
pub open spec fn is_days_asc(logs: Seq<BalanceLog>, days: Seq<i32>) -> bool {
    &&& forall|a: int, b: int| 0 <= a < b < days.len() ==> #[trigger] days[a] < #[trigger] days[b]
    &&& forall|a: int| 0 <= a < days.len() ==> has_day(logs, #[trigger] days[a])
    &&& forall|m: int| 0 <= m < logs.len() ==> listed(days, #[trigger] logs[m].log_date)
}

/// The exported header: `Date` and the item names.
pub open spec fn export_header(items: Seq<WealthItem>) -> Seq<Seq<char>> {
    seq!["Date"@] + Seq::new(items.len(), |j: int| items[j].name@)
}

/// The exported record of a day: the date as `%Y-%m-%d`, then each item's
/// cell.
pub open spec fn export_record(items: Seq<WealthItem>, logs: Seq<BalanceLog>, d: i32) -> Seq<Seq<char>> {
    seq![chrono_format_day(d, "%Y-%m-%d"@)] + Seq::new(
        items.len(),
        |j: int| export_cell(items, logs, d, items[j].item_id),
    )
}

/// `recs` are the exported records: the header, then one record per
/// logged day, earliest first.
pub open spec fn is_export(items: Seq<WealthItem>, logs: Seq<BalanceLog>, recs: Seq<Seq<Seq<char>>>) -> bool {
    exists|days: Seq<i32>|
        is_days_asc(logs, days) && recs == seq![export_header(items)] + Seq::new(
            days.len(),
            |a: int| export_record(items, logs, days[a]),
        )
}

pub(crate) fn last_value_exec(logs: &Vec<BalanceLog>, id: u128, d: i32) -> (r: Option<i64>)
    ensures
        r == last_value(logs@, id, d),
{
    let mut n = logs.len();
    assert(logs@.take(n as int) =~= logs@);
    while n > 0
        invariant
            n <= logs.len(),
            last_value(logs@, id, d) == last_value(logs@.take(n as int), id, d),
        decreases n,
    {
        assert(logs@.take(n as int).drop_last() =~= logs@.take(n - 1));
        if logs[n - 1].item_id == id && logs[n - 1].log_date == d {
            return Some(logs[n - 1].balance_value);
        }
        n = n - 1;
    }
    None
}

fn is_debt_id(items: &Vec<WealthItem>, id: u128) -> (r: bool)
    ensures
        r == debt_id(items@, id),
{
    let debt = chars_of("debt");
    let mut j: usize = 0;
    while j < items.len()
        invariant
            j <= items.len(),
            debt@ == "debt"@,
            forall|t: int| 0 <= t < j ==> !((#[trigger] items@[t]).item_id == id && is_debt(items@[t])),
        decreases items.len() - j,
    {
        if items[j].item_id == id && chars_eq(&chars_of(items[j].item_type.as_str()), &debt) {
            assert(items@[j as int].item_id == id && is_debt(items@[j as int]));
            return true;
        }
        j = j + 1;
    }
    false
}

/// Text vectors as character sequences.
pub open spec fn strs(v: Seq<String>) -> Seq<Seq<char>> {
    Seq::new(v.len(), |i: int| v[i]@)
}

/// Records as sequences of character sequences.
pub open spec fn recs_view(v: Seq<Vec<String>>) -> Seq<Seq<Seq<char>>> {
    Seq::new(v.len(), |i: int| strs(v[i]@))
}

/// The records of a portfolio's CSV export (see `is_export`). Every logged
/// day must be a valid date and no balance the least `i64`.
pub fn export_records(items: &Vec<WealthItem>, logs: &Vec<BalanceLog>) -> (r: Vec<Vec<String>>)
    requires
        all_days_valid(logs@),
        forall|m: int| 0 <= m < logs.len() ==> (#[trigger] logs@[m]).balance_value != i64::MIN,
    ensures
        is_export(items@, logs@, recs_view(r@)),
{
    let mut recs: Vec<Vec<String>> = Vec::new();
    let mut header: Vec<String> = Vec::new();
    header.push("Date".to_owned());
    let mut j: usize = 0;
    while j < items.len()
        invariant
            j <= items.len(),
            strs(header@) == export_header(items@).take(j + 1),
        decreases items.len() - j,
    {
        let ghost before = strs(header@);
        header.push(items[j].name.clone());
        assert(strs(header@) =~= before.push(items@[j as int].name@));
        assert(strs(header@) =~= export_header(items@).take(j + 2));
        j = j + 1;
    }
    assert(export_header(items@).take(items.len() + 1) =~= export_header(items@));
    recs.push(header);
    let desc = logged_days_desc(logs);
    let ghost days = desc@.reverse();
    let mut k: usize = desc.len();
    let ghost whole = Seq::new(days.len(), |a: int| export_record(items@, logs@, days[a]));
    assert(recs_view(recs@) =~= seq![export_header(items@)]);
    while k > 0
        invariant
            k <= desc.len(),
            days == desc@.reverse(),
            whole == Seq::new(days.len(), |a: int| export_record(items@, logs@, days[a])),
            forall|a: int| 0 <= a < desc.len() ==> has_day(logs@, #[trigger] desc@[a]),
            all_days_valid(logs@),
            forall|m: int| 0 <= m < logs.len() ==> (#[trigger] logs@[m]).balance_value != i64::MIN,
            recs_view(recs@) == seq![export_header(items@)] + whole.take(desc.len() - k),
        decreases k,
    {
        let d = desc[k - 1];
        assert(days[desc.len() - k] == d);
        proof {
            assert(has_day(logs@, d));
            let m0 = choose|m: int| 0 <= m < logs.len() && #[trigger] logs@[m].log_date == d;
            assert(chrono_day_valid(logs@[m0].log_date));
        }
        let mut rec: Vec<String> = Vec::new();
        rec.push(format_day(d, "%Y-%m-%d"));
        let mut j: usize = 0;
        while j < items.len()
            invariant
                j <= items.len(),
                forall|m: int| 0 <= m < logs.len() ==> (#[trigger] logs@[m]).balance_value != i64::MIN,
                strs(rec@) == export_record(items@, logs@, d).take(j + 1),
            decreases items.len() - j,
        {
            let id = items[j].item_id;
            let cell = match last_value_exec(logs, id, d) {
                Some(v) => {
                    assert(v != i64::MIN) by {
                        last_value_not_min(logs@, id, d);
                    }
                    if is_debt_id(items, id) {
                        format_cents(-v)
                    } else {
                        format_cents(v)
                    }
                },
                None => String::new(),
            };
            let ghost before = strs(rec@);
            let ghost cv = cell@;
            rec.push(cell);
            assert(strs(rec@) =~= before.push(cv));
            assert(strs(rec@) =~= export_record(items@, logs@, d).take(j + 2));
            j = j + 1;
        }
        assert(export_record(items@, logs@, d).take(items.len() + 1) =~= export_record(
            items@,
            logs@,
            d,
        ));
        let ghost before = recs_view(recs@);
        let ghost rv = strs(rec@);
        recs.push(rec);
        assert(recs_view(recs@) =~= before.push(rv));
        assert(whole.take(desc.len() - k + 1) =~= whole.take(desc.len() - k).push(whole[desc.len() - k]));
        assert(recs_view(recs@) =~= seq![export_header(items@)] + whole.take(desc.len() - k + 1));
        k = k - 1;
    }
    assert(whole.take(desc.len() as int) =~= whole);
    proof {
        assert forall|a: int, b: int| 0 <= a < b < days.len() implies #[trigger] days[a] < #[trigger] days[b] by {
            assert(days[a] == desc@[desc.len() - 1 - a]);
            assert(days[b] == desc@[desc.len() - 1 - b]);
        }
        assert forall|a: int| 0 <= a < days.len() implies has_day(logs@, #[trigger] days[a]) by {
            assert(days[a] == desc@[desc.len() - 1 - a]);
        }
        assert forall|m: int| 0 <= m < logs.len() implies listed(days, #[trigger] logs@[m].log_date) by {
            let dm = logs@[m].log_date;
            assert(listed(desc@, dm));
            let x = choose|x: int| 0 <= x < desc.len() && #[trigger] desc@[x] == dm;
            assert(days[desc.len() - 1 - x] == desc@[x]);
        }
        assert(is_days_asc(logs@, days));
    }
    recs
}

/// No last value is the least `i64` when no balance is.
proof fn last_value_not_min(logs: Seq<BalanceLog>, id: u128, d: i32)
    requires
        forall|m: int| 0 <= m < logs.len() ==> (#[trigger] logs[m]).balance_value != i64::MIN,
    ensures
        last_value(logs, id, d) != Some(i64::MIN),
    decreases logs.len(),
{
    if logs.len() > 0 {
        let q = logs.drop_last();
        assert forall|m: int| 0 <= m < q.len() implies (#[trigger] q[m]).balance_value != i64::MIN by {
            assert(q[m] == logs[m]);
        }
        last_value_not_min(q, id, d);
        assert(logs[logs.len() - 1].balance_value != i64::MIN);
    }
}

/// The bytes that `csv::Writer` writes for the records, each record on a
/// line with its fields quoted where needed.
pub uninterp spec fn csv_write(recs: Seq<Seq<Seq<char>>>) -> Seq<u8>;

/// Whether all records have as many fields as the first.
pub open spec fn same_widths(recs: Seq<Seq<Seq<char>>>) -> bool {
    forall|i: int| 0 <= i < recs.len() ==> (#[trigger] recs[i]).len() == recs[0].len()
}

/// Writes records with `csv::Writer` into memory. The contract names the
/// bytes, and says that records of one width are always written: the
/// writer refuses only records whose number of fields differs from the
/// first record's (`UnequalLengths`) and passes on errors of the
/// underlying writer, and writing into a `Vec<u8>` appends to it. An
/// error of the writer comes back as its text.
#[verifier::external_body]
fn write_csv(recs: &Vec<Vec<String>>) -> (r: Result<Vec<u8>, String>)
    ensures
        r matches Ok(b) ==> b@ == csv_write(recs_view(recs@)),
        same_widths(recs_view(recs@)) ==> r is Ok,
{
    let mut wtr = csv::Writer::from_writer(Vec::new());
    for rec in recs {
        if let Err(e) = wtr.write_record(rec) {
            return Err(e.to_string());
        }
    }
    wtr.into_inner().map_err(|e| e.to_string())
}

/// Whether `chrono` has a date for the day number
/// (`NaiveDate::from_num_days_from_ce_opt`).
#[verifier::external_body]
fn day_valid(day: i32) -> (r: bool)
    ensures
        r == chrono_day_valid(day),
{
    chrono::NaiveDate::from_num_days_from_ce_opt(day).is_some()
}

/// Every record of an export has a field for the date and one per item.
proof fn lemma_export_widths(items: Seq<WealthItem>, logs: Seq<BalanceLog>, recs: Seq<Seq<Seq<char>>>)
    requires
        is_export(items, logs, recs),
    ensures
        same_widths(recs),
        recs.len() > 0 && recs[0].len() == items.len() + 1,
{
    let days = choose|days: Seq<i32>|
        is_days_asc(logs, days) && recs == seq![export_header(items)] + Seq::new(
            days.len(),
            |a: int| export_record(items, logs, days[a]),
        );
    assert forall|i: int| 0 <= i < recs.len() implies (#[trigger] recs[i]).len() == items.len() + 1 by {
        if i > 0 {
            assert(recs[i] == export_record(items, logs, days[i - 1]));
        }
    }
}

/// The CSV export of a portfolio (see `export_records`): the written
/// records when every log's day is a date, else an internal error.
pub fn portfolio_csv(items: &Vec<WealthItem>, logs: &Vec<BalanceLog>) -> (r: Result<Vec<u8>, AppError>)
    requires
        forall|m: int| 0 <= m < logs.len() ==> (#[trigger] logs@[m]).balance_value != i64::MIN,
    ensures
        r is Ok <==> all_days_valid(logs@),
        r matches Ok(b) ==> exists|recs: Seq<Seq<Seq<char>>>|
            is_export(items@, logs@, recs) && b@ == csv_write(recs),
        r matches Err(e) ==> e is Internal,
{
    let mut m: usize = 0;
    while m < logs.len()
        invariant
            m <= logs.len(),
            forall|t: int| 0 <= t < m ==> chrono_day_valid(#[trigger] logs@[t].log_date),
        decreases logs.len() - m,
    {
        if !day_valid(logs[m].log_date) {
            return Err(AppError::Internal("invalid date in balance logs".to_owned()));
        }
        m = m + 1;
    }
    let recs = export_records(items, logs);
    proof {
        lemma_export_widths(items@, logs@, recs_view(recs@));
    }
    match write_csv(&recs) {
        Ok(b) => Ok(b),
        Err(e) => Err(AppError::Internal(e)),
    }
}

} // verus!
