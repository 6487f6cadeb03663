//! Importing balances into a portfolio from a CSV file: the column mapping
//! form, where each mapped column's values go, and the balances that the
//! rows give.

use vstd::prelude::*;
use crate::csv_import::{cell, csv_read, is_bad_request, read_csv, csv_error};
use crate::dates::{chrono_parse_day, parse_day};
use crate::digits::{decimal, push_decimal_wide};
use crate::error::AppError;
use crate::forms::{
    form_pairs, pair_views, parse_usize, parse_uuid, spec_form_pairs, spec_parse_usize,
    spec_urldecode, urldecode, uuid_parse,
};
use crate::money::{abs, parse_dollars, spec_parse_dollars};
use crate::portfolio::{is_debt, WealthItem};
use crate::text::{chars_eq, chars_of, ends_with, has_prefix, has_suffix, starts_with, string_of, sub_vec, trim, trimmed_chars};

verus! {

/// Where the values of a CSV column go.
pub enum ColumnTarget {
    /// Nowhere: the column is left out.
    Skip,
    /// Into the item with this id.
    Existing(String),
    /// Into a new item of this name and type.
    New { name: String, item_type: String },
}

/// A column target with its texts as character sequences.
pub enum TargetView {
    Skip,
    Existing(Seq<char>),
    /// The name and the type.
    New(Seq<char>, Seq<char>),
}

/// The column mapping of a portfolio import.
pub struct PortfolioColumnMapping {
    /// The column of the dates.
    pub date_col: usize,
    /// The `chrono` format of the dates.
    pub date_format: String,
    /// The targets of the columns, each column at most once.
    pub columns: Vec<(usize, ColumnTarget)>,
}

pub open spec fn target_view(t: ColumnTarget) -> TargetView {
    match t {
        ColumnTarget::Skip => TargetView::Skip,
        ColumnTarget::Existing(s) => TargetView::Existing(s@),
        ColumnTarget::New { name, item_type } => TargetView::New(name@, item_type@),
    }
}

pub open spec fn columns_view(v: Seq<(usize, ColumnTarget)>) -> Seq<(usize, TargetView)> {
    Seq::new(v.len(), |i: int| (v[i].0, target_view(v[i].1)))
}

/// No column is listed twice.
pub open spec fn distinct_columns(cols: Seq<(usize, TargetView)>) -> bool {
    forall|i: int, j: int| 0 <= i < j < cols.len() ==> #[trigger] cols[i].0 != #[trigger] cols[j].0
}

// ── The mapping form ──

/// The target that a column's select value names: `skip`, `existing:` and
/// an id, or `new:` and an item type (the name comes from its own field).
pub open spec fn select_target(val: Seq<char>) -> Option<TargetView> {
    if val == "skip"@ {
        Some(TargetView::Skip)
    } else if has_prefix(val, "existing:"@) {
        Some(TargetView::Existing(val.skip(9)))
    } else if has_prefix(val, "new:"@) {
        Some(TargetView::New(Seq::empty(), val.skip(4)))
    } else {
        None
    }
}

/// The targets with column `n` set to `t`: in its place when the column
/// is listed, else added at the end.
pub open spec fn put_target(cols: Seq<(usize, TargetView)>, n: usize, t: TargetView) -> Seq<(usize, TargetView)> {
    if exists|j: int| 0 <= j < cols.len() && #[trigger] cols[j].0 == n {
        Seq::new(cols.len(), |j: int| if cols[j].0 == n { (n, t) } else { cols[j] })
    } else {
        cols.push((n, t))
    }
}

/// The targets with the new item of column `n`, if it is one, named `name`.
pub open spec fn name_target(cols: Seq<(usize, TargetView)>, n: usize, name: Seq<char>) -> Seq<(usize, TargetView)> {
    Seq::new(
        cols.len(),
        |j: int|
            match cols[j].1 {
                TargetView::New(_, ty) => if cols[j].0 == n {
                    (n, TargetView::New(name, ty))
                } else {
                    cols[j]
                },
                _ => cols[j],
            },
    )
}

/// Reading the mapping form from the fields `fs` on, keys and values
/// decoded: the upload reference, the date column (0 when it does not
/// read as a number), the date format (kept when the value is empty) and
/// the column targets, from the `col_N` selects and the `col_N_name`
/// names of new items.
pub open spec fn mapping_scan(
    fs: Seq<(Seq<char>, Seq<char>)>,
    tmp: Seq<char>,
    dc: usize,
    fmt: Seq<char>,
    cols: Seq<(usize, TargetView)>,
) -> (Seq<char>, usize, Seq<char>, Seq<(usize, TargetView)>)
    decreases fs.len(),
{
    if fs.len() == 0 {
        (tmp, dc, fmt, cols)
    } else {
        let key = spec_urldecode(fs[0].0);
        let val = spec_urldecode(fs[0].1);
        let rest = fs.drop_first();
        if key == "tmp_id"@ {
            mapping_scan(rest, val, dc, fmt, cols)
        } else if key == "date_col"@ {
            mapping_scan(
                rest,
                tmp,
                match spec_parse_usize(val) {
                    Some(n) => n,
                    None => 0,
                },
                fmt,
                cols,
            )
        } else if key == "date_format"@ {
            mapping_scan(rest, tmp, dc, if val.len() > 0 { val } else { fmt }, cols)
        } else if has_prefix(key, "col_"@) && !has_suffix(key, "_name"@) {
            match (spec_parse_usize(key.skip(4)), select_target(val)) {
                (Some(n), Some(t)) => mapping_scan(rest, tmp, dc, fmt, put_target(cols, n, t)),
                _ => mapping_scan(rest, tmp, dc, fmt, cols),
            }
        } else if has_prefix(key, "col_"@) && has_suffix(key, "_name"@) {
            match spec_parse_usize(key.subrange(4, key.len() - 5)) {
                Some(n) => if val.len() > 0 {
                    mapping_scan(rest, tmp, dc, fmt, name_target(cols, n, val))
                } else {
                    mapping_scan(rest, tmp, dc, fmt, cols)
                },
                None => mapping_scan(rest, tmp, dc, fmt, cols),
            }
        } else {
            mapping_scan(rest, tmp, dc, fmt, cols)
        }
    }
}

/// The first column, in the order of the targets, set to a new item
/// without a name.
pub open spec fn first_unnamed(cols: Seq<(usize, TargetView)>) -> Option<usize>
    decreases cols.len(),
{
    if cols.len() == 0 {
        None
    } else {
        match cols[0].1 {
            TargetView::New(name, _) => if name.len() == 0 {
                Some(cols[0].0)
            } else {
                first_unnamed(cols.drop_first())
            },
            _ => first_unnamed(cols.drop_first()),
        }
    }
}

/// What the mapping form asks for: the upload reference and the mapping
/// (date column 0 and format `%d/%m/%Y` unless given), or the error for a
/// missing upload reference or a new item without a name (counting
/// columns from 1).
pub open spec fn mapping_request(
    fs: Seq<(Seq<char>, Seq<char>)>,
    r: Result<(String, PortfolioColumnMapping), AppError>,
) -> bool {
    let (tmp, dc, fmt, cols) = mapping_scan(fs, Seq::empty(), 0, "%d/%m/%Y"@, Seq::empty());
    if tmp.len() == 0 {
        r matches Err(e) && is_bad_request(e, "Missing upload reference"@)
    } else {
        match first_unnamed(cols) {
            Some(n) => r matches Err(e) && is_bad_request(
                e,
                "Column "@ + decimal((n + 1) as nat) + " is set to create a new item but has no name"@,
            ),
            None => r matches Ok((t, m)) && t@ == tmp && m.date_col == dc && m.date_format@ == fmt
                && columns_view(m.columns@) == cols,
        }
    }
}

/// Whether some field's decoded key is exactly `col_name`, a key whose
/// `col_` and `_name` overlap.
pub open spec fn has_overlapping_key(fs: Seq<(Seq<char>, Seq<char>)>) -> bool {
    exists|i: int| 0 <= i < fs.len() && spec_urldecode(#[trigger] fs[i].0) == "col_name"@
}

proof fn lemma_put_target_distinct(cols: Seq<(usize, TargetView)>, n: usize, t: TargetView)
    requires
        distinct_columns(cols),
    ensures
        distinct_columns(put_target(cols, n, t)),
        put_target(cols, n, t).len() >= cols.len(),
{
    if exists|j: int| 0 <= j < cols.len() && #[trigger] cols[j].0 == n {
        let p = put_target(cols, n, t);
        assert forall|i: int, j: int| 0 <= i < j < p.len() implies #[trigger] p[i].0 != #[trigger] p[j].0 by {
            assert(cols[i].0 != cols[j].0);
        }
    }
}

/// Sets column `n` to target `t` (see `put_target`).
fn set_target(cols: &mut Vec<(usize, ColumnTarget)>, n: usize, t: ColumnTarget)
    requires
        distinct_columns(columns_view(old(cols)@)),
    ensures
        columns_view(final(cols)@) == put_target(columns_view(old(cols)@), n, target_view(t)),
        distinct_columns(columns_view(final(cols)@)),
{
    let ghost before = columns_view(cols@);
    let ghost tv = target_view(t);
    proof {
        lemma_put_target_distinct(before, n, tv);
    }
    let mut j: usize = 0;
    while j < cols.len()
        invariant
            j <= cols.len(),
            columns_view(cols@) == before,
            before == columns_view(old(cols)@),
            distinct_columns(before),
            tv == target_view(t),
            forall|k: int| 0 <= k < j ==> before[k].0 != n,
        decreases cols.len() - j,
    {
        if cols[j].0 == n {
            cols.set(j, (n, t));
            proof {
                let p = put_target(before, n, tv);
                assert(before[j as int].0 == n);
                assert forall|k: int| 0 <= k < cols.len() implies #[trigger] columns_view(cols@)[k] == p[k] by {
                    if k != j {
                        assert(before[k].0 != before[j as int].0);
                    }
                }
                assert(columns_view(cols@) =~= p);
            }
            return;
        }
        j = j + 1;
    }
    cols.push((n, t));
    proof {
        assert(!exists|k: int| 0 <= k < before.len() && #[trigger] before[k].0 == n);
        assert(columns_view(cols@) =~= before.push((n, tv)));
    }
}

/// Names the new item of column `n`, if it is one (see `name_target`).
fn set_name(cols: &mut Vec<(usize, ColumnTarget)>, n: usize, name: String)
    requires
        distinct_columns(columns_view(old(cols)@)),
    ensures
        columns_view(final(cols)@) == name_target(columns_view(old(cols)@), n, name@),
        distinct_columns(columns_view(final(cols)@)),
{
    let ghost before = columns_view(cols@);
    let ghost nm = name@;
    let mut j: usize = 0;
    while j < cols.len()
        invariant
            j <= cols.len(),
            columns_view(cols@) == before,
            before == columns_view(old(cols)@),
            distinct_columns(before),
            nm == name@,
            forall|k: int| 0 <= k < j ==> before[k].0 != n,
        decreases cols.len() - j,
    {
        if cols[j].0 == n {
            let ty = match &cols[j].1 {
                ColumnTarget::New { item_type, .. } => Some(item_type.clone()),
                _ => None,
            };
            let ghost goal = name_target(before, n, nm);
            match ty {
                Some(ty) => {
                    cols.set(j, (n, ColumnTarget::New { name, item_type: ty }));
                    proof {
                        assert forall|k: int| 0 <= k < cols.len() implies #[trigger] columns_view(cols@)[k] == goal[k] by {
                            if k != j {
                                assert(before[k].0 != before[j as int].0);
                            }
                        }
                        assert(columns_view(cols@) =~= goal);
                        assert forall|a: int, b: int| 0 <= a < b < cols.len() implies #[trigger] columns_view(cols@)[a].0 != #[trigger] columns_view(cols@)[b].0 by {
                            assert(before[a].0 != before[b].0);
                        }
                    }
                },
                None => {
                    proof {
                        assert forall|k: int| 0 <= k < cols.len() implies #[trigger] columns_view(cols@)[k] == goal[k] by {
                            if k != j {
                                assert(before[k].0 != before[j as int].0);
                            }
                        }
                        assert(columns_view(cols@) =~= goal);
                    }
                },
            }
            return;
        }
        j = j + 1;
    }
    assert(columns_view(cols@) =~= name_target(before, n, nm));
}

/// The target that a select value names (see `select_target`).
fn select_target_exec(val: &Vec<char>) -> (r: Option<ColumnTarget>)
    ensures
        match r {
            Some(t) => select_target(val@) == Some(target_view(t)),
            None => select_target(val@) is None,
        },
{
    proof {
        reveal_strlit("existing:");
        reveal_strlit("new:");
    }
    if chars_eq(val, &chars_of("skip")) {
        Some(ColumnTarget::Skip)
    } else if starts_with(val, &chars_of("existing:")) {
        let rest = sub_vec(val, 9, val.len());
        assert(val@.subrange(9, val.len() as int) =~= val@.skip(9));
        Some(ColumnTarget::Existing(string_of(&rest)))
    } else if starts_with(val, &chars_of("new:")) {
        let rest = sub_vec(val, 4, val.len());
        assert(val@.subrange(4, val.len() as int) =~= val@.skip(4));
        Some(ColumnTarget::New { name: String::new(), item_type: string_of(&rest) })
    } else {
        None
    }
}

/// The first column set to a new item without a name (see
/// `first_unnamed`).
fn first_unnamed_exec(cols: &Vec<(usize, ColumnTarget)>) -> (r: Option<usize>)
    ensures
        r == first_unnamed(columns_view(cols@)),
{
    let ghost cv = columns_view(cols@);
    let mut i: usize = 0;
    assert(cv.subrange(0, cv.len() as int) =~= cv);
    while i < cols.len()
        invariant
            i <= cols.len(),
            cv == columns_view(cols@),
            first_unnamed(cv) == first_unnamed(cv.subrange(i as int, cv.len() as int)),
        decreases cols.len() - i,
    {
        let ghost rest = cv.subrange(i as int, cv.len() as int);
        assert(rest[0] == cv[i as int]);
        assert(rest.drop_first() =~= cv.subrange(i + 1, cv.len() as int));
        match &cols[i].1 {
            ColumnTarget::New { name, .. } => {
                if chars_of(name.as_str()).len() == 0 {
                    return Some(cols[i].0);
                }
            },
            _ => {},
        }
        i = i + 1;
    }
    None
}

/// The error for a new item without a name in column `n` (counted from 0).
fn unnamed_error(n: usize) -> (e: AppError)
    ensures
        is_bad_request(
            e,
            "Column "@ + decimal((n + 1) as nat) + " is set to create a new item but has no name"@,
        ),
{
    let mut out = chars_of("Column ");
    push_decimal_wide(n as u128 + 1, &mut out);
    let tail = chars_of(" is set to create a new item but has no name");
    let ghost before = out@;
    let mut i: usize = 0;
    while i < tail.len()
        invariant
            i <= tail.len(),
            out@ == before + tail@.take(i as int),
        decreases tail.len() - i,
    {
        out.push(tail[i]);
        assert(out@ =~= before + tail@.take(i + 1));
        i = i + 1;
    }
    assert(tail@.take(tail.len() as int) =~= tail@);
    AppError::BadRequest(string_of(&out))
}

/// Reads the body of the column mapping form (see `mapping_request`). No
/// field may have the key `col_name`.
pub fn parse_mapping_form(body: &str) -> (r: Result<(String, PortfolioColumnMapping), AppError>)
    requires
        !has_overlapping_key(spec_form_pairs(body@)),
    ensures
        mapping_request(spec_form_pairs(body@), r),
        r matches Ok((_, m)) ==> distinct_columns(columns_view(m.columns@)),
{
    let pairs = form_pairs(body);
    let ghost fs = spec_form_pairs(body@);
    let mut tmp = String::new();
    let mut date_col: usize = 0;
    let mut date_format = "%d/%m/%Y".to_owned();
    let mut cols: Vec<(usize, ColumnTarget)> = Vec::new();
    let k_tmp = chars_of("tmp_id");
    let k_date = chars_of("date_col");
    let k_format = chars_of("date_format");
    let p_col = chars_of("col_");
    let s_name = chars_of("_name");
    let mut i: usize = 0;
    assert(fs.subrange(0, fs.len() as int) =~= fs);
    assert(columns_view(cols@) =~= Seq::<(usize, TargetView)>::empty());
    while i < pairs.len()
        invariant
            i <= pairs.len(),
            pair_views(pairs@) == fs,
            !has_overlapping_key(fs),
            k_tmp@ == "tmp_id"@,
            k_date@ == "date_col"@,
            k_format@ == "date_format"@,
            p_col@ == "col_"@,
            s_name@ == "_name"@,
            distinct_columns(columns_view(cols@)),
            mapping_scan(fs, Seq::empty(), 0, "%d/%m/%Y"@, Seq::empty()) == mapping_scan(
                fs.subrange(i as int, fs.len() as int),
                tmp@,
                date_col,
                date_format@,
                columns_view(cols@),
            ),
        decreases pairs.len() - i,
    {
        let ghost rest = fs.subrange(i as int, fs.len() as int);
        assert(rest[0] == fs[i as int]);
        assert(rest.drop_first() =~= fs.subrange(i + 1, fs.len() as int));
        let key_s = urldecode(pairs[i].0.as_str());
        let val = urldecode(pairs[i].1.as_str());
        let key = chars_of(key_s.as_str());
        let val_chars = chars_of(val.as_str());
        if chars_eq(&key, &k_tmp) {
            tmp = val;
        } else if chars_eq(&key, &k_date) {
            date_col = match parse_usize(val.as_str()) {
                Some(n) => n,
                None => 0,
            };
        } else if chars_eq(&key, &k_format) {
            if val_chars.len() > 0 {
                date_format = val;
            }
        } else if starts_with(&key, &p_col) && !ends_with(&key, &s_name) {
            proof {
                reveal_strlit("col_");
            }
            let idx_text = sub_vec(&key, 4, key.len());
            assert(key@.subrange(4, key.len() as int) =~= key@.skip(4));
            match (parse_usize(string_of(&idx_text).as_str()), select_target_exec(&val_chars)) {
                (Some(n), Some(t)) => {
                    set_target(&mut cols, n, t);
                },
                _ => {},
            }
        } else if starts_with(&key, &p_col) && ends_with(&key, &s_name) {
            assert(key.len() >= 9) by {
                reveal_strlit("col_");
                reveal_strlit("_name");
                reveal_strlit("col_name");
                assert(key@.take(4) == "col_"@);
                assert(key@.skip(key.len() - 5) == "_name"@);
                if key.len() < 9 {
                    let s = key.len() - 5;
                    assert(key@.skip(s)[0] == key@[s]);
                    assert(key@[s] == '_');
                    assert(key@.take(4)[s] == key@[s]);
                    if key.len() == 8 {
                        assert(key@.take(4)[0] == key@[0]);
                        assert(key@.take(4)[1] == key@[1]);
                        assert(key@.take(4)[2] == key@[2]);
                        assert(key@.skip(3)[1] == key@[4]);
                        assert(key@.skip(3)[2] == key@[5]);
                        assert(key@.skip(3)[3] == key@[6]);
                        assert(key@.skip(3)[4] == key@[7]);
                        assert(key@ =~= "col_name"@);
                        assert(spec_urldecode(fs[i as int].0) == "col_name"@);
                    }
                }
            }
            let idx_text = sub_vec(&key, 4, key.len() - 5);
            match parse_usize(string_of(&idx_text).as_str()) {
                Some(n) => {
                    if val_chars.len() > 0 {
                        set_name(&mut cols, n, val);
                    }
                },
                None => {},
            }
        }
        i = i + 1;
    }
    if chars_of(tmp.as_str()).len() == 0 {
        return Err(AppError::BadRequest("Missing upload reference".to_owned()));
    }
    match first_unnamed_exec(&cols) {
        Some(n) => Err(unnamed_error(n)),
        None => Ok((tmp, PortfolioColumnMapping { date_col, date_format, columns: cols })),
    }
}

// ── Where a column's values go ──

/// What becomes of a column target: left out, into an item (by id, with
/// whether it is a debt), or into a new item to be created first.
pub enum TargetPlan {
    Skip,
    Item(u128, bool),
    Create { name: String, item_type: String, debt: bool },
}

/// The first item of `items` with the id.
pub open spec fn item_by_id(items: Seq<WealthItem>, id: u128) -> Option<WealthItem>
    decreases items.len(),
{
    if items.len() == 0 {
        None
    } else if items[0].item_id == id {
        Some(items[0])
    } else {
        item_by_id(items.drop_first(), id)
    }
}

/// The first item of `items` with the name.
pub open spec fn item_by_name(items: Seq<WealthItem>, name: Seq<char>) -> Option<WealthItem>
    decreases items.len(),
{
    if items.len() == 0 {
        None
    } else if items[0].name@ == name {
        Some(items[0])
    } else {
        item_by_name(items.drop_first(), name)
    }
}

/// The plan for a target given the portfolio's items: an existing item's
/// id must read as a UUID of one of them, else the column is left out; a
/// new item whose name an item has already goes into that item, else it
/// is created.
pub open spec fn spec_target_plan(items: Seq<WealthItem>, t: TargetView) -> Option<(u128, bool)> {
    match t {
        TargetView::Skip => None,
        TargetView::Existing(id) => match uuid_parse(id) {
            Some(u) => match item_by_id(items, u) {
                Some(it) => Some((it.item_id, is_debt(it))),
                None => None,
            },
            None => None,
        },
        TargetView::New(name, _) => match item_by_name(items, name) {
            Some(it) => Some((it.item_id, is_debt(it))),
            None => None,
        },
    }
}

fn find_by_id(items: &Vec<WealthItem>, id: u128) -> (r: Option<(u128, bool)>)
    ensures
        r == match item_by_id(items@, id) {
            Some(it) => Some((it.item_id, is_debt(it))),
            None => None,
        },
{
    let mut i: usize = 0;
    assert(items@.subrange(0, items.len() as int) =~= items@);
    while i < items.len()
        invariant
            i <= items.len(),
            item_by_id(items@, id) == item_by_id(items@.subrange(i as int, items.len() as int), id),
        decreases items.len() - i,
    {
        let ghost rest = items@.subrange(i as int, items.len() as int);
        assert(rest[0] == items@[i as int]);
        assert(rest.drop_first() =~= items@.subrange(i + 1, items.len() as int));
        if items[i].item_id == id {
            let debt = chars_eq(&chars_of(items[i].item_type.as_str()), &chars_of("debt"));
            return Some((items[i].item_id, debt));
        }
        i = i + 1;
    }
    None
}

fn find_by_name(items: &Vec<WealthItem>, name: &String) -> (r: Option<(u128, bool)>)
    ensures
        r == match item_by_name(items@, name@) {
            Some(it) => Some((it.item_id, is_debt(it))),
            None => None,
        },
{
    let wanted = chars_of(name.as_str());
    let mut i: usize = 0;
    assert(items@.subrange(0, items.len() as int) =~= items@);
    while i < items.len()
        invariant
            i <= items.len(),
            wanted@ == name@,
            item_by_name(items@, name@) == item_by_name(items@.subrange(i as int, items.len() as int), name@),
        decreases items.len() - i,
    {
        let ghost rest = items@.subrange(i as int, items.len() as int);
        assert(rest[0] == items@[i as int]);
        assert(rest.drop_first() =~= items@.subrange(i + 1, items.len() as int));
        if chars_eq(&chars_of(items[i].name.as_str()), &wanted) {
            let debt = chars_eq(&chars_of(items[i].item_type.as_str()), &chars_of("debt"));
            return Some((items[i].item_id, debt));
        }
        i = i + 1;
    }
    None
}

/// What becomes of a column target given the portfolio's items (see
/// `spec_target_plan`); a new item that is to be created is a debt when
/// its type is `debt`. Calling it for each target in turn, with the items
/// created so far added to `items`, makes two new items of one name one
/// item.
pub fn resolve_target(items: &Vec<WealthItem>, target: &ColumnTarget) -> (r: TargetPlan)
    ensures
        match spec_target_plan(items@, target_view(*target)) {
            Some((id, debt)) => r == TargetPlan::Item(id, debt),
            None => match *target {
                ColumnTarget::New { name, item_type } => r matches TargetPlan::Create {
                    name: n,
                    item_type: t,
                    debt: d,
                } && n@ == name@ && t@ == item_type@ && d == (item_type@ == "debt"@),
                _ => r is Skip,
            },
        },
{
    match target {
        ColumnTarget::Skip => TargetPlan::Skip,
        ColumnTarget::Existing(id) => match parse_uuid(id.as_str()) {
            Some(u) => match find_by_id(items, u) {
                Some((i, d)) => TargetPlan::Item(i, d),
                None => TargetPlan::Skip,
            },
            None => TargetPlan::Skip,
        },
        ColumnTarget::New { name, item_type } => match find_by_name(items, name) {
            Some((i, d)) => TargetPlan::Item(i, d),
            None => {
                let debt = chars_eq(&chars_of(item_type.as_str()), &chars_of("debt"));
                TargetPlan::Create { name: name.clone(), item_type: item_type.clone(), debt }
            },
        },
    }
}

// ── The balances the rows give ──

/// The balances that a record gives on day `day` for the targets `(column,
/// item, debt)`, in target order: each non-empty trimmed cell that reads
/// as an amount, as a positive amount for a debt.
pub open spec fn row_entries(rec: Seq<Seq<char>>, day: i32, targets: Seq<(usize, u128, bool)>) -> Seq<
    (u128, i32, int),
>
    decreases targets.len(),
{
    if targets.len() == 0 {
        Seq::empty()
    } else {
        let rest = row_entries(rec, day, targets.drop_last());
        let (c, id, debt) = targets.last();
        let v = trim(cell(rec, c as int));
        if v.len() == 0 {
            rest
        } else {
            match spec_parse_dollars(v) {
                Ok(x) => rest.push((id, day, if debt { abs(x) as int } else { x })),
                Err(_) => rest,
            }
        }
    }
}

/// The balances that the records give, with the number of records whose
/// trimmed date cell reads as a date in the format (imported) and of
/// those whose does not (skipped).
pub open spec fn spec_import_entries(
    recs: Seq<Seq<Seq<char>>>,
    date_col: usize,
    fmt: Seq<char>,
    targets: Seq<(usize, u128, bool)>,
) -> (Seq<(u128, i32, int)>, nat, nat)
    decreases recs.len(),
{
    if recs.len() == 0 {
        (Seq::empty(), 0, 0)
    } else {
        let (es, imported, skipped) = spec_import_entries(recs.drop_last(), date_col, fmt, targets);
        match chrono_parse_day(trim(cell(recs.last(), date_col as int)), fmt) {
            Some(d) => (es + row_entries(recs.last(), d, targets), imported + 1, skipped),
            None => (es, imported, skipped + 1),
        }
    }
}

/// Every record of an import is counted once: as imported or as skipped.
pub proof fn lemma_import_counts(
    recs: Seq<Seq<Seq<char>>>,
    date_col: usize,
    fmt: Seq<char>,
    targets: Seq<(usize, u128, bool)>,
)
    ensures
        spec_import_entries(recs, date_col, fmt, targets).1 + spec_import_entries(
            recs,
            date_col,
            fmt,
            targets,
        ).2 == recs.len(),
    decreases recs.len(),
{
    if recs.len() > 0 {
        lemma_import_counts(recs.drop_last(), date_col, fmt, targets);
    }
}

/// Each balance a record gives comes from a target of its item, and is at
/// least 0 when that target is a debt.
proof fn lemma_row_entry_source(rec: Seq<Seq<char>>, day: i32, targets: Seq<(usize, u128, bool)>, k: int)
    requires
        0 <= k < row_entries(rec, day, targets).len(),
    ensures
        exists|t: int|
            0 <= t < targets.len() && #[trigger] targets[t].1 == row_entries(rec, day, targets)[k].0
                && (targets[t].2 ==> row_entries(rec, day, targets)[k].2 >= 0),
    decreases targets.len(),
{
    let rest = row_entries(rec, day, targets.drop_last());
    if k < rest.len() {
        lemma_row_entry_source(rec, day, targets.drop_last(), k);
        let t = choose|t: int|
            0 <= t < targets.drop_last().len() && #[trigger] targets.drop_last()[t].1 == rest[k].0
                && (targets.drop_last()[t].2 ==> rest[k].2 >= 0);
        assert(targets[t] == targets.drop_last()[t]);
        assert(row_entries(rec, day, targets)[k] == rest[k]);
    } else {
        let t = targets.len() - 1;
        assert(targets[t] == targets.last());
    }
}

/// A balance imported into a debt is never negative: an entry whose item
/// only debt targets name holds at least 0.
pub proof fn lemma_import_debts_nonnegative(
    recs: Seq<Seq<Seq<char>>>,
    date_col: usize,
    fmt: Seq<char>,
    targets: Seq<(usize, u128, bool)>,
    k: int,
)
    requires
        0 <= k < spec_import_entries(recs, date_col, fmt, targets).0.len(),
        forall|t: int|
            0 <= t < targets.len() && #[trigger] targets[t].1 == spec_import_entries(
                recs,
                date_col,
                fmt,
                targets,
            ).0[k].0 ==> targets[t].2,
    ensures
        spec_import_entries(recs, date_col, fmt, targets).0[k].2 >= 0,
    decreases recs.len(),
{
    let es = spec_import_entries(recs, date_col, fmt, targets).0;
    let prev = spec_import_entries(recs.drop_last(), date_col, fmt, targets).0;
    if k < prev.len() {
        assert(es[k] == prev[k]);
        lemma_import_debts_nonnegative(recs.drop_last(), date_col, fmt, targets, k);
    } else {
        match chrono_parse_day(trim(cell(recs.last(), date_col as int)), fmt) {
            Some(d) => {
                let row = row_entries(recs.last(), d, targets);
                assert(es == prev + row);
                assert(es[k] == row[k - prev.len()]);
                lemma_row_entry_source(recs.last(), d, targets, k - prev.len());
            },
            None => {},
        }
    }
}

/// Balances as `(item, day, cents)`.
pub open spec fn entry_views(v: Seq<(u128, i32, i64)>) -> Seq<(u128, i32, int)> {
    Seq::new(v.len(), |i: int| (v[i].0, v[i].1, v[i].2 as int))
}

fn trimmed_cell(rec: &Vec<String>, c: usize) -> (r: Vec<char>)
    ensures
        r@ == trim(cell(rec.deep_view(), c as int)),
{
    if c < rec.len() {
        trimmed_chars(rec[c].as_str())
    } else {
        assert(trim(Seq::<char>::empty()) =~= Seq::<char>::empty());
        Vec::new()
    }
}

fn push_row_entries(
    rec: &Vec<String>,
    day: i32,
    targets: &Vec<(usize, u128, bool)>,
    out: &mut Vec<(u128, i32, i64)>,
)
    ensures
        entry_views(final(out)@) == entry_views(old(out)@) + row_entries(rec.deep_view(), day, targets@),
{
    let ghost base = entry_views(out@);
    let mut k: usize = 0;
    assert(row_entries(rec.deep_view(), day, targets@.take(0)) =~= Seq::<(u128, i32, int)>::empty());
    assert(entry_views(out@) =~= base + Seq::<(u128, i32, int)>::empty());
    while k < targets.len()
        invariant
            k <= targets.len(),
            entry_views(out@) == base + row_entries(rec.deep_view(), day, targets@.take(k as int)),
        decreases targets.len() - k,
    {
        assert(targets@.take(k + 1).drop_last() =~= targets@.take(k as int));
        assert(targets@.take(k + 1).last() == targets@[k as int]);
        let (c, id, debt) = targets[k];
        let v = trimmed_cell(rec, c);
        if v.len() > 0 {
            match parse_dollars(string_of(&v).as_str()) {
                Ok(x) => {
                    let value: i64 = if debt && x < 0 {
                        -x
                    } else {
                        x
                    };
                    let ghost before = out@;
                    out.push((id, day, value));
                    assert(entry_views(out@) =~= entry_views(before).push((id, day, value as int)));
                },
                Err(_) => {},
            }
        }
        k = k + 1;
    }
    assert(targets@.take(targets.len() as int) =~= targets@);
}

/// The balances that the records give for the targets `(column, item,
/// debt)`, with the numbers of imported and skipped records (see
/// `spec_import_entries`).
#[verifier::rlimit(40)]
#[verifier::spinoff_prover]
pub fn import_entries(
    records: &Vec<Vec<String>>,
    date_col: usize,
    date_format: &str,
    targets: &Vec<(usize, u128, bool)>,
) -> (r: (Vec<(u128, i32, i64)>, usize, usize))
    ensures
        (entry_views(r.0@), r.1 as nat, r.2 as nat) == spec_import_entries(
            records.deep_view(),
            date_col,
            date_format@,
            targets@,
        ),
{
    let ghost recs = records.deep_view();
    let mut out: Vec<(u128, i32, i64)> = Vec::new();
    let mut imported: usize = 0;
    let mut skipped: usize = 0;
    let mut i: usize = 0;
    assert(entry_views(out@) =~= Seq::<(u128, i32, int)>::empty());
    while i < records.len()
        invariant
            i <= records.len(),
            recs == records.deep_view(),
            imported + skipped == i,
            (entry_views(out@), imported as nat, skipped as nat) == spec_import_entries(
                recs.take(i as int),
                date_col,
                date_format@,
                targets@,
            ),
        decreases records.len() - i,
    {
        assert(recs.take(i + 1).drop_last() =~= recs.take(i as int));
        assert(recs.take(i + 1).last() == recs[i as int]);
        let rec = &records[i];
        assert(rec.deep_view() == recs[i as int]);
        let ds = trimmed_cell(rec, date_col);
        match parse_day(string_of(&ds).as_str(), date_format) {
            Some(day) => {
                push_row_entries(rec, day, targets, &mut out);
                imported = imported + 1;
            },
            None => {
                skipped = skipped + 1;
            },
        }
        i = i + 1;
    }
    assert(recs.take(records.len() as int) =~= recs);
    (out, imported, skipped)
}

/// The data records of an uploaded CSV file, the header row left out: the
/// reader's error as a bad request, and a file without data records is
/// empty.
pub fn import_records(raw: &str) -> (r: Result<Vec<Vec<String>>, AppError>)
    ensures
        match csv_read(raw@) {
            Err(msg) => r matches Err(e) && is_bad_request(e, "CSV parse error: "@ + msg),
            Ok((_, recs)) => if recs.len() == 0 {
                r matches Err(e) && is_bad_request(e, "CSV file is empty"@)
            } else {
                r matches Ok(v) && v.deep_view() == recs
            },
        },
{
    match read_csv(raw) {
        Err(msg) => Err(csv_error(&msg)),
        Ok((_, recs)) => if recs.len() == 0 {
            Err(AppError::BadRequest("CSV file is empty".to_owned()))
        } else {
            Ok(recs)
        },
    }
}


// ── Suggested targets ──

/// The code of a character in ASCII lower case
/// (`char::to_ascii_lowercase`).
pub open spec fn ascii_lower(c: char) -> int {
    if 'A' <= c && c <= 'Z' {
        (c as u32) + 32
    } else {
        c as u32 as int
    }
}

/// Whether two texts are equal ignoring ASCII case
/// (`str::eq_ignore_ascii_case`).
pub open spec fn eq_ignore_ascii_case(a: Seq<char>, b: Seq<char>) -> bool {
    a.len() == b.len() && forall|i: int| 0 <= i < a.len() ==> ascii_lower(#[trigger] a[i]) == ascii_lower(b[i])
}

/// The first item whose name is the column header, ignoring ASCII case.
pub open spec fn item_for_header_spec(items: Seq<WealthItem>, header: Seq<char>) -> Option<u128>
    decreases items.len(),
{
    if items.len() == 0 {
        None
    } else if eq_ignore_ascii_case(items[0].name@, header) {
        Some(items[0].item_id)
    } else {
        item_for_header_spec(items.drop_first(), header)
    }
}

fn ascii_lower_exec(c: char) -> (r: u32)
    ensures
        r == ascii_lower(c),
{
    if 'A' <= c && c <= 'Z' {
        (c as u32) + 32
    } else {
        c as u32
    }
}

fn eq_ignore_ascii_case_exec(a: &Vec<char>, b: &Vec<char>) -> (r: bool)
    ensures
        r == eq_ignore_ascii_case(a@, b@),
{
    if a.len() != b.len() {
        return false;
    }
    let mut i: usize = 0;
    while i < a.len()
        invariant
            i <= a.len() == b.len(),
            forall|k: int| 0 <= k < i ==> ascii_lower(#[trigger] a@[k]) == ascii_lower(b@[k]),
        decreases a.len() - i,
    {
        if ascii_lower_exec(a[i]) != ascii_lower_exec(b[i]) {
            return false;
        }
        i = i + 1;
    }
    true
}

/// The item a CSV column is mapped to at first: the first item whose name
/// is the column's header, ignoring ASCII case.
pub fn item_for_header(items: &Vec<WealthItem>, header: &str) -> (r: Option<u128>)
    ensures
        r == item_for_header_spec(items@, header@),
{
    let h = chars_of(header);
    let mut i: usize = 0;
    assert(items@.subrange(0, items.len() as int) =~= items@);
    while i < items.len()
        invariant
            i <= items.len(),
            h@ == header@,
            item_for_header_spec(items@, header@) == item_for_header_spec(
                items@.subrange(i as int, items.len() as int),
                header@,
            ),
        decreases items.len() - i,
    {
        let ghost rest = items@.subrange(i as int, items.len() as int);
        assert(rest[0] == items@[i as int]);
        assert(rest.drop_first() =~= items@.subrange(i + 1, items.len() as int));
        if eq_ignore_ascii_case_exec(&chars_of(items[i].name.as_str()), &h) {
            return Some(items[i].item_id);
        }
        i = i + 1;
    }
    None
}

} // verus!
