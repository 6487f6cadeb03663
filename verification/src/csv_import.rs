//! Importing bank statements from CSV: guessing which columns hold the
//! date, the amount and the vendor, and reading the rows with a chosen
//! mapping.

use vstd::prelude::*;
use crate::dates::{chrono_parse_day, parse_day};
use crate::error::AppError;
use crate::money::{
    abs, float_lit, is_float_literal, lemma_literal_survives_strip, parse_dollars,
    spec_parse_dollars, strip_dollar_noise,
};
use crate::order::{is_stable_order, stable_order};
use crate::text::{chars_of, contains_chars, contains_seq, std_lowercase, string_of, to_lowercase, trim, trimmed_chars};

verus! {

/// Which columns of a CSV file hold what, and how its dates are written.
#[derive(Clone, Debug)]
pub struct ColumnMapping {
    /// Column of the date.
    pub date_col: usize,
    /// Column of the amount.
    pub amount_col: usize,
    /// Column of the vendor or description, if any.
    pub vendor_col: Option<usize>,
    /// The `chrono` format of the dates, such as `%Y-%m-%d`.
    pub date_format: String,
}

/// What was found in a CSV file.
#[derive(Clone, Debug)]
pub struct CsvAnalysis {
    /// The header row, each field trimmed.
    pub headers: Vec<String>,
    /// The first few data rows.
    pub preview_rows: Vec<Vec<String>>,
    /// The guessed column mapping.
    pub detected: ColumnMapping,
    /// The number of data rows, the header row not counted.
    pub total_rows: usize,
}

// ── Dates and amounts in cells ──

/// The date formats tried on a cell, in order.
pub open spec fn date_formats() -> Seq<Seq<char>> {
    seq![
        "%Y-%m-%d"@,
        "%m/%d/%Y"@,
        "%d/%m/%Y"@,
        "%m/%d/%y"@,
        "%d/%m/%y"@,
        "%Y/%m/%d"@,
        "%b %d, %Y"@,
        "%d %b %Y"@,
        "%d %b %y"@,
        "%B %d, %Y"@,
        "%d %B %Y"@,
        "%m-%d-%Y"@,
        "%d-%m-%Y"@,
    ]
}

/// The first format, from the `i`-th on, in which `chrono` reads a date
/// from `v`.
pub open spec fn first_format_from(v: Seq<char>, i: int) -> Option<Seq<char>>
    decreases date_formats().len() - i,
{
    if i < 0 || i >= date_formats().len() {
        None
    } else if chrono_parse_day(v, date_formats()[i]) is Some {
        Some(date_formats()[i])
    } else {
        first_format_from(v, i + 1)
    }
}

/// The first format in which the trimmed cell reads as a date.
pub open spec fn spec_try_parse_date(val: Seq<char>) -> Option<Seq<char>> {
    first_format_from(trim(val), 0)
}

/// The characters ignored when judging whether a cell holds an amount.
pub open spec fn amount_noise(c: char) -> bool {
    c == ',' || c == '$' || (c as u32) == 0x20ac || (c as u32) == 0xa3
}

/// `s` without the characters of `amount_noise`.
pub open spec fn strip_amount_noise(s: Seq<char>) -> Seq<char>
    decreases s.len(),
{
    if s.len() == 0 {
        s
    } else {
        let rest = strip_amount_noise(s.drop_last());
        if amount_noise(s.last()) {
            rest
        } else {
            rest.push(s.last())
        }
    }
}

/// A cell holds an amount when, trimmed, it is not empty and what is left
/// once commas and currency signs are dropped is a number to `f64::from_str`.
pub open spec fn spec_looks_like_amount(val: Seq<char>) -> bool {
    let t = trim(val);
    t.len() > 0 && float_lit(strip_amount_noise(t)) is Some
}

/// Dropping commas and currency signs first changes nothing of what
/// `parse_dollars` keeps of a text.
proof fn lemma_strip_amount_then_dollar(t: Seq<char>)
    ensures
        strip_dollar_noise(strip_amount_noise(t)) == strip_dollar_noise(t),
    decreases t.len(),
{
    if t.len() > 0 {
        let p = t.drop_last();
        let l = t.last();
        lemma_strip_amount_then_dollar(p);
        let r = strip_amount_noise(p);
        if !amount_noise(l) {
            assert(r.push(l).drop_last() =~= r);
            assert(r.push(l).last() == l);
        }
    }
}

/// Every cell that counts as an amount is read by `parse_dollars`.
pub proof fn lemma_amount_cells_parse(s: Seq<char>)
    requires
        spec_looks_like_amount(s),
    ensures
        spec_parse_dollars(s) is Ok,
{
    let t = trim(s);
    lemma_strip_amount_then_dollar(t);
    lemma_literal_survives_strip(strip_amount_noise(t));
}

/// The `i`-th date format.
fn date_format_at(i: usize) -> (r: &'static str)
    requires
        i < date_formats().len(),
    ensures
        r@ == date_formats()[i as int],
{
    match i {
        0 => "%Y-%m-%d",
        1 => "%m/%d/%Y",
        2 => "%d/%m/%Y",
        3 => "%m/%d/%y",
        4 => "%d/%m/%y",
        5 => "%Y/%m/%d",
        6 => "%b %d, %Y",
        7 => "%d %b %Y",
        8 => "%d %b %y",
        9 => "%B %d, %Y",
        10 => "%d %B %Y",
        11 => "%m-%d-%Y",
        _ => "%d-%m-%Y",
    }
}

/// The first of the known date formats in which the trimmed cell reads as
/// a date.
pub fn try_parse_date(val: &str) -> (r: Option<String>)
    ensures
        match r {
            Some(f) => spec_try_parse_date(val@) == Some(f@),
            None => spec_try_parse_date(val@) is None,
        },
{
    let t = string_of(&trimmed_chars(val));
    let mut i: usize = 0;
    while i < 13
        invariant
            i <= 13,
            date_formats().len() == 13,
            t@ == trim(val@),
            first_format_from(t@, 0) == first_format_from(t@, i as int),
        decreases 13 - i,
    {
        let fmt = date_format_at(i);
        if parse_day(t.as_str(), fmt).is_some() {
            return Some(fmt.to_owned());
        }
        i = i + 1;
    }
    None
}

/// Whether the cell holds an amount: trimmed, it is not empty, and once
/// commas, `$`, `€` and `£` are dropped, `f64::from_str` accepts it.
pub fn looks_like_amount(val: &str) -> (r: bool)
    ensures
        r == spec_looks_like_amount(val@),
{
    let t = trimmed_chars(val);
    if t.len() == 0 {
        return false;
    }
    let mut cleaned: Vec<char> = Vec::new();
    let mut i: usize = 0;
    while i < t.len()
        invariant
            i <= t.len(),
            cleaned@ == strip_amount_noise(t@.take(i as int)),
        decreases t.len() - i,
    {
        assert(t@.take(i + 1).drop_last() =~= t@.take(i as int));
        let c = t[i];
        if !(c == ',' || c == '$' || (c as u32) == 0x20ac || (c as u32) == 0xa3) {
            cleaned.push(c);
        }
        i = i + 1;
    }
    assert(t@.take(t.len() as int) =~= t@);
    is_float_literal(&cleaned)
}

// ── Header words ──

/// Header words that mark a date column.
pub open spec fn date_words() -> Seq<Seq<char>> {
    seq!["date"@, "posting date"@, "transaction date"@, "trans date"@, "date posted"@]
}

/// Header words that mark an amount column.
pub open spec fn amount_words() -> Seq<Seq<char>> {
    seq![
        "amount"@,
        "amount"@,
        "debit"@,
        "credit"@,
        "withdrawal"@,
        "deposit"@,
        "transaction amount"@,
        "value"@,
    ]
}

/// Header words that mark a vendor column.
pub open spec fn vendor_words() -> Seq<Seq<char>> {
    seq![
        "description"@,
        "vendor"@,
        "merchant"@,
        "payee"@,
        "memo"@,
        "transaction description"@,
        "details"@,
        "reference"@,
    ]
}

/// The texts held by a list of character vectors.
pub open spec fn texts(v: Seq<Vec<char>>) -> Seq<Seq<char>> {
    Seq::new(v.len(), |k: int| v[k]@)
}

/// Whether the header, in lowercase, contains one of the words.
pub open spec fn header_has_word(h: Seq<char>, words: Seq<Seq<char>>) -> bool {
    exists|k: int| 0 <= k < words.len() && contains_seq(std_lowercase(h), #[trigger] words[k])
}

fn date_words_exec() -> (r: Vec<Vec<char>>)
    ensures
        texts(r@) == date_words(),
{
    let r = vec![
        chars_of("date"),
        chars_of("posting date"),
        chars_of("transaction date"),
        chars_of("trans date"),
        chars_of("date posted"),
    ];
    assert(texts(r@) =~= date_words());
    r
}

fn amount_words_exec() -> (r: Vec<Vec<char>>)
    ensures
        texts(r@) == amount_words(),
{
    let r = vec![
        chars_of("amount"),
        chars_of("amount"),
        chars_of("debit"),
        chars_of("credit"),
        chars_of("withdrawal"),
        chars_of("deposit"),
        chars_of("transaction amount"),
        chars_of("value"),
    ];
    assert(texts(r@) =~= amount_words());
    r
}

fn vendor_words_exec() -> (r: Vec<Vec<char>>)
    ensures
        texts(r@) == vendor_words(),
{
    let r = vec![
        chars_of("description"),
        chars_of("vendor"),
        chars_of("merchant"),
        chars_of("payee"),
        chars_of("memo"),
        chars_of("transaction description"),
        chars_of("details"),
        chars_of("reference"),
    ];
    assert(texts(r@) =~= vendor_words());
    r
}

/// Whether `lower` contains one of the words.
fn has_word(lower: &Vec<char>, words: &Vec<Vec<char>>) -> (r: bool)
    ensures
        r == exists|k: int|
            0 <= k < words.len() && contains_seq(lower@, #[trigger] texts(words@)[k]),
{
    let mut k: usize = 0;
    while k < words.len()
        invariant
            k <= words.len(),
            forall|j: int| 0 <= j < k ==> !contains_seq(lower@, #[trigger] texts(words@)[j]),
        decreases words.len() - k,
    {
        if contains_chars(lower, &words[k]) {
            assert(contains_seq(lower@, texts(words@)[k as int]));
            return true;
        }
        assert(!contains_seq(lower@, texts(words@)[k as int]));
        k = k + 1;
    }
    false
}

// ── Reading CSV text ──

/// What the `csv` crate reads from `raw` with a flexible reader (rows may
/// differ in length) that takes the first row as the header row: the
/// header fields and the fields of each later record, or the text of its
/// first error.
pub uninterp spec fn csv_read(raw: Seq<char>) -> Result<
    (Seq<Seq<char>>, Seq<Seq<Seq<char>>>),
    Seq<char>,
>;

/// Reads `raw` with `csv::ReaderBuilder` (flexible, header row first).
/// The contract names the result; a header row that cannot be read counts
/// as no header fields, as in the callers.
#[verifier::external_body]
pub(crate) fn read_csv(raw: &str) -> (r: Result<(Vec<String>, Vec<Vec<String>>), String>)
    ensures
        match r {
            Ok((h, recs)) => csv_read(raw@) == Ok::<
                (Seq<Seq<char>>, Seq<Seq<Seq<char>>>),
                Seq<char>,
            >((h.deep_view(), recs.deep_view())),
            Err(e) => csv_read(raw@) == Err::<(Seq<Seq<char>>, Seq<Seq<Seq<char>>>), Seq<char>>(
                e@,
            ),
        },
{
    let mut rdr = csv::ReaderBuilder::new().flexible(true).from_reader(raw.as_bytes());
    let headers: Vec<String> = rdr.headers().map(|h| h.iter().map(String::from).collect()).unwrap_or_default();
    let records: Result<Vec<Vec<String>>, csv::Error> = rdr.records().map(
        |rec| rec.map(|r| r.iter().map(String::from).collect()),
    ).collect();
    match records {
        Ok(v) => Ok((headers, v)),
        Err(e) => Err(e.to_string()),
    }
}

// ── Column detection ──

/// The first `k` rows of `rows`, or all of them when there are fewer.
pub open spec fn first_rows(rows: Seq<Seq<Seq<char>>>, k: int) -> Seq<Seq<Seq<char>>> {
    if rows.len() <= k {
        rows
    } else {
        rows.take(k)
    }
}

/// Each field trimmed.
pub open spec fn trim_all(fields: Seq<Seq<char>>) -> Seq<Seq<char>> {
    Seq::new(fields.len(), |i: int| trim(fields[i]))
}

/// The number of rows whose cell in column `col` reads as a date.
pub open spec fn date_hits(rows: Seq<Seq<Seq<char>>>, col: int) -> int
    decreases rows.len(),
{
    if rows.len() == 0 {
        0
    } else {
        date_hits(rows.drop_last(), col) + if 0 <= col < rows.last().len()
            && spec_try_parse_date(rows.last()[col]) is Some {
            1int
        } else {
            0int
        }
    }
}

/// The number of rows whose cell in column `col` holds an amount.
pub open spec fn amount_hits(rows: Seq<Seq<Seq<char>>>, col: int) -> int
    decreases rows.len(),
{
    if rows.len() == 0 {
        0
    } else {
        amount_hits(rows.drop_last(), col) + if 0 <= col < rows.last().len()
            && spec_looks_like_amount(rows.last()[col]) {
            1int
        } else {
            0int
        }
    }
}

/// A cell holds text when, trimmed, it is not empty and holds neither an
/// amount nor a date.
pub open spec fn is_text_cell(v: Seq<char>) -> bool {
    trim(v).len() > 0 && !spec_looks_like_amount(v) && spec_try_parse_date(v) is None
}

/// The number of rows whose cell in column `col` holds text.
pub open spec fn text_hits(rows: Seq<Seq<Seq<char>>>, col: int) -> int
    decreases rows.len(),
{
    if rows.len() == 0 {
        0
    } else {
        text_hits(rows.drop_last(), col) + if 0 <= col < rows.last().len() && is_text_cell(
            rows.last()[col],
        ) {
            1int
        } else {
            0int
        }
    }
}

/// Ten points for a column whose header holds one of the words.
pub open spec fn header_bonus(headers: Seq<Seq<char>>, col: int, words: Seq<Seq<char>>) -> int {
    if 0 <= col < headers.len() && header_has_word(headers[col], words) {
        10
    } else {
        0
    }
}

/// How much each of the `n` columns looks like a date column.
pub open spec fn date_scores(sample: Seq<Seq<Seq<char>>>, headers: Seq<Seq<char>>, n: int) -> Seq<
    int,
> {
    Seq::new(n as nat, |c: int| date_hits(sample, c) + header_bonus(headers, c, date_words()))
}

/// How much each of the `n` columns looks like an amount column.
pub open spec fn amount_scores(sample: Seq<Seq<Seq<char>>>, headers: Seq<Seq<char>>, n: int) -> Seq<
    int,
> {
    Seq::new(n as nat, |c: int| amount_hits(sample, c) + header_bonus(headers, c, amount_words()))
}

/// `c` is the first position, other than `excl`, of a highest score.
pub open spec fn first_max_excl(scores: Seq<int>, excl: int, c: int) -> bool {
    &&& 0 <= c < scores.len()
    &&& c != excl
    &&& forall|j: int| 0 <= j < scores.len() && j != excl ==> #[trigger] scores[j] <= scores[c]
    &&& forall|j: int| 0 <= j < c && j != excl ==> #[trigger] scores[j] < scores[c]
}

/// The format of the first date found in column `col`, or `%d/%m/%Y`.
pub open spec fn first_date_format(rows: Seq<Seq<Seq<char>>>, col: int) -> Seq<char>
    decreases rows.len(),
{
    if rows.len() == 0 {
        "%d/%m/%Y"@
    } else if 0 <= col < rows[0].len() && spec_try_parse_date(rows[0][col]) is Some {
        spec_try_parse_date(rows[0][col]).unwrap()
    } else {
        first_date_format(rows.drop_first(), col)
    }
}

/// The first column from `c` on, other than `d` and `a`, whose header
/// holds a vendor word.
pub open spec fn vendor_by_header(headers: Seq<Seq<char>>, n: int, d: int, a: int, c: int) -> Option<
    int,
>
    decreases n - c,
{
    if c < 0 || c >= n {
        None
    } else if c != d && c != a && c < headers.len() && header_has_word(headers[c], vendor_words()) {
        Some(c)
    } else {
        vendor_by_header(headers, n, d, a, c + 1)
    }
}

/// The first column from `c` on, other than `d` and `a`, holding text in
/// more than half of the sample rows.
pub open spec fn vendor_by_text(sample: Seq<Seq<Seq<char>>>, n: int, d: int, a: int, c: int) -> Option<
    int,
>
    decreases n - c,
{
    if c < 0 || c >= n {
        None
    } else if c != d && c != a && text_hits(sample, c) > sample.len() / 2 {
        Some(c)
    } else {
        vendor_by_text(sample, n, d, a, c + 1)
    }
}

/// `a` is what analysing the header fields `headers` and the records
/// `rows` (at least one) finds. The first ten records are the sample; the
/// number of columns is that of the first record.
pub open spec fn is_analysis(headers: Seq<Seq<char>>, rows: Seq<Seq<Seq<char>>>, a: CsvAnalysis) -> bool {
    let n = rows[0].len() as int;
    let sample = first_rows(rows, 10);
    let hs = trim_all(headers);
    let d = a.detected.date_col as int;
    let am = a.detected.amount_col as int;
    let vendor = match vendor_by_header(hs, n, d, am, 0) {
        Some(c) => Some(c),
        None => vendor_by_text(sample, n, d, am, 0),
    };
    &&& a.headers.deep_view() == hs
    &&& a.preview_rows.deep_view() == first_rows(rows, 5)
    &&& a.total_rows == rows.len()
    &&& first_max_excl(date_scores(sample, hs, n), -1, d)
    &&& if n > 1 {
        first_max_excl(amount_scores(sample, hs, n), d, am)
    } else {
        am == 0
    }
    &&& a.detected.date_format@ == first_date_format(sample, d)
    &&& match a.detected.vendor_col {
        Some(c) => vendor == Some(c as int),
        None => vendor is None,
    }
}

/// A `BadRequest` error with the message `msg`.
pub open spec fn is_bad_request(e: AppError, msg: Seq<char>) -> bool {
    e matches AppError::BadRequest(m) && m@ == msg
}

/// The scores as integers.
pub open spec fn ints(s: Seq<usize>) -> Seq<int> {
    Seq::new(s.len(), |i: int| s[i] as int)
}

/// The excluded position as an integer, `-1` for none.
pub open spec fn excluded(e: Option<usize>) -> int {
    match e {
        Some(x) => x as int,
        None => -1,
    }
}

/// Copies of the strings.
fn copy_strings(v: &Vec<String>) -> (r: Vec<String>)
    ensures
        r.deep_view() == v.deep_view(),
{
    let mut r: Vec<String> = Vec::new();
    let mut i: usize = 0;
    while i < v.len()
        invariant
            i <= v.len(),
            r.len() == i,
            r.deep_view() == v.deep_view().take(i as int),
        decreases v.len() - i,
    {
        let ghost old = r@;
        let ghost old_dv = r.deep_view();
        r.push(v[i].clone());
        assert forall|j: int| 0 <= j < i + 1 implies #[trigger] r.deep_view()[j] == v.deep_view().take(
            i + 1,
        )[j] by {
            if j < i {
                assert(r@[j] == old[j]);
                assert(old_dv[j] == old[j].deep_view());
            }
        }
        assert(r.deep_view() =~= v.deep_view().take(i + 1));
        i = i + 1;
    }
    assert(v.deep_view().take(v.len() as int) =~= v.deep_view());
    r
}

/// Copies of the first `k` rows.
fn copy_rows(rows: &Vec<Vec<String>>, k: usize) -> (r: Vec<Vec<String>>)
    requires
        k <= rows.len(),
    ensures
        r.deep_view() == rows.deep_view().take(k as int),
{
    let mut r: Vec<Vec<String>> = Vec::new();
    let mut i: usize = 0;
    while i < k
        invariant
            i <= k <= rows.len(),
            r.len() == i,
            r.deep_view() == rows.deep_view().take(i as int),
        decreases k - i,
    {
        let ghost old = r@;
        let ghost old_dv = r.deep_view();
        r.push(copy_strings(&rows[i]));
        assert forall|j: int| 0 <= j < i + 1 implies #[trigger] r.deep_view()[j]
            == rows.deep_view().take(i + 1)[j] by {
            if j < i {
                assert(r@[j] == old[j]);
                assert(old_dv[j] == old[j].deep_view());
            }
        }
        assert(r.deep_view() =~= rows.deep_view().take(i + 1));
        i = i + 1;
    }
    r
}

/// The number of the first `m` rows whose cell in column `col` reads as a
/// date.
fn count_dates(rows: &Vec<Vec<String>>, m: usize, col: usize) -> (r: usize)
    requires
        m <= rows.len(),
    ensures
        r == date_hits(rows.deep_view().take(m as int), col as int),
        r <= m,
{
    let mut cnt: usize = 0;
    let mut i: usize = 0;
    while i < m
        invariant
            i <= m <= rows.len(),
            cnt <= i,
            cnt == date_hits(rows.deep_view().take(i as int), col as int),
        decreases m - i,
    {
        let ghost t = rows.deep_view().take(i + 1);
        assert(t.drop_last() =~= rows.deep_view().take(i as int));
        assert(t.last() == rows@[i as int].deep_view());
        if col < rows[i].len() {
            assert(t.last()[col as int] == rows@[i as int]@[col as int]@);
            if try_parse_date(rows[i][col].as_str()).is_some() {
                cnt = cnt + 1;
            }
        }
        i = i + 1;
    }
    cnt
}

/// The number of the first `m` rows whose cell in column `col` holds an
/// amount.
fn count_amounts(rows: &Vec<Vec<String>>, m: usize, col: usize) -> (r: usize)
    requires
        m <= rows.len(),
    ensures
        r == amount_hits(rows.deep_view().take(m as int), col as int),
        r <= m,
{
    let mut cnt: usize = 0;
    let mut i: usize = 0;
    while i < m
        invariant
            i <= m <= rows.len(),
            cnt <= i,
            cnt == amount_hits(rows.deep_view().take(i as int), col as int),
        decreases m - i,
    {
        let ghost t = rows.deep_view().take(i + 1);
        assert(t.drop_last() =~= rows.deep_view().take(i as int));
        assert(t.last() == rows@[i as int].deep_view());
        if col < rows[i].len() {
            assert(t.last()[col as int] == rows@[i as int]@[col as int]@);
            if looks_like_amount(rows[i][col].as_str()) {
                cnt = cnt + 1;
            }
        }
        i = i + 1;
    }
    cnt
}

/// The number of the first `m` rows whose cell in column `col` holds text.
fn count_texts(rows: &Vec<Vec<String>>, m: usize, col: usize) -> (r: usize)
    requires
        m <= rows.len(),
    ensures
        r == text_hits(rows.deep_view().take(m as int), col as int),
        r <= m,
{
    let mut cnt: usize = 0;
    let mut i: usize = 0;
    while i < m
        invariant
            i <= m <= rows.len(),
            cnt <= i,
            cnt == text_hits(rows.deep_view().take(i as int), col as int),
        decreases m - i,
    {
        let ghost t = rows.deep_view().take(i + 1);
        assert(t.drop_last() =~= rows.deep_view().take(i as int));
        assert(t.last() == rows@[i as int].deep_view());
        if col < rows[i].len() {
            let v = rows[i][col].as_str();
            assert(t.last()[col as int] == v@);
            if trimmed_chars(v).len() > 0 && !looks_like_amount(v) && try_parse_date(v).is_none() {
                cnt = cnt + 1;
            }
        }
        i = i + 1;
    }
    cnt
}

/// The first position, other than `excl`, of a highest score; `None` when
/// every position is excluded.
fn first_max(scores: &Vec<usize>, excl: Option<usize>) -> (r: Option<usize>)
    ensures
        match r {
            Some(c) => first_max_excl(ints(scores@), excluded(excl), c as int),
            None => scores.len() == 0 || (scores.len() == 1 && excluded(excl) == 0),
        },
{
    let mut best: Option<usize> = None;
    let mut i: usize = 0;
    while i < scores.len()
        invariant
            i <= scores.len(),
            match best {
                Some(c) => c < i && first_max_excl(ints(scores@).take(i as int), excluded(excl), c as int),
                None => i == 0 || (i == 1 && excluded(excl) == 0),
            },
        decreases scores.len() - i,
    {
        let skip = match excl {
            Some(e) => e == i,
            None => false,
        };
        if !skip {
            match best {
                Some(c) => {
                    if scores[i] > scores[c] {
                        best = Some(i);
                    }
                },
                None => {
                    best = Some(i);
                },
            }
        }
        proof {
            let t = ints(scores@).take(i + 1);
            let t0 = ints(scores@).take(i as int);
            match best {
                Some(c) => {
                    assert forall|j: int| 0 <= j < t.len() && j != excluded(excl) implies #[trigger] t[j]
                        <= t[c as int] by {
                        if j < i {
                            assert(t[j] == t0[j]);
                        }
                    }
                    assert forall|j: int| 0 <= j < c && j != excluded(excl) implies #[trigger] t[j]
                        < t[c as int] by {
                        if j < i {
                            assert(t[j] == t0[j]);
                        }
                    }
                },
                None => {},
            }
        }
        i = i + 1;
    }
    assert(ints(scores@).take(scores.len() as int) =~= ints(scores@));
    best
}

/// Guesses the column mapping of a CSV file from its header fields and
/// records (see `is_analysis`): the date and amount columns score one
/// point per sample row whose cell reads as a date or an amount and ten
/// points for a matching header word; the vendor column is the first other
/// column with a vendor header word, or else the first holding text in
/// more than half of the sample rows. Without records the file is
/// refused as empty.
pub fn analyze_records(headers: &Vec<String>, records: &Vec<Vec<String>>) -> (r: Result<
    CsvAnalysis,
    AppError,
>)
    requires
        records.len() == 0 || records@[0].len() > 0,
    ensures
        r is Err <==> records.len() == 0,
        r matches Err(e) ==> is_bad_request(e, "CSV file is empty"@),
        r matches Ok(a) ==> is_analysis(headers.deep_view(), records.deep_view(), a),
{
    if records.len() == 0 {
        return Err(AppError::BadRequest("CSV file is empty".to_owned()));
    }
    let ghost rows = records.deep_view();
    let ghost hs = trim_all(headers.deep_view());
    // Trimmed headers, and their lowercase forms.
    let mut heads: Vec<String> = Vec::new();
    let mut lowers: Vec<Vec<char>> = Vec::new();
    let mut i: usize = 0;
    while i < headers.len()
        invariant
            i <= headers.len(),
            hs == trim_all(headers.deep_view()),
            heads.len() == i,
            heads.deep_view() == hs.take(i as int),
            lowers.len() == i,
            forall|j: int| 0 <= j < i ==> #[trigger] lowers@[j]@ == std_lowercase(hs[j]),
        decreases headers.len() - i,
    {
        let t = string_of(&trimmed_chars(headers[i].as_str()));
        let lower = to_lowercase(t.as_str());
        lowers.push(chars_of(lower.as_str()));
        let ghost old = heads@;
        let ghost old_dv = heads.deep_view();
        heads.push(t);
        assert forall|j: int| 0 <= j < i + 1 implies #[trigger] heads.deep_view()[j] == hs.take(i + 1)[j] by {
            if j < i {
                assert(heads@[j] == old[j]);
                assert(old_dv[j] == old[j].deep_view());
            }
        }
        assert(heads.deep_view() =~= hs.take(i + 1));
        i = i + 1;
    }
    assert(hs.take(headers.len() as int) =~= hs);
    let n = records[0].len();
    let m: usize = if records.len() < 10 {
        records.len()
    } else {
        10
    };
    let ghost sample = first_rows(rows, 10);
    assert(rows.take(m as int) =~= sample);
    let dw = date_words_exec();
    let aw = amount_words_exec();
    let vw = vendor_words_exec();
    // Scores.
    let mut ds: Vec<usize> = Vec::new();
    let mut as_: Vec<usize> = Vec::new();
    let mut c: usize = 0;
    while c < n
        invariant
            c <= n,
            m <= records.len(),
            m <= 10,
            rows == records.deep_view(),
            rows.take(m as int) == sample,
            lowers.len() == hs.len(),
            forall|j: int| 0 <= j < lowers.len() ==> #[trigger] lowers@[j]@ == std_lowercase(hs[j]),
            texts(dw@) == date_words(),
            texts(aw@) == amount_words(),
            ds.len() == c,
            as_.len() == c,
            ints(ds@) == date_scores(sample, hs, n as int).take(c as int),
            ints(as_@) == amount_scores(sample, hs, n as int).take(c as int),
        decreases n - c,
    {
        let dh = count_dates(records, m, c);
        let ah = count_amounts(records, m, c);
        let mut db: usize = 0;
        let mut ab: usize = 0;
        if c < lowers.len() {
            if has_word(&lowers[c], &dw) {
                db = 10;
            }
            if has_word(&lowers[c], &aw) {
                ab = 10;
            }
        }
        assert(db == header_bonus(hs, c as int, date_words()));
        assert(ab == header_bonus(hs, c as int, amount_words()));
        assert(dh == date_hits(sample, c as int));
        assert(ah == amount_hits(sample, c as int));
        let ghost old_ds = ds@;
        let ghost old_as = as_@;
        ds.push(dh + db);
        as_.push(ah + ab);
        assert forall|j: int| 0 <= j < c + 1 implies #[trigger] ints(ds@)[j] == date_scores(
            sample,
            hs,
            n as int,
        ).take(c + 1)[j] by {
            if j < c {
                assert(ds@[j] == old_ds[j]);
                assert(ints(old_ds)[j] == old_ds[j] as int);
            }
        }
        assert forall|j: int| 0 <= j < c + 1 implies #[trigger] ints(as_@)[j] == amount_scores(
            sample,
            hs,
            n as int,
        ).take(c + 1)[j] by {
            if j < c {
                assert(as_@[j] == old_as[j]);
                assert(ints(old_as)[j] == old_as[j] as int);
            }
        }
        assert(ints(ds@) =~= date_scores(sample, hs, n as int).take(c + 1));
        assert(ints(as_@) =~= amount_scores(sample, hs, n as int).take(c + 1));
        c = c + 1;
    }
    assert(date_scores(sample, hs, n as int).take(n as int) =~= date_scores(sample, hs, n as int));
    assert(amount_scores(sample, hs, n as int).take(n as int) =~= amount_scores(
        sample,
        hs,
        n as int,
    ));
    let date_col = match first_max(&ds, None) {
        Some(d) => d,
        None => {
            assert(false);
            0
        },
    };
    let amount_col = match first_max(&as_, Some(date_col)) {
        Some(a) => a,
        None => 0,
    };
    proof {
        if n > 1 {
            assert(amount_col != date_col);
        }
    }
    // The date format of the first date in the date column.
    let mut date_format = "%d/%m/%Y".to_owned();
    let mut found = false;
    let mut k: usize = 0;
    assert(sample.subrange(0, m as int) =~= sample);
    while k < m && !found
        invariant
            k <= m <= records.len(),
            rows == records.deep_view(),
            rows.take(m as int) == sample,
            !found ==> date_format@ == "%d/%m/%Y"@ && first_date_format(sample, date_col as int)
                == first_date_format(sample.subrange(k as int, m as int), date_col as int),
            found ==> date_format@ == first_date_format(sample, date_col as int),
        decreases m - k,
    {
        let ghost rest = sample.subrange(k as int, m as int);
        assert(rest[0] == rows[k as int]);
        assert(rest.drop_first() =~= sample.subrange(k + 1, m as int));
        if date_col < records[k].len() {
            assert(rows[k as int][date_col as int] == records@[k as int]@[date_col as int]@);
            match try_parse_date(records[k][date_col].as_str()) {
                Some(f) => {
                    date_format = f;
                    found = true;
                },
                None => {},
            }
        }
        k = k + 1;
    }
    proof {
        if !found {
            assert(sample.subrange(m as int, m as int).len() == 0);
        }
    }
    // The vendor column.
    let mut vendor_col: Option<usize> = None;
    let mut c: usize = 0;
    while c < n && vendor_col.is_none()
        invariant
            c <= n,
            lowers.len() == hs.len(),
            forall|j: int| 0 <= j < lowers.len() ==> #[trigger] lowers@[j]@ == std_lowercase(hs[j]),
            texts(vw@) == vendor_words(),
            vendor_col is None ==> vendor_by_header(hs, n as int, date_col as int, amount_col as int, 0)
                == vendor_by_header(hs, n as int, date_col as int, amount_col as int, c as int),
            vendor_col matches Some(v) ==> vendor_by_header(
                hs,
                n as int,
                date_col as int,
                amount_col as int,
                0,
            ) == Some(v as int),
        decreases n - c + (if vendor_col is None {
            1int
        } else {
            0int
        }),
    {
        if c != date_col && c != amount_col && c < lowers.len() && has_word(&lowers[c], &vw) {
            vendor_col = Some(c);
        } else {
            c = c + 1;
        }
    }
    let ghost by_header = vendor_col;
    if vendor_col.is_none() {
        let mut c: usize = 0;
        while c < n && vendor_col.is_none()
            invariant
                c <= n,
                m <= records.len(),
                rows == records.deep_view(),
                rows.take(m as int) == sample,
                sample.len() == m,
                vendor_col is None ==> vendor_by_text(
                    sample,
                    n as int,
                    date_col as int,
                    amount_col as int,
                    0,
                ) == vendor_by_text(sample, n as int, date_col as int, amount_col as int, c as int),
                vendor_col matches Some(v) ==> vendor_by_text(
                    sample,
                    n as int,
                    date_col as int,
                    amount_col as int,
                    0,
                ) == Some(v as int),
            decreases n - c + (if vendor_col is None {
                1int
            } else {
                0int
            }),
        {
            if c != date_col && c != amount_col && count_texts(records, m, c) > m / 2 {
                vendor_col = Some(c);
            } else {
                c = c + 1;
            }
        }
    }
    let detected = ColumnMapping { date_col, amount_col, vendor_col, date_format };
    let p = if records.len() < 5 {
        records.len()
    } else {
        5
    };
    let preview_rows = copy_rows(records, p);
    assert(rows.take(p as int) =~= first_rows(rows, 5));
    Ok(CsvAnalysis { headers: heads, preview_rows, detected, total_rows: records.len() })
}

/// The error for a CSV text the reader refused.
pub(crate) fn csv_error(msg: &String) -> (e: AppError)
    ensures
        is_bad_request(e, "CSV parse error: "@ + msg@),
{
    let mut text = chars_of("CSV parse error: ");
    let m = chars_of(msg.as_str());
    let mut i: usize = 0;
    let ghost base = text@;
    while i < m.len()
        invariant
            i <= m.len(),
            text@ == base + m@.take(i as int),
        decreases m.len() - i,
    {
        text.push(m[i]);
        assert(text@ =~= base + m@.take(i + 1));
        i = i + 1;
    }
    assert(m@.take(m.len() as int) =~= m@);
    AppError::BadRequest(string_of(&text))
}

/// Analyses CSV text (see `analyze_records`): an error of the reader is
/// refused as `CSV parse error: ` and its text, a file without data rows,
/// or whose first data row has no field, as empty.
pub fn analyze_csv(raw: &str) -> (r: Result<CsvAnalysis, AppError>)
    ensures
        match csv_read(raw@) {
            Err(msg) => r matches Err(e) && is_bad_request(e, "CSV parse error: "@ + msg),
            Ok((h, rows)) => if rows.len() == 0 || rows[0].len() == 0 {
                r matches Err(e) && is_bad_request(e, "CSV file is empty"@)
            } else {
                r matches Ok(a) && is_analysis(h, rows, a)
            },
        },
{
    match read_csv(raw) {
        Err(msg) => Err(csv_error(&msg)),
        Ok((headers, records)) => {
            if records.len() > 0 && records[0].len() == 0 {
                return Err(AppError::BadRequest("CSV file is empty".to_owned()));
            }
            analyze_records(&headers, &records)
        },
    }
}

// ── Reading rows with a mapping ──

/// The field in column `c`, or empty text when the record is shorter.
pub open spec fn cell(rec: Seq<Seq<char>>, c: int) -> Seq<char> {
    if 0 <= c < rec.len() {
        rec[c]
    } else {
        Seq::empty()
    }
}

/// The row that a record gives under the mapping, as `(day, cents,
/// vendor)`: none when the trimmed date field is empty or not a date in the
/// mapping's format, or the trimmed amount field is empty or not an amount.
/// The cents are the amount's absolute value; the vendor is the trimmed
/// vendor field, or empty text.
pub open spec fn mapped_row(rec: Seq<Seq<char>>, m: ColumnMapping) -> Option<(i32, int, Seq<char>)> {
    let ds = trim(cell(rec, m.date_col as int));
    let am = trim(cell(rec, m.amount_col as int));
    let vendor = match m.vendor_col {
        Some(v) => trim(cell(rec, v as int)),
        None => Seq::empty(),
    };
    if ds.len() == 0 {
        None
    } else {
        match chrono_parse_day(ds, m.date_format@) {
            None => None,
            Some(day) => if am.len() == 0 {
                None
            } else {
                match spec_parse_dollars(am) {
                    Err(_) => None,
                    Ok(c) => Some((day, abs(c) as int, vendor)),
                }
            },
        }
    }
}

/// The rows that the records give under the mapping, in record order.
pub open spec fn mapped_rows(recs: Seq<Seq<Seq<char>>>, m: ColumnMapping) -> Seq<(i32, int, Seq<char>)>
    decreases recs.len(),
{
    if recs.len() == 0 {
        Seq::empty()
    } else {
        let rest = mapped_rows(recs.drop_last(), m);
        match mapped_row(recs.last(), m) {
            Some(row) => rest.push(row),
            None => rest,
        }
    }
}

/// Rows as `(day, cents, vendor)`.
pub open spec fn row_views(rows: Seq<(i32, i64, String)>) -> Seq<(i32, int, Seq<char>)> {
    Seq::new(rows.len(), |i: int| (rows[i].0, rows[i].1 as int, rows[i].2@))
}

/// The days of the rows, as sort keys.
pub open spec fn day_keys(rows: Seq<(i32, int, Seq<char>)>) -> Seq<i128> {
    Seq::new(rows.len(), |i: int| rows[i].0 as i128)
}

/// The rows read in the order of the positions `idx`.
pub open spec fn reorder_rows(rows: Seq<(i32, int, Seq<char>)>, idx: Seq<usize>) -> Seq<
    (i32, int, Seq<char>),
> {
    Seq::new(idx.len(), |a: int| rows[idx[a] as int])
}

/// `rows` are the rows that the records give under the mapping, ordered
/// by date; rows of one date keep their order.
pub open spec fn is_sorted_import(recs: Seq<Seq<Seq<char>>>, m: ColumnMapping, rows: Seq<
    (i32, int, Seq<char>),
>) -> bool {
    exists|idx: Seq<usize>|
        is_stable_order(day_keys(mapped_rows(recs, m)), idx) && rows == reorder_rows(
            mapped_rows(recs, m),
            idx,
        )
}

/// The rows that the records give under the mapping, ordered by date;
/// rows of one date keep their order.
pub fn parse_records_with_mapping(records: &Vec<Vec<String>>, mapping: &ColumnMapping) -> (r: Vec<
    (i32, i64, String),
>)
    ensures
        is_sorted_import(records.deep_view(), *mapping, row_views(r@)),
{
    let ghost recs = records.deep_view();
    let mut kept: Vec<(i32, i64, String)> = Vec::new();
    let mut keys: Vec<i128> = Vec::new();
    let mut i: usize = 0;
    while i < records.len()
        invariant
            i <= records.len(),
            recs == records.deep_view(),
            row_views(kept@) == mapped_rows(recs.take(i as int), *mapping),
            keys@ == day_keys(row_views(kept@)),
        decreases records.len() - i,
    {
        assert(recs.take(i + 1).drop_last() =~= recs.take(i as int));
        let ghost rec = recs[i as int];
        assert(recs.take(i + 1).last() == rec);
        let rec_ref = &records[i];
        assert(rec_ref.deep_view() == rec);
        let date_chars = if mapping.date_col < rec_ref.len() {
            trimmed_chars(rec_ref[mapping.date_col].as_str())
        } else {
            Vec::new()
        };
        assert(date_chars@ == trim(cell(rec, mapping.date_col as int))) by {
            if mapping.date_col >= rec_ref.len() {
                assert(trim(Seq::<char>::empty()) =~= Seq::<char>::empty());
            }
        }
        let ghost old_kept = kept@;
        if date_chars.len() > 0 {
            let date_str = string_of(&date_chars);
            match parse_day(date_str.as_str(), mapping.date_format.as_str()) {
                Some(day) => {
                    let amount_chars = if mapping.amount_col < rec_ref.len() {
                        trimmed_chars(rec_ref[mapping.amount_col].as_str())
                    } else {
                        Vec::new()
                    };
                    assert(amount_chars@ == trim(cell(rec, mapping.amount_col as int))) by {
                        if mapping.amount_col >= rec_ref.len() {
                            assert(trim(Seq::<char>::empty()) =~= Seq::<char>::empty());
                        }
                    }
                    if amount_chars.len() > 0 {
                        let amount_str = string_of(&amount_chars);
                        match parse_dollars(amount_str.as_str()) {
                            Ok(c) => {
                                let cents: i64 = if c < 0 {
                                    -c
                                } else {
                                    c
                                };
                                let vendor = match mapping.vendor_col {
                                    Some(v) => if v < rec_ref.len() {
                                        string_of(&trimmed_chars(rec_ref[v].as_str()))
                                    } else {
                                        String::new()
                                    },
                                    None => String::new(),
                                };
                                proof {
                                    match mapping.vendor_col {
                                        Some(v) => if v >= rec_ref.len() {
                                            assert(trim(Seq::<char>::empty()) =~= Seq::<char>::empty());
                                        },
                                        None => {},
                                    }
                                }
                                let ghost row = (day, cents as int, vendor@);
                                kept.push((day, cents, vendor));
                                keys.push(day as i128);
                                assert(row_views(kept@) =~= row_views(old_kept).push(row));
                                assert(keys@ =~= day_keys(row_views(kept@)));
                            },
                            Err(_) => {},
                        }
                    }
                },
                None => {},
            }
        }
        i = i + 1;
    }
    assert(recs.take(records.len() as int) =~= recs);
    let idx = stable_order(&keys);
    let mut out: Vec<(i32, i64, String)> = Vec::new();
    let mut a: usize = 0;
    while a < idx.len()
        invariant
            a <= idx.len(),
            is_stable_order(keys@, idx@),
            keys@.len() == kept.len(),
            out.len() == a,
            row_views(out@) == reorder_rows(row_views(kept@), idx@).take(a as int),
        decreases idx.len() - a,
    {
        let k = idx[a];
        assert(k < kept.len());
        let ghost old_out = out@;
        out.push((kept[k].0, kept[k].1, kept[k].2.clone()));
        assert(row_views(out@) =~= row_views(old_out).push(row_views(kept@)[k as int]));
        assert(row_views(out@) =~= reorder_rows(row_views(kept@), idx@).take(a + 1));
        a = a + 1;
    }
    assert(reorder_rows(row_views(kept@), idx@).take(idx.len() as int) =~= reorder_rows(
        row_views(kept@),
        idx@,
    ));
    assert(is_stable_order(day_keys(mapped_rows(recs, *mapping)), idx@));
    out
}

/// Reads the rows of CSV text with a mapping (see
/// `parse_records_with_mapping`); an error of the reader is refused as
/// `CSV parse error: ` and its text.
pub fn parse_csv_with_mapping(raw: &str, mapping: &ColumnMapping) -> (r: Result<
    Vec<(i32, i64, String)>,
    AppError,
>)
    ensures
        match csv_read(raw@) {
            Err(msg) => r matches Err(e) && is_bad_request(e, "CSV parse error: "@ + msg),
            Ok((_, recs)) => r matches Ok(rows) && is_sorted_import(recs, *mapping, row_views(rows@)),
        },
{
    match read_csv(raw) {
        Err(msg) => Err(csv_error(&msg)),
        Ok((headers, records)) => {
            let rows = parse_records_with_mapping(&records, mapping);
            Ok(rows)
        },
    }
}

} // verus!
