//! Reading form bodies (`key=value&key=value`) and URL text, and the
//! forms of the reconciliation pages that are read by hand.

use vstd::prelude::*;
use crate::csv_import::{is_bad_request, ColumnMapping};
use crate::digits::{all_digits, digit_of, digits_value, is_digit, lemma_digits_value_prefix};
use crate::error::AppError;
use crate::text::{chars_eq, chars_of, index_of, index_of_from, string_of, sub_vec};

verus! {

// ── URL text ──

/// The value of a hexadecimal digit, if `c` is one.
pub open spec fn hex_digit(c: char) -> Option<u8> {
    let u = c as u32;
    if 48 <= u <= 57 {
        Some((u - 48) as u8)
    } else if 97 <= u <= 102 {
        Some((u - 87) as u8)
    } else if 65 <= u <= 70 {
        Some((u - 55) as u8)
    } else {
        None
    }
}

/// The byte that `u8::from_str_radix(h, 16)` reads from `h`, a text of at
/// most two characters: an optional `+` and then one or two hexadecimal
/// digits.
pub open spec fn hex_byte(h: Seq<char>) -> Option<u8> {
    let d = if h.len() > 0 && h[0] == '+' {
        h.drop_first()
    } else {
        h
    };
    if d.len() == 1 {
        hex_digit(d[0])
    } else if d.len() == 2 {
        match (hex_digit(d[0]), hex_digit(d[1])) {
            (Some(a), Some(b)) => Some((a * 16 + b) as u8),
            _ => None,
        }
    } else {
        None
    }
}

/// The text `s` decoded: `+` stands for a space, `%` and the (up to) two
/// characters after it for the byte they write in hexadecimal, taken as
/// the character of that code point; a `%` whose characters are no byte
/// is dropped with them. Each byte is decoded on its own, so the bytes of
/// a multi-byte UTF-8 character become several characters.
pub open spec fn spec_urldecode(s: Seq<char>) -> Seq<char>
    decreases s.len(),
{
    if s.len() == 0 {
        s
    } else if s[0] == '%' {
        let e = if s.len() >= 3 {
            3
        } else {
            s.len() as int
        };
        let rest = spec_urldecode(s.subrange(e, s.len() as int));
        match hex_byte(s.subrange(1, e)) {
            Some(b) => seq![b as char] + rest,
            None => rest,
        }
    } else if s[0] == '+' {
        seq![' '] + spec_urldecode(s.drop_first())
    } else {
        seq![s[0]] + spec_urldecode(s.drop_first())
    }
}

fn hex_digit_exec(c: char) -> (r: Option<u8>)
    ensures
        r == hex_digit(c),
{
    let u = c as u32;
    if 48 <= u && u <= 57 {
        Some((u - 48) as u8)
    } else if 97 <= u && u <= 102 {
        Some((u - 87) as u8)
    } else if 65 <= u && u <= 70 {
        Some((u - 55) as u8)
    } else {
        None
    }
}

fn hex_byte_exec(h: &Vec<char>) -> (r: Option<u8>)
    requires
        h.len() <= 2,
    ensures
        r == hex_byte(h@),
{
    let start: usize = if h.len() > 0 && h[0] == '+' {
        1
    } else {
        0
    };
    let d = sub_vec(h, start, h.len());
    proof {
        if start == 1 {
            assert(h@.subrange(1, h.len() as int) =~= h@.drop_first());
        } else {
            assert(h@.subrange(0, h.len() as int) =~= h@);
        }
    }
    if d.len() == 1 {
        hex_digit_exec(d[0])
    } else if d.len() == 2 {
        match (hex_digit_exec(d[0]), hex_digit_exec(d[1])) {
            (Some(a), Some(b)) => Some(a * 16 + b),
            _ => None,
        }
    } else {
        None
    }
}

/// Decodes URL text (see `spec_urldecode`).
pub fn urldecode(s: &str) -> (r: String)
    ensures
        r@ == spec_urldecode(s@),
{
    let v = chars_of(s);
    let n = v.len();
    let mut out: Vec<char> = Vec::new();
    let mut i: usize = 0;
    assert(v@.subrange(0, n as int) =~= v@);
    while i < n
        invariant
            n == v.len(),
            i <= n,
            spec_urldecode(v@) == out@ + spec_urldecode(v@.subrange(i as int, n as int)),
        decreases n - i,
    {
        let ghost rest = v@.subrange(i as int, n as int);
        let c = v[i];
        if c == '%' {
            let e: usize = if n - i >= 3 {
                i + 3
            } else {
                n
            };
            let h = sub_vec(&v, i + 1, e);
            assert(rest.subrange(e - i, rest.len() as int) =~= v@.subrange(e as int, n as int));
            assert(rest.subrange(1, e - i) =~= h@);
            match hex_byte_exec(&h) {
                Some(b) => {
                    let ch = b as char;
                    assert(out@.push(ch) + spec_urldecode(v@.subrange(e as int, n as int)) =~= out@ + (
                    seq![ch] + spec_urldecode(v@.subrange(e as int, n as int))));
                    out.push(ch);
                },
                None => {},
            }
            i = e;
        } else {
            let d = if c == '+' {
                ' '
            } else {
                c
            };
            assert(rest.drop_first() =~= v@.subrange(i + 1, n as int));
            assert(out@.push(d) + spec_urldecode(v@.subrange(i + 1, n as int)) =~= out@ + (seq![d]
                + spec_urldecode(v@.subrange(i + 1, n as int))));
            out.push(d);
            i = i + 1;
        }
    }
    assert(out@ + spec_urldecode(v@.subrange(n as int, n as int)) =~= out@);
    string_of(&out)
}

/// How one character is written in a redirect URL: a space as `+`, and
/// `%`, `#`, `&`, `?` percent-encoded.
pub open spec fn encode_char(c: char) -> Seq<char> {
    if c == ' ' {
        seq!['+']
    } else if c == '%' {
        seq!['%', '2', '5']
    } else if c == '#' {
        seq!['%', '2', '3']
    } else if c == '&' {
        seq!['%', '2', '6']
    } else if c == '?' {
        seq!['%', '3', 'F']
    } else {
        seq![c]
    }
}

/// The text written for a redirect URL, character by character.
pub open spec fn spec_urlencoding(s: Seq<char>) -> Seq<char>
    decreases s.len(),
{
    if s.len() == 0 {
        s
    } else {
        spec_urlencoding(s.drop_last()) + encode_char(s.last())
    }
}

/// Percent-encodes the few characters that would break a redirect URL's
/// query (see `encode_char`).
pub fn urlencoding(s: &str) -> (r: String)
    ensures
        r@ == spec_urlencoding(s@),
{
    let v = chars_of(s);
    let mut out: Vec<char> = Vec::new();
    let mut i: usize = 0;
    while i < v.len()
        invariant
            i <= v.len(),
            out@ == spec_urlencoding(v@.take(i as int)),
        decreases v.len() - i,
    {
        assert(v@.take(i + 1).drop_last() =~= v@.take(i as int));
        let c = v[i];
        let ghost before = out@;
        if c == ' ' {
            out.push('+');
        } else if c == '%' {
            out.push('%');
            out.push('2');
            out.push('5');
        } else if c == '#' {
            out.push('%');
            out.push('2');
            out.push('3');
        } else if c == '&' {
            out.push('%');
            out.push('2');
            out.push('6');
        } else if c == '?' {
            out.push('%');
            out.push('3');
            out.push('F');
        } else {
            out.push(c);
        }
        assert(out@ =~= before + encode_char(c));
        i = i + 1;
    }
    assert(v@.take(v.len() as int) =~= v@);
    string_of(&out)
}

/// Encoding splits at any point into the encodings of the two parts.
proof fn lemma_urlencoding_concat(a: Seq<char>, b: Seq<char>)
    ensures
        spec_urlencoding(a + b) == spec_urlencoding(a) + spec_urlencoding(b),
    decreases b.len(),
{
    if b.len() == 0 {
        assert(a + b =~= a);
        assert(spec_urlencoding(a) + spec_urlencoding(b) =~= spec_urlencoding(a));
    } else {
        lemma_urlencoding_concat(a, b.drop_last());
        assert((a + b).drop_last() =~= a + b.drop_last());
        assert((a + b).last() == b.last());
        assert(spec_urlencoding(a) + spec_urlencoding(b.drop_last()) + encode_char(b.last())
            =~= spec_urlencoding(a) + (spec_urlencoding(b.drop_last()) + encode_char(b.last())));
    }
}

/// Decoding undoes the encoding of a text without `+`: spaces come back
/// from `+`, and `%`, `#`, `&`, `?` from their percent codes.
pub proof fn lemma_urldecode_urlencoding(s: Seq<char>)
    requires
        forall|i: int| 0 <= i < s.len() ==> s[i] != '+',
    ensures
        spec_urldecode(spec_urlencoding(s)) == s,
    decreases s.len(),
{
    if s.len() > 0 {
        let c = s[0];
        let rest = s.drop_first();
        assert(s =~= seq![c] + rest);
        lemma_urlencoding_concat(seq![c], rest);
        assert(seq![c].drop_last() =~= Seq::<char>::empty());
        assert(seq![c].last() == c);
        assert(spec_urlencoding(Seq::<char>::empty()) == Seq::<char>::empty());
        assert(Seq::<char>::empty() + encode_char(c) =~= encode_char(c));
        assert(spec_urlencoding(seq![c]) =~= encode_char(c));
        assert forall|i: int| 0 <= i < rest.len() implies rest[i] != '+' by {
            assert(rest[i] == s[i + 1]);
        }
        lemma_urldecode_urlencoding(rest);
        let er = spec_urlencoding(rest);
        let e = encode_char(c) + er;
        assert(spec_urlencoding(s) == e);
        if c == ' ' {
            assert(e[0] == '+');
            assert(e.drop_first() =~= er);
        } else if c == '%' || c == '#' || c == '&' || c == '?' {
            assert(e[0] == '%');
            assert(e.subrange(3, e.len() as int) =~= er);
            let h = e.subrange(1, 3);
            if c == '%' {
                assert(h =~= seq!['2', '5']);
                assert(hex_byte(h) == Some(37u8));
                assert((37u8 as char) == '%');
            } else if c == '#' {
                assert(h =~= seq!['2', '3']);
                assert(hex_byte(h) == Some(35u8));
                assert((35u8 as char) == '#');
            } else if c == '&' {
                assert(h =~= seq!['2', '6']);
                assert(hex_byte(h) == Some(38u8));
                assert((38u8 as char) == '&');
            } else {
                assert(h =~= seq!['3', 'F']);
                assert(hex_byte(h) == Some(63u8));
                assert((63u8 as char) == '?');
            }
            assert(spec_urldecode(e) == seq![c] + spec_urldecode(er));
        } else {
            assert(e[0] == c);
            assert(e.drop_first() =~= er);
        }
        assert(seq![c] + rest =~= s);
    }
}

// ── Form bodies ──

/// The pieces of `s` between the separators `sep` (`str::split`): one
/// more than the separators, empty pieces included.
pub open spec fn split_pieces(s: Seq<char>, sep: char) -> Seq<Seq<char>>
    decreases s.len(),
{
    if s.len() == 0 {
        seq![Seq::empty()]
    } else {
        let init = split_pieces(s.drop_last(), sep);
        if s.last() == sep {
            init.push(Seq::empty())
        } else {
            init.update(init.len() - 1, init.last().push(s.last()))
        }
    }
}

/// A piece as key and value split at its first `=` (`str::split_once`).
pub open spec fn split_once_eq(p: Seq<char>) -> Option<(Seq<char>, Seq<char>)> {
    match index_of_from(p, '=', 0) {
        Some(i) => Some((p.take(i), p.skip(i + 1))),
        None => None,
    }
}

/// The key-value pairs of the pieces that hold an `=`, in order.
pub open spec fn pairs_of(pieces: Seq<Seq<char>>) -> Seq<(Seq<char>, Seq<char>)>
    decreases pieces.len(),
{
    if pieces.len() == 0 {
        Seq::empty()
    } else {
        let rest = pairs_of(pieces.drop_last());
        match split_once_eq(pieces.last()) {
            Some(kv) => rest.push(kv),
            None => rest,
        }
    }
}

/// The key-value pairs of a form body: its `&`-separated pieces split at
/// their first `=`; pieces without one are skipped. Nothing is decoded.
pub open spec fn spec_form_pairs(body: Seq<char>) -> Seq<(Seq<char>, Seq<char>)> {
    pairs_of(split_pieces(body, '&'))
}

/// Pairs of texts as pairs of character sequences.
pub open spec fn pair_views(v: Seq<(String, String)>) -> Seq<(Seq<char>, Seq<char>)> {
    Seq::new(v.len(), |i: int| (v[i].0@, v[i].1@))
}

proof fn lemma_split_pieces_len(s: Seq<char>, sep: char)
    ensures
        split_pieces(s, sep).len() >= 1,
    decreases s.len(),
{
    if s.len() > 0 {
        lemma_split_pieces_len(s.drop_last(), sep);
    }
}

fn split_once_exec(p: &Vec<char>) -> (r: Option<(String, String)>)
    ensures
        match r {
            Some((k, v)) => split_once_eq(p@) == Some((k@, v@)),
            None => split_once_eq(p@) is None,
        },
{
    match index_of(p, '=') {
        Some(i) => {
            let k = sub_vec(p, 0, i);
            let v = sub_vec(p, i + 1, p.len());
            assert(p@.subrange(0, i as int) =~= p@.take(i as int));
            assert(p@.subrange(i + 1, p.len() as int) =~= p@.skip(i + 1));
            Some((string_of(&k), string_of(&v)))
        },
        None => None,
    }
}

/// The key-value pairs of a form body (see `spec_form_pairs`).
pub fn form_pairs(body: &str) -> (r: Vec<(String, String)>)
    ensures
        pair_views(r@) == spec_form_pairs(body@),
{
    let v = chars_of(body);
    let mut out: Vec<(String, String)> = Vec::new();
    let mut cur: Vec<char> = Vec::new();
    let mut i: usize = 0;
    proof {
        lemma_split_pieces_len(v@.take(0), '&');
        assert(split_pieces(v@.take(0), '&') =~= seq![Seq::<char>::empty()]);
        assert(split_pieces(v@.take(0), '&').drop_last() =~= Seq::<Seq<char>>::empty());
    }
    while i < v.len()
        invariant
            i <= v.len(),
            split_pieces(v@.take(i as int), '&').len() >= 1,
            cur@ == split_pieces(v@.take(i as int), '&').last(),
            pair_views(out@) == pairs_of(split_pieces(v@.take(i as int), '&').drop_last()),
        decreases v.len() - i,
    {
        let ghost ps = split_pieces(v@.take(i as int), '&');
        assert(v@.take(i + 1).drop_last() =~= v@.take(i as int));
        let c = v[i];
        if c == '&' {
            let ghost before = out@;
            match split_once_exec(&cur) {
                Some(kv) => {
                    let ghost kvv = (kv.0@, kv.1@);
                    out.push(kv);
                    assert(pair_views(out@) =~= pair_views(before).push(kvv));
                },
                None => {},
            }
            let ghost nps = split_pieces(v@.take(i + 1), '&');
            assert(nps == ps.push(Seq::empty()));
            assert(nps.drop_last() =~= ps);
            assert(ps.drop_last().push(ps.last()) =~= ps);
            cur = Vec::new();
        } else {
            cur.push(c);
            let ghost nps = split_pieces(v@.take(i + 1), '&');
            assert(nps == ps.update(ps.len() - 1, ps.last().push(c)));
            assert(nps.drop_last() =~= ps.drop_last());
        }
        i = i + 1;
    }
    let ghost ps = split_pieces(v@.take(i as int), '&');
    assert(v@.take(v.len() as int) =~= v@);
    assert(ps.drop_last().push(ps.last()) =~= ps);
    let ghost before = out@;
    match split_once_exec(&cur) {
        Some(kv) => {
            let ghost kvv = (kv.0@, kv.1@);
            out.push(kv);
            assert(pair_views(out@) =~= pair_views(before).push(kvv));
        },
        None => {},
    }
    out
}

// ── Numbers in forms ──

/// The number that `usize::from_str` reads: an optional `+` and then one
/// or more ASCII digits, of a value that fits.
pub open spec fn spec_parse_usize(s: Seq<char>) -> Option<usize> {
    let d = if s.len() > 0 && s[0] == '+' {
        s.drop_first()
    } else {
        s
    };
    if d.len() > 0 && all_digits(d) && digits_value(d) <= usize::MAX {
        Some(digits_value(d) as usize)
    } else {
        None
    }
}

/// Reads a number as `usize::from_str` does.
pub fn parse_usize(s: &str) -> (r: Option<usize>)
    ensures
        r == spec_parse_usize(s@),
{
    let v = chars_of(s);
    let start: usize = if v.len() > 0 && v[0] == '+' {
        1
    } else {
        0
    };
    let d = sub_vec(&v, start, v.len());
    assert(v@ == s@);
    proof {
        if start == 1 {
            assert(v@.subrange(1, v.len() as int) =~= v@.drop_first());
        } else {
            assert(v@.subrange(0, v.len() as int) =~= v@);
        }
    }
    if d.len() == 0 {
        return None;
    }
    let mut val: usize = 0;
    let mut i: usize = 0;
    while i < d.len()
        invariant
            i <= d.len(),
            d.len() > 0,
            d@ == (if s@.len() > 0 && s@[0] == '+' {
                s@.drop_first()
            } else {
                s@
            }),
            all_digits(d@.take(i as int)),
            val == digits_value(d@.take(i as int)),
        decreases d.len() - i,
    {
        let c = d[i];
        if !((c as u32) >= 48 && (c as u32) <= 57) {
            assert(!is_digit(d@[i as int]));
            return None;
        }
        let ghost t = d@.take(i + 1);
        assert(t.drop_last() =~= d@.take(i as int));
        assert(digits_value(t) == digits_value(d@.take(i as int)) * 10 + digit_of(c));
        let dv = ((c as u32) - 48) as usize;
        if val > (usize::MAX - dv) / 10 {
            // The value no longer fits; the rest must still be digits.
            proof {
                assert(digits_value(t) > usize::MAX) by (nonlinear_arith)
                    requires
                        val > (usize::MAX - dv) / 10,
                        digits_value(t) == val * 10 + dv,
                        dv <= 9,
                ;
            }
            let mut j: usize = i + 1;
            while j < d.len()
                invariant
                    i < j <= d.len(),
                    d@ == (if s@.len() > 0 && s@[0] == '+' {
                        s@.drop_first()
                    } else {
                        s@
                    }),
                    all_digits(d@.take(j as int)),
                    digits_value(d@.take(i + 1)) > usize::MAX,
                decreases d.len() - j,
            {
                let c2 = d[j];
                if !((c2 as u32) >= 48 && (c2 as u32) <= 57) {
                    assert(!is_digit(d@[j as int]));
                    return None;
                }
                assert(d@.take(j + 1).drop_last() =~= d@.take(j as int));
                j = j + 1;
            }
            proof {
                assert(d@.take(d.len() as int) =~= d@);
                assert(d@.take(i + 1) =~= d@.take(d.len() as int).take(i + 1));
                lemma_digits_value_prefix(d@, i + 1);
            }
            return None;
        }
        proof {
            assert(val * 10 + dv <= usize::MAX) by (nonlinear_arith)
                requires
                    val <= (usize::MAX - dv) / 10,
                    dv <= 9,
            ;
        }
        val = val * 10 + dv;
        i = i + 1;
    }
    assert(d@.take(d.len() as int) =~= d@);
    Some(val)
}

// ── Ids in forms ──

/// The UUID that `uuid::Uuid::parse_str` reads from the text, as its
/// 128-bit value, or `None` when it refuses the text.
pub uninterp spec fn uuid_parse(s: Seq<char>) -> Option<u128>;

/// Reads a UUID with `uuid::Uuid::parse_str` (which `str::parse` calls for
/// `Uuid`), giving its 128-bit value. The contract names the result.
#[verifier::external_body]
pub(crate) fn parse_uuid(s: &str) -> (r: Option<u128>)
    ensures
        r == uuid_parse(s@),
{
    uuid::Uuid::parse_str(s).ok().map(|u| u.as_u128())
}

/// Form fields as key and parsed id.
pub open spec fn field_views(v: Seq<(String, Option<u128>)>) -> Seq<(Seq<char>, Option<u128>)> {
    Seq::new(v.len(), |i: int| (v[i].0@, v[i].1))
}

/// The fields of a form body with their values read as UUIDs.
pub open spec fn spec_id_fields(body: Seq<char>) -> Seq<(Seq<char>, Option<u128>)> {
    let ps = spec_form_pairs(body);
    Seq::new(ps.len(), |i: int| (ps[i].0, uuid_parse(ps[i].1)))
}

/// The fields of a form body, each value read as a UUID.
pub fn id_fields(body: &str) -> (r: Vec<(String, Option<u128>)>)
    ensures
        field_views(r@) == spec_id_fields(body@),
{
    let pairs = form_pairs(body);
    let ghost ps = spec_form_pairs(body@);
    let mut out: Vec<(String, Option<u128>)> = Vec::new();
    let mut i: usize = 0;
    while i < pairs.len()
        invariant
            i <= pairs.len(),
            pair_views(pairs@) == ps,
            field_views(out@) == Seq::new(ps.len(), |j: int| (ps[j].0, uuid_parse(ps[j].1))).take(
                i as int,
            ),
        decreases pairs.len() - i,
    {
        let id = parse_uuid(pairs[i].1.as_str());
        let ghost before = out@;
        let f = (pairs[i].0.clone(), id);
        let ghost fv = (f.0@, f.1);
        out.push(f);
        assert(field_views(out@) =~= field_views(before).push(fv));
        assert(field_views(out@) =~= Seq::new(
            ps.len(),
            |j: int| (ps[j].0, uuid_parse(ps[j].1)),
        ).take(i + 1));
        i = i + 1;
    }
    assert(Seq::new(ps.len(), |j: int| (ps[j].0, uuid_parse(ps[j].1))).take(pairs.len() as int)
        =~= spec_id_fields(body@));
    out
}

/// Reading the link form, from the fields `fs` on, with the outgoing id
/// and reconciled ids found so far: `outgoing_id` sets the outgoing id and
/// `reconciled_ids` adds a reconciled id; a value that is no UUID ends the
/// reading with an error.
pub open spec fn link_scan(fs: Seq<(Seq<char>, Option<u128>)>, o: Option<u128>, rs: Seq<u128>) -> Result<
    (Option<u128>, Seq<u128>),
    Seq<char>,
>
    decreases fs.len(),
{
    if fs.len() == 0 {
        Ok((o, rs))
    } else {
        let (k, p) = fs[0];
        if k == "outgoing_id"@ {
            match p {
                Some(id) => link_scan(fs.drop_first(), Some(id), rs),
                None => Err("Invalid outgoing ID"@),
            }
        } else if k == "reconciled_ids"@ {
            match p {
                Some(id) => link_scan(fs.drop_first(), o, rs.push(id)),
                None => Err("Invalid reconciled ID"@),
            }
        } else {
            link_scan(fs.drop_first(), o, rs)
        }
    }
}

/// What the link form asks for: an outgoing id and at least one
/// reconciled id, or the message of the error.
pub open spec fn link_request(fs: Seq<(Seq<char>, Option<u128>)>) -> Result<(u128, Seq<u128>), Seq<char>> {
    match link_scan(fs, None, Seq::empty()) {
        Err(m) => Err(m),
        Ok((None, _)) => Err("No outgoing selected"@),
        Ok((Some(o), rs)) => if rs.len() == 0 {
            Err("No reconciled transaction selected"@)
        } else {
            Ok((o, rs))
        },
    }
}

/// Interprets the fields of the link form (see `link_request`); errors are
/// bad requests.
pub fn interpret_link_form(fields: &Vec<(String, Option<u128>)>) -> (r: Result<
    (u128, Vec<u128>),
    AppError,
>)
    ensures
        match link_request(field_views(fields@)) {
            Ok((o, rs)) => r matches Ok((o2, v)) && o2 == o && v@ == rs,
            Err(m) => r matches Err(e) && is_bad_request(e, m),
        },
{
    let ghost fs = field_views(fields@);
    let k_out = chars_of("outgoing_id");
    let k_rec = chars_of("reconciled_ids");
    let mut outgoing: Option<u128> = None;
    let mut recs: Vec<u128> = Vec::new();
    let mut i: usize = 0;
    assert(fs.subrange(0, fs.len() as int) =~= fs);
    while i < fields.len()
        invariant
            i <= fields.len(),
            fs == field_views(fields@),
            k_out@ == "outgoing_id"@,
            k_rec@ == "reconciled_ids"@,
            link_scan(fs, None, Seq::empty()) == link_scan(
                fs.subrange(i as int, fs.len() as int),
                outgoing,
                recs@,
            ),
        decreases fields.len() - i,
    {
        let ghost rest = fs.subrange(i as int, fs.len() as int);
        assert(rest[0] == fs[i as int]);
        assert(rest.drop_first() =~= fs.subrange(i + 1, fs.len() as int));
        let key = chars_of(fields[i].0.as_str());
        if chars_eq(&key, &k_out) {
            match fields[i].1 {
                Some(id) => {
                    outgoing = Some(id);
                },
                None => {
                    return Err(AppError::BadRequest("Invalid outgoing ID".to_owned()));
                },
            }
        } else if chars_eq(&key, &k_rec) {
            match fields[i].1 {
                Some(id) => {
                    recs.push(id);
                },
                None => {
                    return Err(AppError::BadRequest("Invalid reconciled ID".to_owned()));
                },
            }
        }
        i = i + 1;
    }
    match outgoing {
        None => Err(AppError::BadRequest("No outgoing selected".to_owned())),
        Some(o) => {
            if recs.len() == 0 {
                Err(AppError::BadRequest("No reconciled transaction selected".to_owned()))
            } else {
                Ok((o, recs))
            }
        },
    }
}

/// Reads the body of the link form (see `interpret_link_form`).
pub fn parse_link_form(body: &str) -> (r: Result<(u128, Vec<u128>), AppError>)
    ensures
        match link_request(spec_id_fields(body@)) {
            Ok((o, rs)) => r matches Ok((o2, v)) && o2 == o && v@ == rs,
            Err(m) => r matches Err(e) && is_bad_request(e, m),
        },
{
    interpret_link_form(&id_fields(body))
}

/// A proposal form as read: the outgoing id (the last `outgoing_id`
/// field's value, if it is a UUID), the reconciled ids and the ids to
/// skip (the `reconciled_ids` and `skip_ids` values that are UUIDs).
pub struct ProposalForm {
    pub outgoing_id: Option<u128>,
    pub reconciled_ids: Vec<u128>,
    pub skip_ids: Vec<u128>,
}

/// Reading a proposal form from the fields `fs` on.
pub open spec fn proposal_scan(
    fs: Seq<(Seq<char>, Option<u128>)>,
    o: Option<u128>,
    rs: Seq<u128>,
    ss: Seq<u128>,
) -> (Option<u128>, Seq<u128>, Seq<u128>)
    decreases fs.len(),
{
    if fs.len() == 0 {
        (o, rs, ss)
    } else {
        let (k, p) = fs[0];
        let rest = fs.drop_first();
        if k == "outgoing_id"@ {
            proposal_scan(rest, p, rs, ss)
        } else if k == "reconciled_ids"@ {
            match p {
                Some(id) => proposal_scan(rest, o, rs.push(id), ss),
                None => proposal_scan(rest, o, rs, ss),
            }
        } else if k == "skip_ids"@ {
            match p {
                Some(id) => proposal_scan(rest, o, rs, ss.push(id)),
                None => proposal_scan(rest, o, rs, ss),
            }
        } else {
            proposal_scan(rest, o, rs, ss)
        }
    }
}

/// Interprets the fields of a proposal form (see `proposal_scan`).
pub fn interpret_proposal_form(fields: &Vec<(String, Option<u128>)>) -> (r: ProposalForm)
    ensures
        proposal_scan(field_views(fields@), None, Seq::empty(), Seq::empty()) == (
        r.outgoing_id,
        r.reconciled_ids@,
        r.skip_ids@,
        ),
{
    let ghost fs = field_views(fields@);
    let k_out = chars_of("outgoing_id");
    let k_rec = chars_of("reconciled_ids");
    let k_skip = chars_of("skip_ids");
    let mut outgoing: Option<u128> = None;
    let mut recs: Vec<u128> = Vec::new();
    let mut skips: Vec<u128> = Vec::new();
    let mut i: usize = 0;
    assert(fs.subrange(0, fs.len() as int) =~= fs);
    while i < fields.len()
        invariant
            i <= fields.len(),
            fs == field_views(fields@),
            k_out@ == "outgoing_id"@,
            k_rec@ == "reconciled_ids"@,
            k_skip@ == "skip_ids"@,
            proposal_scan(fs, None, Seq::empty(), Seq::empty()) == proposal_scan(
                fs.subrange(i as int, fs.len() as int),
                outgoing,
                recs@,
                skips@,
            ),
        decreases fields.len() - i,
    {
        let ghost rest = fs.subrange(i as int, fs.len() as int);
        assert(rest[0] == fs[i as int]);
        assert(rest.drop_first() =~= fs.subrange(i + 1, fs.len() as int));
        let key = chars_of(fields[i].0.as_str());
        if chars_eq(&key, &k_out) {
            outgoing = fields[i].1;
        } else if chars_eq(&key, &k_rec) {
            if let Some(id) = fields[i].1 {
                recs.push(id);
            }
        } else if chars_eq(&key, &k_skip) {
            if let Some(id) = fields[i].1 {
                skips.push(id);
            }
        }
        i = i + 1;
    }
    ProposalForm { outgoing_id: outgoing, reconciled_ids: recs, skip_ids: skips }
}

/// The ids to skip after confirming a proposal: the submitted ones, then
/// the confirmed outgoing id when there is one.
pub fn skip_ids_after_confirm(form: &ProposalForm) -> (r: Vec<u128>)
    ensures
        r@ == match form.outgoing_id {
            Some(o) => form.skip_ids@.push(o),
            None => form.skip_ids@,
        },
{
    let mut out: Vec<u128> = Vec::new();
    let mut i: usize = 0;
    while i < form.skip_ids.len()
        invariant
            i <= form.skip_ids.len(),
            out@ == form.skip_ids@.take(i as int),
        decreases form.skip_ids.len() - i,
    {
        out.push(form.skip_ids[i]);
        assert(out@ =~= form.skip_ids@.take(i + 1));
        i = i + 1;
    }
    assert(form.skip_ids@.take(form.skip_ids.len() as int) =~= form.skip_ids@);
    if let Some(o) = form.outgoing_id {
        out.push(o);
    }
    out
}

/// The ids to skip after rejecting a proposal: the submitted ones, then
/// the rejected outgoing id when there is one (the last `outgoing_id`
/// value that is a UUID).
pub fn skip_ids_after_reject(fields: &Vec<(String, Option<u128>)>) -> (r: Vec<u128>)
    ensures
        r@ == reject_skips(field_views(fields@), None, Seq::empty()),
{
    let ghost fs = field_views(fields@);
    let k_out = chars_of("outgoing_id");
    let k_skip = chars_of("skip_ids");
    let mut rejected: Option<u128> = None;
    let mut skips: Vec<u128> = Vec::new();
    let mut i: usize = 0;
    assert(fs.subrange(0, fs.len() as int) =~= fs);
    while i < fields.len()
        invariant
            i <= fields.len(),
            fs == field_views(fields@),
            k_out@ == "outgoing_id"@,
            k_skip@ == "skip_ids"@,
            reject_skips(fs, None, Seq::empty()) == reject_skips(
                fs.subrange(i as int, fs.len() as int),
                rejected,
                skips@,
            ),
        decreases fields.len() - i,
    {
        let ghost rest = fs.subrange(i as int, fs.len() as int);
        assert(rest[0] == fs[i as int]);
        assert(rest.drop_first() =~= fs.subrange(i + 1, fs.len() as int));
        let key = chars_of(fields[i].0.as_str());
        if chars_eq(&key, &k_out) {
            if let Some(id) = fields[i].1 {
                rejected = Some(id);
            }
        } else if chars_eq(&key, &k_skip) {
            if let Some(id) = fields[i].1 {
                skips.push(id);
            }
        }
        i = i + 1;
    }
    if let Some(id) = rejected {
        skips.push(id);
    }
    skips
}

/// The ids to skip after rejecting, from the fields `fs` on.
pub open spec fn reject_skips(fs: Seq<(Seq<char>, Option<u128>)>, rej: Option<u128>, ss: Seq<u128>) -> Seq<
    u128,
>
    decreases fs.len(),
{
    if fs.len() == 0 {
        match rej {
            Some(id) => ss.push(id),
            None => ss,
        }
    } else {
        let (k, p) = fs[0];
        let rest = fs.drop_first();
        if k == "outgoing_id"@ && p is Some {
            reject_skips(rest, p, ss)
        } else if k == "skip_ids"@ && p is Some {
            reject_skips(rest, rej, ss.push(p.unwrap()))
        } else {
            reject_skips(rest, rej, ss)
        }
    }
}

/// The `skip_ids` values that are UUIDs other than `except`, in order.
pub open spec fn kept_skips(fs: Seq<(Seq<char>, Option<u128>)>, except: Option<u128>) -> Seq<u128>
    decreases fs.len(),
{
    if fs.len() == 0 {
        Seq::empty()
    } else {
        let rest = kept_skips(fs.drop_last(), except);
        let (k, p) = fs.last();
        if k == "skip_ids"@ && p is Some && p != except {
            rest.push(p.unwrap())
        } else {
            rest
        }
    }
}

/// The `skip_ids` values that are UUIDs, leaving out `except` when given
/// (undoing the rejection of that outgoing transaction).
pub fn skip_ids_except(fields: &Vec<(String, Option<u128>)>, except: Option<u128>) -> (r: Vec<u128>)
    ensures
        r@ == kept_skips(field_views(fields@), except),
{
    let ghost fs = field_views(fields@);
    let k_skip = chars_of("skip_ids");
    let mut skips: Vec<u128> = Vec::new();
    let mut i: usize = 0;
    while i < fields.len()
        invariant
            i <= fields.len(),
            fs == field_views(fields@),
            k_skip@ == "skip_ids"@,
            skips@ == kept_skips(fs.take(i as int), except),
        decreases fields.len() - i,
    {
        assert(fs.take(i + 1).drop_last() =~= fs.take(i as int));
        let key = chars_of(fields[i].0.as_str());
        if chars_eq(&key, &k_skip) {
            if let Some(id) = fields[i].1 {
                let keep = match except {
                    Some(x) => id != x,
                    None => true,
                };
                if keep {
                    skips.push(id);
                }
            }
        }
        i = i + 1;
    }
    assert(fs.take(fields.len() as int) =~= fs);
    skips
}

// ── The CSV import form ──

/// Reading the import form from the fields `fs` on (values decoded): the
/// temporary file id, the date, amount and vendor columns and the date
/// format. An empty vendor value leaves the vendor column as it was.
pub open spec fn import_scan(
    fs: Seq<(Seq<char>, Seq<char>)>,
    tmp: Seq<char>,
    d: Option<usize>,
    a: Option<usize>,
    v: Option<usize>,
    f: Seq<char>,
) -> (Seq<char>, Option<usize>, Option<usize>, Option<usize>, Seq<char>)
    decreases fs.len(),
{
    if fs.len() == 0 {
        (tmp, d, a, v, f)
    } else {
        let (k, raw) = fs[0];
        let val = spec_urldecode(raw);
        let rest = fs.drop_first();
        if k == "tmp_id"@ {
            import_scan(rest, val, d, a, v, f)
        } else if k == "date_col"@ {
            import_scan(rest, tmp, spec_parse_usize(val), a, v, f)
        } else if k == "amount_col"@ {
            import_scan(rest, tmp, d, spec_parse_usize(val), v, f)
        } else if k == "vendor_col"@ && val.len() > 0 {
            import_scan(rest, tmp, d, a, spec_parse_usize(val), f)
        } else if k == "date_format"@ {
            import_scan(rest, tmp, d, a, v, val)
        } else {
            import_scan(rest, tmp, d, a, v, f)
        }
    }
}

/// What the import form asks for: the temporary file id and the column
/// mapping (the date format `%Y-%m-%d` when none is given), or the message
/// of the error for a missing date or amount column.
pub open spec fn import_request(fs: Seq<(Seq<char>, Seq<char>)>, r: Result<(String, ColumnMapping), AppError>) -> bool {
    let (tmp, d, a, v, f) = import_scan(fs, Seq::empty(), None, None, None, Seq::empty());
    match (d, a) {
        (None, _) => r matches Err(e) && is_bad_request(e, "Missing date_col"@),
        (Some(_), None) => r matches Err(e) && is_bad_request(e, "Missing amount_col"@),
        (Some(dc), Some(ac)) => r matches Ok((t, m)) && t@ == tmp && m.date_col == dc && m.amount_col
            == ac && m.vendor_col == v && m.date_format@ == if f.len() == 0 {
            "%Y-%m-%d"@
        } else {
            f
        },
    }
}

/// Reads the body of the CSV import form (see `import_request`).
pub fn parse_import_form(body: &str) -> (r: Result<(String, ColumnMapping), AppError>)
    ensures
        import_request(spec_form_pairs(body@), r),
{
    let pairs = form_pairs(body);
    let ghost fs = spec_form_pairs(body@);
    let k_tmp = chars_of("tmp_id");
    let k_date = chars_of("date_col");
    let k_amount = chars_of("amount_col");
    let k_vendor = chars_of("vendor_col");
    let k_format = chars_of("date_format");
    let mut tmp = String::new();
    let mut date_col: Option<usize> = None;
    let mut amount_col: Option<usize> = None;
    let mut vendor_col: Option<usize> = None;
    let mut date_format: Vec<char> = Vec::new();
    let mut i: usize = 0;
    assert(fs.subrange(0, fs.len() as int) =~= fs);
    while i < pairs.len()
        invariant
            i <= pairs.len(),
            pair_views(pairs@) == fs,
            k_tmp@ == "tmp_id"@,
            k_date@ == "date_col"@,
            k_amount@ == "amount_col"@,
            k_vendor@ == "vendor_col"@,
            k_format@ == "date_format"@,
            import_scan(fs, Seq::empty(), None, None, None, Seq::empty()) == import_scan(
                fs.subrange(i as int, fs.len() as int),
                tmp@,
                date_col,
                amount_col,
                vendor_col,
                date_format@,
            ),
        decreases pairs.len() - i,
    {
        let ghost rest = fs.subrange(i as int, fs.len() as int);
        assert(rest[0] == fs[i as int]);
        assert(rest.drop_first() =~= fs.subrange(i + 1, fs.len() as int));
        let key = chars_of(pairs[i].0.as_str());
        let val = urldecode(pairs[i].1.as_str());
        let val_chars = chars_of(val.as_str());
        if chars_eq(&key, &k_tmp) {
            tmp = val;
        } else if chars_eq(&key, &k_date) {
            date_col = parse_usize(val.as_str());
        } else if chars_eq(&key, &k_amount) {
            amount_col = parse_usize(val.as_str());
        } else if chars_eq(&key, &k_vendor) && val_chars.len() > 0 {
            vendor_col = parse_usize(val.as_str());
        } else if chars_eq(&key, &k_format) {
            date_format = val_chars;
        }
        i = i + 1;
    }
    let date_col = match date_col {
        Some(d) => d,
        None => {
            return Err(AppError::BadRequest("Missing date_col".to_owned()));
        },
    };
    let amount_col = match amount_col {
        Some(a) => a,
        None => {
            return Err(AppError::BadRequest("Missing amount_col".to_owned()));
        },
    };
    let fmt = if date_format.len() == 0 {
        "%Y-%m-%d".to_owned()
    } else {
        string_of(&date_format)
    };
    Ok((tmp, ColumnMapping { date_col, amount_col, vendor_col, date_format: fmt }))
}

} // verus!
