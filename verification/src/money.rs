//! Money amounts held as whole cents: parsing user-entered amounts
//! ("$1,234.56", "(12.00)", "-5") and formatting cents for display.

use vstd::prelude::*;
use crate::digits::{
    all_digits, decimal, digit_char, digit_end, digit_of, digits_value, find_digit_end, is_digit,
    lemma_digit_end, lemma_digits_value_bound, lemma_digits_value_concat,
    lemma_digits_value_leading, lemma_digits_value_nonzero, lemma_digits_value_prefix,
    lemma_digits_value_zero, lemma_pow10_add, lemma_pow10_mono, lemma_pow10_pos, pow10,
};
use crate::digits::{digit_to_char, lemma_decimal, lemma_digit_char, lemma_digit_end_at, push_decimal};
use crate::text::{
    chars_of, extend_chars, is_whitespace, is_ws, lemma_trim_ends, lemma_trim_no_ws_ends, string_of, sub_vec, trim,
    trimmed_chars,
};

verus! {

pub const I64_MAX: i64 = 9223372036854775807;

/// `x` capped at the largest `i64`.
pub open spec fn sat(x: int) -> int {
    if x > i64::MAX {
        i64::MAX as int
    } else {
        x
    }
}

// ── The decimal literal grammar that `f64::from_str` accepts ──

/// Whether `c` equals the lowercase ASCII letter `l` up to ASCII case.
pub open spec fn ci_char(c: char, l: char) -> bool {
    c == l || (c as u32) + 32 == (l as u32)
}

/// Whether `s` equals the lowercase ASCII word `w` up to ASCII case.
pub open spec fn ci_eq(s: Seq<char>, w: Seq<char>) -> bool {
    s.len() == w.len() && forall|i: int| 0 <= i < s.len() ==> ci_char(#[trigger] s[i], w[i])
}

/// The shape of a finite decimal literal `DIGITS [. DIGITS] [(e|E) [+|-] DIGITS]`
/// occupying all of `b`: the end of the integer digits, the bounds of the
/// fraction digits, the exponent's sign and the bounds of its digits.
/// At least one integer or fraction digit is needed, and an exponent
/// marker must be followed by at least one digit.
pub open spec fn number_shape(b: Seq<char>) -> Option<(int, int, int, bool, int, int)> {
    let i1 = digit_end(b, 0);
    let has_dot = i1 < b.len() && b[i1] == '.';
    let f0 = if has_dot {
        i1 + 1
    } else {
        i1
    };
    let f1 = if has_dot {
        digit_end(b, i1 + 1)
    } else {
        i1
    };
    if i1 + (f1 - f0) == 0 {
        None
    } else if f1 == b.len() {
        Some((i1, f0, f1, false, f1, f1))
    } else if b[f1] == 'e' || b[f1] == 'E' {
        let e0 = f1 + 1;
        let has_sign = e0 < b.len() && (b[e0] == '+' || b[e0] == '-');
        let d0 = if has_sign {
            e0 + 1
        } else {
            e0
        };
        let d1 = digit_end(b, d0);
        if d0 < d1 && d1 == b.len() {
            Some((i1, f0, f1, has_sign && b[e0] == '-', d0, d1))
        } else {
            None
        }
    } else {
        None
    }
}

/// A literal accepted by `f64::from_str`.
pub enum FloatLit {
    Finite {
        negative: bool,
        int_digits: Seq<char>,
        frac_digits: Seq<char>,
        exp_negative: bool,
        exp_digits: Seq<char>,
    },
    Infinite { negative: bool },
    NotANumber,
}

/// The text of a literal once its optional leading sign is removed.
pub open spec fn unsigned_part(s: Seq<char>) -> Seq<char> {
    if s.len() > 0 && (s[0] == '+' || s[0] == '-') {
        s.drop_first()
    } else {
        s
    }
}

/// The literal written by `s`, if `f64::from_str` accepts it: an optional
/// sign, then a decimal number or one of the words `inf`, `infinity`,
/// `nan` in any ASCII case.
pub open spec fn float_lit(s: Seq<char>) -> Option<FloatLit> {
    let negative = s.len() > 0 && s[0] == '-';
    let b = unsigned_part(s);
    if b.len() == 0 {
        None
    } else {
        match number_shape(b) {
            Some((i1, f0, f1, en, d0, d1)) => Some(
                FloatLit::Finite {
                    negative,
                    int_digits: b.subrange(0, i1),
                    frac_digits: b.subrange(f0, f1),
                    exp_negative: en,
                    exp_digits: b.subrange(d0, d1),
                },
            ),
            None => if ci_eq(b, seq!['i', 'n', 'f']) || ci_eq(
                b,
                seq!['i', 'n', 'f', 'i', 'n', 'i', 't', 'y'],
            ) {
                Some(FloatLit::Infinite { negative })
            } else if ci_eq(b, seq!['n', 'a', 'n']) {
                Some(FloatLit::NotANumber)
            } else {
                None
            },
        }
    }
}

/// `m * 10^k` rounded to a whole number, halves away from zero.
pub open spec fn scaled_round(m: nat, k: int) -> nat {
    if k >= 0 {
        m * pow10(k as nat)
    } else {
        let q = pow10((-k) as nat);
        m / q + (if (m % q) * 2 >= q {
            1nat
        } else {
            0nat
        })
    }
}

/// The value of the literal times 100, rounded halves away from zero and
/// clamped to the `i64` range; infinities clamp and NaN gives 0.
pub open spec fn lit_cents(lit: FloatLit) -> int {
    match lit {
        FloatLit::Finite { negative, int_digits, frac_digits, exp_negative, exp_digits } => {
            let e = if exp_negative {
                -digits_value(exp_digits)
            } else {
                digits_value(exp_digits) as int
            };
            let r = scaled_round(digits_value(int_digits + frac_digits), e - frac_digits.len() + 2);
            if negative {
                if r > 0x8000_0000_0000_0000 {
                    i64::MIN as int
                } else {
                    -r
                }
            } else {
                sat(r as int)
            }
        },
        FloatLit::Infinite { negative } => if negative {
            i64::MIN as int
        } else {
            i64::MAX as int
        },
        FloatLit::NotANumber => 0,
    }
}

// ── Amount text ──

/// Characters that `parse_dollars` discards before reading the number.
pub open spec fn dollar_noise(c: char) -> bool {
    is_ws(c) || c == ',' || c == '$' || (c as u32) == 0x20ac || (c as u32) == 0xa3 || c == '('
        || c == ')' || c == '-'
}

/// `s` without the characters that `parse_dollars` discards.
pub open spec fn strip_dollar_noise(s: Seq<char>) -> Seq<char>
    decreases s.len(),
{
    if s.len() == 0 {
        s
    } else if dollar_noise(s.last()) {
        strip_dollar_noise(s.drop_last())
    } else {
        strip_dollar_noise(s.drop_last()).push(s.last())
    }
}

/// Whether a trimmed amount is negative: written in accounting parentheses
/// or with a leading minus.
pub open spec fn amount_is_negative(t: Seq<char>) -> bool {
    t.len() > 0 && ((t[0] == '(' && t.last() == ')') || t[0] == '-')
}

/// What `parse_dollars` gives for `s`: the amount in cents, or the error
/// message.
pub open spec fn spec_parse_dollars(s: Seq<char>) -> Result<int, Seq<char>> {
    let t = trim(s);
    if t.len() == 0 {
        Err("Invalid amount: (empty)"@)
    } else {
        match float_lit(strip_dollar_noise(t)) {
            None => Err("Invalid amount: "@ + t),
            Some(lit) => {
                let c = lit_cents(lit);
                Ok(
                    if amount_is_negative(t) {
                        -c
                    } else {
                        c
                    },
                )
            },
        }
    }
}

// ── Formatting ──

/// A digit string with a comma before every group of three digits,
/// counting from the right.
pub open spec fn group3(d: Seq<char>) -> Seq<char>
    decreases d.len(),
{
    if d.len() <= 3 {
        d
    } else {
        group3(d.subrange(0, d.len() - 3)) + seq![','] + d.subrange(d.len() - 3, d.len() as int)
    }
}

/// The absolute value of `n`.
pub open spec fn abs(n: int) -> nat {
    if n < 0 {
        (-n) as nat
    } else {
        n as nat
    }
}

/// What `format_with_commas` gives for `n`: its magnitude, grouped.
pub open spec fn spec_with_commas(n: int) -> Seq<char> {
    group3(decimal(abs(n)))
}

/// Two digits for a number below 100, zero-padded.
pub open spec fn two_digits(r: nat) -> Seq<char> {
    seq![digit_char(r / 10), digit_char(r % 10)]
}

/// What `format_cents` gives for `c`: sign, `$`, grouped dollars, `.`,
/// two-digit cents.
pub open spec fn spec_format_cents(c: int) -> Seq<char> {
    let a = abs(c);
    (if c < 0 {
        seq!['-']
    } else {
        Seq::<char>::empty()
    }) + seq!['$'] + group3(decimal(a / 100)) + seq!['.'] + two_digits(a % 100)
}

// ── Executable parsing ──

/// Removes the characters that `parse_dollars` discards.
fn strip_dollar_noise_exec(t: &Vec<char>) -> (out: Vec<char>)
    ensures
        out@ == strip_dollar_noise(t@),
{
    let mut out: Vec<char> = Vec::new();
    let mut i: usize = 0;
    while i < t.len()
        invariant
            i <= t.len(),
            out@ == strip_dollar_noise(t@.take(i as int)),
        decreases t.len() - i,
    {
        let c = t[i];
        let u = c as u32;
        proof {
            assert(t@.take(i + 1).drop_last() =~= t@.take(i as int));
            assert(t@.take(i + 1).last() == c);
        }
        if !(is_whitespace(c) || c == ',' || c == '$' || u == 0x20ac || u == 0xa3 || c == '('
            || c == ')' || c == '-') {
            out.push(c);
        }
        i = i + 1;
    }
    proof {
        assert(t@.take(t.len() as int) =~= t@);
    }
    out
}

/// Whether `s` equals the lowercase ASCII word `w` up to ASCII case.
fn ci_equals(s: &Vec<char>, w: &Vec<char>) -> (r: bool)
    ensures
        r == ci_eq(s@, w@),
{
    if s.len() != w.len() {
        return false;
    }
    let mut i: usize = 0;
    while i < s.len()
        invariant
            i <= s.len() == w.len(),
            forall|j: int| 0 <= j < i ==> ci_char(#[trigger] s@[j], w@[j]),
        decreases s.len() - i,
    {
        let c = s[i];
        let l = w[i];
        if !(c == l || ((l as u32) >= 32 && (c as u32) == (l as u32) - 32)) {
            assert(!ci_char(s@[i as int], w@[i as int]));
            return false;
        }
        i = i + 1;
    }
    true
}

/// The shape of a finite decimal literal occupying all of `b`.
fn scan_number(b: &Vec<char>) -> (r: Option<(usize, usize, usize, bool, usize, usize)>)
    ensures
        match number_shape(b@) {
            None => r is None,
            Some((i1, f0, f1, en, d0, d1)) => r matches Some((x1, y0, y1, xe, z0, z1)) && x1
                == i1 && y0 == f0 && y1 == f1 && xe == en && z0 == d0 && z1 == d1,
        },
{
    let i1 = find_digit_end(b, 0);
    proof {
        lemma_digit_end(b@, 0);
    }
    let has_dot = i1 < b.len() && b[i1] == '.';
    let f0 = if has_dot {
        i1 + 1
    } else {
        i1
    };
    let f1 = if has_dot {
        find_digit_end(b, i1 + 1)
    } else {
        i1
    };
    proof {
        if has_dot {
            lemma_digit_end(b@, i1 + 1);
        }
    }
    if i1 + (f1 - f0) == 0 {
        None
    } else if f1 == b.len() {
        Some((i1, f0, f1, false, f1, f1))
    } else if b[f1] == 'e' || b[f1] == 'E' {
        let e0 = f1 + 1;
        let has_sign = e0 < b.len() && (b[e0] == '+' || b[e0] == '-');
        let d0 = if has_sign {
            e0 + 1
        } else {
            e0
        };
        let d1 = find_digit_end(b, d0);
        if d0 < d1 && d1 == b.len() {
            Some((i1, f0, f1, has_sign && b[e0] == '-', d0, d1))
        } else {
            None
        }
    } else {
        None
    }
}

/// A cap on exponents, far beyond any length a vector can have.
pub open spec fn exp_cap() -> nat {
    0x4_0000_0000_0000_0000
}

/// The value of the digits `d[lo..hi]`, capped at `exp_cap()`.
fn capped_value(d: &Vec<char>, lo: usize, hi: usize) -> (r: u128)
    requires
        lo <= hi <= d.len(),
        all_digits(d@.subrange(lo as int, hi as int)),
    ensures
        r == if digits_value(d@.subrange(lo as int, hi as int)) >= exp_cap() {
            exp_cap()
        } else {
            digits_value(d@.subrange(lo as int, hi as int))
        },
{
    let cap: u128 = 0x4_0000_0000_0000_0000;
    let mut acc: u128 = 0;
    let mut i = lo;
    while i < hi
        invariant
            lo <= i <= hi <= d.len(),
            all_digits(d@.subrange(lo as int, hi as int)),
            acc == digits_value(d@.subrange(lo as int, i as int)),
            acc < cap,
            cap == exp_cap(),
        decreases hi - i,
    {
        let ghost seg = d@.subrange(lo as int, hi as int);
        proof {
            assert(seg[i - lo] == d@[i as int]);
            assert(is_digit(seg[i - lo]));
            assert(d@.subrange(lo as int, i + 1).drop_last() =~= d@.subrange(lo as int, i as int));
            assert(d@.subrange(lo as int, i + 1).last() == d@[i as int]);
        }
        let next = acc * 10 + ((d[i] as u32) - 48) as u128;
        if next >= cap {
            proof {
                lemma_digits_value_prefix(seg, i + 1 - lo);
                assert(seg.take(i + 1 - lo) =~= d@.subrange(lo as int, i + 1));
            }
            return cap;
        }
        acc = next;
        i = i + 1;
    }
    acc
}

pub proof fn lemma_scaled_zero(k: int)
    ensures
        scaled_round(0, k) == 0,
{
    if k >= 0 {
        assert(0 * pow10(k as nat) == 0);
    } else {
        let q = pow10((-k) as nat);
        lemma_pow10_pos((-k) as nat);
        assert(0nat / q == 0) by (nonlinear_arith)
            requires
                q >= 1,
        ;
        assert(0nat % q == 0) by (nonlinear_arith)
            requires
                q >= 1,
        ;
    }
}

pub proof fn lemma_scaled_big(m: nat, k: int)
    requires
        m >= 1,
        k >= 19,
    ensures
        scaled_round(m, k) > i64::MAX,
{
    lemma_pow10_mono(19, k as nat);
    reveal_with_fuel(pow10, 20);
    assert(pow10(19) == 10000000000000000000nat);
    let p = pow10(k as nat);
    assert(m * p >= p) by (nonlinear_arith)
        requires
            m >= 1,
    ;
}

pub proof fn lemma_scaled_small(d: Seq<char>, k: int)
    requires
        all_digits(d),
        -k > d.len(),
    ensures
        scaled_round(digits_value(d), k) == 0,
{
    let m = digits_value(d);
    let j = (-k) as nat;
    let q = pow10(j);
    lemma_digits_value_bound(d);
    lemma_pow10_mono(d.len() + 1, j);
    assert(pow10(d.len() + 1) == 10 * pow10(d.len()));
    assert(m / q == 0 && m % q == m) by {
        vstd::arithmetic::div_mod::lemma_fundamental_div_mod_converse(m as int, q as int, 0, m as int);
    }
}

/// The value of the first `p` digits of `d`, or `None` once it passes the
/// largest `i64`.
fn prefix_value(d: &Vec<char>, p: usize) -> (r: Option<u64>)
    requires
        p <= d.len(),
        all_digits(d@),
    ensures
        r matches Some(v) ==> v == digits_value(d@.take(p as int)) && v <= i64::MAX,
        r is None ==> digits_value(d@.take(p as int)) > i64::MAX,
{
    let mut acc: u128 = 0;
    let mut i: usize = 0;
    while i < p
        invariant
            i <= p <= d.len(),
            all_digits(d@),
            acc == digits_value(d@.take(i as int)),
            acc <= i64::MAX,
        decreases p - i,
    {
        proof {
            assert(d@.take(i + 1).drop_last() =~= d@.take(i as int));
            assert(d@.take(i + 1).last() == d@[i as int]);
            assert(is_digit(d@[i as int]));
        }
        let next = acc * 10 + ((d[i] as u32) - 48) as u128;
        if next > 0x7fff_ffff_ffff_ffff {
            proof {
                lemma_digits_value_prefix(d@.take(p as int), i + 1);
                assert(d@.take(p as int).take(i + 1) =~= d@.take(i + 1));
            }
            return None;
        }
        acc = next;
        i = i + 1;
    }
    Some(acc as u64)
}

/// The number written by the digits `d`, times `10^k`, rounded halves away
/// from zero and capped at the largest `i64`.
fn scaled_cents(d: &Vec<char>, k: i128) -> (r: u64)
    requires
        all_digits(d@),
        -0x1_0000_0000_0000_0000_0000 < k,
    ensures
        r == sat(scaled_round(digits_value(d@), k as int) as int),
{
    let ghost m = digits_value(d@);
    let mut i: usize = 0;
    while i < d.len() && (d[i] as u32) == 48
        invariant
            i <= d.len(),
            forall|j: int| 0 <= j < i ==> (d@[j] as u32) == 48,
        decreases d.len() - i,
    {
        i = i + 1;
    }
    if i == d.len() {
        proof {
            lemma_digits_value_zero(d@);
            lemma_scaled_zero(k as int);
        }
        return 0;
    }
    proof {
        assert(is_digit(d@[i as int]));
        assert(digit_of(d@[i as int]) != 0);
        lemma_digits_value_nonzero(d@, i as int);
    }
    if k >= 19 {
        proof {
            lemma_scaled_big(m, k as int);
        }
        return 0x7fff_ffff_ffff_ffff;
    }
    if k >= 0 {
        let v = match prefix_value(d, d.len()) {
            Some(v) => v,
            None => {
                proof {
                    assert(d@.take(d.len() as int) =~= d@);
                    lemma_pow10_pos(k as nat);
                    let p = pow10(k as nat);
                    assert(m * p >= m) by (nonlinear_arith)
                        requires
                            p >= 1,
                    ;
                }
                return 0x7fff_ffff_ffff_ffff;
            },
        };
        proof {
            assert(d@.take(d.len() as int) =~= d@);
            assert(pow10(0) == 1);
            assert(m * 1 == m);
        }
        let mut acc: u128 = v as u128;
        let mut t: i128 = 0;
        while t < k
            invariant
                0 <= t <= k,
                m == digits_value(d@),
                acc == m * pow10(t as nat),
                acc <= i64::MAX,
            decreases k - t,
        {
            let next = acc * 10;
            proof {
                assert(pow10((t + 1) as nat) == 10 * pow10(t as nat));
                assert(next == m * pow10((t + 1) as nat)) by (nonlinear_arith)
                    requires
                        acc == m * pow10(t as nat),
                        next == acc * 10,
                        pow10((t + 1) as nat) == 10 * pow10(t as nat),
                ;
            }
            if next > 0x7fff_ffff_ffff_ffff {
                proof {
                    let an = (t + 1) as nat;
                    let bn = (k - t - 1) as nat;
                    assert(an + bn == k as nat);
                    lemma_pow10_add(an, bn);
                    lemma_pow10_pos(bn);
                    let a = pow10(an);
                    let b = pow10(bn);
                    assert(m * (a * b) >= m * a) by (nonlinear_arith)
                        requires
                            b >= 1,
                    ;
                }
                return 0x7fff_ffff_ffff_ffff;
            }
            acc = next;
            t = t + 1;
        }
        return acc as u64;
    }
    let j: i128 = -k;
    if j > d.len() as i128 {
        proof {
            lemma_scaled_small(d@, k as int);
        }
        return 0;
    }
    let p: usize = d.len() - (j as usize);
    let ghost q = pow10(j as nat);
    let ghost head = d@.take(p as int);
    let ghost tail = d@.skip(p as int);
    proof {
        lemma_digits_value_concat(head, tail);
        assert(head + tail =~= d@);
        assert(all_digits(tail)) by {
            assert forall|x: int| 0 <= x < tail.len() implies is_digit(#[trigger] tail[x]) by {
                assert(tail[x] == d@[p + x]);
            }
        }
        lemma_digits_value_bound(tail);
        assert(tail.len() == j);
        vstd::arithmetic::div_mod::lemma_fundamental_div_mod_converse(
            m as int,
            q as int,
            digits_value(head) as int,
            digits_value(tail) as int,
        );
        lemma_digits_value_leading(tail);
        assert(tail[0] == d@[p as int]);
        let t0 = digit_of(tail[0]);
        let r = pow10((j - 1) as nat);
        assert(q == 10 * r);
        let tv = digits_value(tail);
        assert((tv * 2 >= q) == (t0 >= 5)) by (nonlinear_arith)
            requires
                t0 * r <= tv,
                tv < (t0 + 1) * r,
                q == 10 * r,
                r >= 1,
        {
        }
        lemma_pow10_pos((j - 1) as nat);
    }
    assert(p < d.len());
    let round_up = (d[p] as u32) >= 53;
    match prefix_value(d, p) {
        None => 0x7fff_ffff_ffff_ffff,
        Some(a) => {
            if round_up {
                if a == 0x7fff_ffff_ffff_ffff {
                    0x7fff_ffff_ffff_ffff
                } else {
                    a + 1
                }
            } else {
                a
            }
        },
    }
}

/// The cents that the finite literal of the given shape in `b` is worth.
fn finite_cents(b: &Vec<char>, i1: usize, f0: usize, f1: usize, en: bool, d0: usize, d1: usize) -> (r: i64)
    requires
        number_shape(b@) == Some((i1 as int, f0 as int, f1 as int, en, d0 as int, d1 as int)),
    ensures
        r == lit_cents(
            FloatLit::Finite {
                negative: false,
                int_digits: b@.subrange(0, i1 as int),
                frac_digits: b@.subrange(f0 as int, f1 as int),
                exp_negative: en,
                exp_digits: b@.subrange(d0 as int, d1 as int),
            },
        ),
{
    proof {
        lemma_digit_end(b@, 0);
        if f0 != i1 {
            lemma_digit_end(b@, i1 + 1);
        }
        lemma_digit_end(b@, d0 as int);
    }
    let mut digits = sub_vec(b, 0, i1);
    let frac = sub_vec(b, f0, f1);
    extend_chars(&mut digits, &frac);
    proof {
        assert(all_digits(digits@)) by {
            assert forall|x: int| 0 <= x < digits@.len() implies is_digit(#[trigger] digits@[x]) by {
                if x < i1 {
                    assert(digits@[x] == b@[x]);
                } else {
                    assert(digits@[x] == b@[f0 + x - i1]);
                }
            }
        }
        assert(all_digits(b@.subrange(d0 as int, d1 as int))) by {
            assert forall|x: int| 0 <= x < d1 - d0 implies is_digit(
                #[trigger] b@.subrange(d0 as int, d1 as int)[x],
            ) by {
                assert(b@.subrange(d0 as int, d1 as int)[x] == b@[d0 + x]);
            }
        }
    }
    let e = capped_value(b, d0, d1);
    let fl: i128 = (f1 - f0) as i128;
    let k: i128 = if en {
        -(e as i128) - fl + 2
    } else {
        (e as i128) - fl + 2
    };
    let ghost ev = digits_value(b@.subrange(d0 as int, d1 as int));
    let ghost k_true: int = if en {
        -ev - fl + 2
    } else {
        ev - fl + 2
    };
    let c = scaled_cents(&digits, k);
    proof {
        let m = digits_value(digits@);
        if ev >= exp_cap() {
            if m == 0 {
                lemma_scaled_zero(k as int);
                lemma_scaled_zero(k_true);
            } else if en {
                lemma_scaled_small(digits@, k as int);
                lemma_scaled_small(digits@, k_true);
            } else {
                lemma_scaled_big(m, k as int);
                lemma_scaled_big(m, k_true);
            }
        }
    }
    c as i64
}

/// The cents that the literal `s` is worth, for a literal without a
/// leading minus, or `None` when `f64::from_str` rejects `s`.
fn literal_cents(s: &Vec<char>) -> (r: Option<i64>)
    requires
        s.len() == 0 || s@[0] != '-',
    ensures
        match float_lit(s@) {
            None => r is None,
            Some(lit) => r matches Some(v) && v == lit_cents(lit),
        },
{
    let start: usize = if s.len() > 0 && (s[0] == '+' || s[0] == '-') {
        1
    } else {
        0
    };
    let b = sub_vec(s, start, s.len());
    proof {
        if start == 1 {
            assert(s@.subrange(1, s.len() as int) =~= s@.drop_first());
        } else {
            assert(s@.subrange(0, s.len() as int) =~= s@);
        }
    }
    if b.len() == 0 {
        return None;
    }
    match scan_number(&b) {
        Some((i1, f0, f1, en, d0, d1)) => Some(finite_cents(&b, i1, f0, f1, en, d0, d1)),
        None => {
            let inf = vec!['i', 'n', 'f'];
            let infinity = vec!['i', 'n', 'f', 'i', 'n', 'i', 't', 'y'];
            let nan = vec!['n', 'a', 'n'];
            if ci_equals(&b, &inf) || ci_equals(&b, &infinity) {
                Some(0x7fff_ffff_ffff_ffff)
            } else if ci_equals(&b, &nan) {
                Some(0)
            } else {
                None
            }
        },
    }
}

/// Whether `f64::from_str` accepts the text `s`.
pub fn is_float_literal(s: &Vec<char>) -> (r: bool)
    ensures
        r == float_lit(s@) is Some,
{
    let start: usize = if s.len() > 0 && (s[0] == '+' || s[0] == '-') {
        1
    } else {
        0
    };
    let b = sub_vec(s, start, s.len());
    proof {
        if start == 1 {
            assert(s@.subrange(1, s.len() as int) =~= s@.drop_first());
        } else {
            assert(s@.subrange(0, s.len() as int) =~= s@);
        }
    }
    if b.len() == 0 {
        return false;
    }
    if scan_number(&b).is_some() {
        return true;
    }
    let inf = vec!['i', 'n', 'f'];
    let infinity = vec!['i', 'n', 'f', 'i', 'n', 'i', 't', 'y'];
    let nan = vec!['n', 'a', 'n'];
    ci_equals(&b, &inf) || ci_equals(&b, &infinity) || ci_equals(&b, &nan)
}

/// Nothing that `strip_dollar_noise` keeps is a minus sign.
proof fn lemma_strip_no_minus(t: Seq<char>)
    ensures
        forall|i: int|
            0 <= i < strip_dollar_noise(t).len() ==> #[trigger] strip_dollar_noise(t)[i] != '-',
    decreases t.len(),
{
    if t.len() > 0 {
        lemma_strip_no_minus(t.drop_last());
        let r = strip_dollar_noise(t.drop_last());
        if !dollar_noise(t.last()) {
            assert(strip_dollar_noise(t) == r.push(t.last()));
            assert(t.last() != '-');
            assert forall|i: int| 0 <= i < r.push(t.last()).len() implies #[trigger] r.push(
                t.last(),
            )[i] != '-' by {
                if i < r.len() {
                    assert(r.push(t.last())[i] == r[i]);
                }
            }
        }
    }
}

/// Parses a user-entered amount into cents.
///
/// Surrounding whitespace is ignored. The amount is negative when written
/// in accounting parentheses, `(1,234.56)`, or with a leading minus. Commas,
/// `$`, `€`, `£`, parentheses, minus signs and inner whitespace are dropped
/// before the rest is read as a decimal number (exponents, `inf` and `nan`
/// included); the number times 100 is rounded halves away from zero and
/// clamped to the `i64` range. The rounding is of the decimal as written,
/// not of a binary floating-point value: `1.005` gives 101 cents and
/// `0.015` gives 2.
pub fn parse_dollars(s: &str) -> (r: Result<i64, String>)
    ensures
        r is Ok == spec_parse_dollars(s@) is Ok,
        r matches Ok(v) ==> spec_parse_dollars(s@) == Ok::<int, Seq<char>>(v as int),
        r matches Err(e) ==> spec_parse_dollars(s@) == Err::<int, Seq<char>>(e@),
        r matches Ok(v) ==> -I64_MAX <= v,
{
    let t = trimmed_chars(s);
    if t.len() == 0 {
        let msg = "Invalid amount: (empty)".to_owned();
        return Err(msg);
    }
    let is_negative = (t[0] == '(' && t[t.len() - 1] == ')') || t[0] == '-';
    let cleaned = strip_dollar_noise_exec(&t);
    proof {
        lemma_strip_no_minus(t@);
    }
    match literal_cents(&cleaned) {
        None => {
            let mut m = chars_of("Invalid amount: ");
            extend_chars(&mut m, &t);
            Err(string_of(&m))
        },
        Some(c) => {
            proof {
                let lit = float_lit(cleaned@).unwrap();
                assert(!(cleaned@.len() > 0 && cleaned@[0] == '-'));
                assert(c >= 0);
            }
            Ok(
                if is_negative {
                    -c
                } else {
                    c
                },
            )
        },
    }
}

// ── Executable formatting ──

/// Appends `d[0..hi]` with a comma before every group of three digits
/// counting from the right.
fn push_grouped(d: &Vec<char>, hi: usize, out: &mut Vec<char>)
    requires
        hi <= d.len(),
    ensures
        final(out)@ == old(out)@ + group3(d@.subrange(0, hi as int)),
    decreases hi,
{
    if hi <= 3 {
        let part = sub_vec(d, 0, hi);
        extend_chars(out, &part);
    } else {
        push_grouped(d, hi - 3, out);
        out.push(',');
        let part = sub_vec(d, hi - 3, hi);
        extend_chars(out, &part);
        proof {
            let w = d@.subrange(0, hi as int);
            assert(w.subrange(0, w.len() - 3) =~= d@.subrange(0, hi - 3));
            assert(w.subrange(w.len() - 3, w.len() as int) =~= d@.subrange(hi - 3, hi as int));
            assert(group3(w) == group3(d@.subrange(0, hi - 3)) + seq![','] + d@.subrange(
                hi - 3,
                hi as int,
            ));
            assert(old(out)@ + group3(d@.subrange(0, hi - 3)) + seq![','] + d@.subrange(
                hi - 3,
                hi as int,
            ) =~= old(out)@ + group3(w));
        }
    }
}

/// The magnitude of `n` in decimal, with a comma before every group of
/// three digits counting from the right: `1234567` gives `"1,234,567"`.
pub fn format_with_commas(n: i64) -> (s: String)
    requires
        n != i64::MIN,
    ensures
        s@ == spec_with_commas(n as int),
{
    let a: u64 = if n < 0 {
        (-n) as u64
    } else {
        n as u64
    };
    let mut d: Vec<char> = Vec::new();
    push_decimal(a, &mut d);
    let mut out: Vec<char> = Vec::new();
    push_grouped(&d, d.len(), &mut out);
    proof {
        assert(d@ =~= decimal(a as nat));
        assert(d@.subrange(0, d.len() as int) =~= d@);
        assert(out@ =~= group3(d@));
    }
    string_of(&out)
}

/// Formats cents as dollars: `-123456` gives `"-$1,234.56"`.
pub fn format_cents(cents: i64) -> (s: String)
    requires
        cents != i64::MIN,
    ensures
        s@ == spec_format_cents(cents as int),
{
    let a: u64 = if cents < 0 {
        (-cents) as u64
    } else {
        cents as u64
    };
    let dollars = a / 100;
    let rem = a % 100;
    let mut out: Vec<char> = Vec::new();
    if cents < 0 {
        out.push('-');
    }
    out.push('$');
    let mut d: Vec<char> = Vec::new();
    push_decimal(dollars, &mut d);
    let ghost before = out@;
    push_grouped(&d, d.len(), &mut out);
    out.push('.');
    out.push(digit_to_char(rem / 10));
    out.push(digit_to_char(rem % 10));
    proof {
        assert(d@ =~= decimal(dollars as nat));
        assert(d@.subrange(0, d.len() as int) =~= d@);
        let sign = if cents < 0 {
            seq!['-']
        } else {
            Seq::<char>::empty()
        };
        assert(before =~= sign + seq!['$']);
        assert(out@ =~= spec_format_cents(cents as int));
    }
    string_of(&out)
}

// ── Laws ──

proof fn lemma_strip_concat(a: Seq<char>, b: Seq<char>)
    ensures
        strip_dollar_noise(a + b) == strip_dollar_noise(a) + strip_dollar_noise(b),
    decreases b.len(),
{
    if b.len() == 0 {
        assert(a + b =~= a);
        assert(strip_dollar_noise(a) + strip_dollar_noise(b) =~= strip_dollar_noise(a));
    } else {
        lemma_strip_concat(a, b.drop_last());
        assert((a + b).drop_last() =~= a + b.drop_last());
        assert((a + b).last() == b.last());
        if !dollar_noise(b.last()) {
            assert(strip_dollar_noise(a) + strip_dollar_noise(b.drop_last()).push(b.last())
                =~= (strip_dollar_noise(a) + strip_dollar_noise(b.drop_last())).push(b.last()));
        }
    }
}

proof fn lemma_strip_digits(d: Seq<char>)
    requires
        all_digits(d),
    ensures
        strip_dollar_noise(d) == d,
    decreases d.len(),
{
    if d.len() > 0 {
        let p = d.drop_last();
        assert(all_digits(p)) by {
            assert forall|i: int| 0 <= i < p.len() implies is_digit(#[trigger] p[i]) by {
                assert(p[i] == d[i]);
            }
        }
        lemma_strip_digits(p);
        assert(is_digit(d[d.len() - 1]));
        assert(p.push(d.last()) =~= d);
    }
}

proof fn lemma_strip_single(c: char)
    ensures
        strip_dollar_noise(seq![c]) == if dollar_noise(c) {
            Seq::<char>::empty()
        } else {
            seq![c]
        },
{
    assert(seq![c].drop_last() =~= Seq::<char>::empty());
    assert(seq![c].last() == c);
    assert(strip_dollar_noise(Seq::<char>::empty()) == Seq::<char>::empty());
    assert(Seq::<char>::empty().push(c) =~= seq![c]);
}

proof fn lemma_strip_clean(x: Seq<char>)
    requires
        forall|i: int| 0 <= i < x.len() ==> !dollar_noise(#[trigger] x[i]),
    ensures
        strip_dollar_noise(x) == x,
    decreases x.len(),
{
    if x.len() > 0 {
        let p = x.drop_last();
        assert forall|i: int| 0 <= i < p.len() implies !dollar_noise(#[trigger] p[i]) by {
            assert(p[i] == x[i]);
        }
        lemma_strip_clean(p);
        assert(!dollar_noise(x[x.len() - 1]));
        assert(p.push(x.last()) =~= x);
    }
}

/// The part of a literal after its sign is a number or one of the words.
pub open spec fn literal_body(b: Seq<char>) -> bool {
    b.len() > 0 && (number_shape(b) is Some || ci_eq(b, seq!['i', 'n', 'f']) || ci_eq(
        b,
        seq!['i', 'n', 'f', 'i', 'n', 'i', 't', 'y'],
    ) || ci_eq(b, seq!['n', 'a', 'n']))
}

proof fn lemma_word_clean(b: Seq<char>, w: Seq<char>)
    requires
        ci_eq(b, w),
        forall|i: int| 0 <= i < w.len() ==> 97 <= (#[trigger] w[i] as u32) <= 122,
    ensures
        forall|i: int| 0 <= i < b.len() ==> !dollar_noise(#[trigger] b[i]),
        b.len() > 0 ==> b[0] != '+' && b[0] != '-',
{
    assert forall|i: int| 0 <= i < b.len() implies !dollar_noise(#[trigger] b[i]) by {
        assert(ci_char(b[i], w[i]));
        assert(97 <= (w[i] as u32) <= 122);
    }
    if b.len() > 0 {
        assert(ci_char(b[0], w[0]));
        assert(97 <= (w[0] as u32) <= 122);
    }
}

/// Dropping the minus signs (and the other characters that `parse_dollars`
/// discards) from the body of a literal leaves the body of a literal that
/// starts with no sign.
proof fn lemma_body_strip(b: Seq<char>)
    requires
        literal_body(b),
    ensures
        literal_body(strip_dollar_noise(b)),
        strip_dollar_noise(b)[0] != '+' && strip_dollar_noise(b)[0] != '-',
{
    match number_shape(b) {
        Some((i1, f0, f1, en, d0, d1)) => {
            lemma_digit_end(b, 0);
            let has_dot = i1 < b.len() && b[i1] == '.';
            if has_dot {
                lemma_digit_end(b, i1 + 1);
            }
            assert(b[0] != '+' && b[0] != '-') by {
                if i1 == 0 {
                    assert(has_dot);
                }
            }
            if f1 == b.len() {
                assert forall|k: int| 0 <= k < b.len() implies !dollar_noise(#[trigger] b[k]) by {
                    if k < i1 {
                        assert(is_digit(b[k]));
                    } else if k == i1 {
                        assert(has_dot);
                    } else {
                        assert(is_digit(b[k]));
                    }
                }
                lemma_strip_clean(b);
            } else {
                let e0 = f1 + 1;
                let has_sign = e0 < b.len() && (b[e0] == '+' || b[e0] == '-');
                lemma_digit_end(b, d0);
                if !(has_sign && b[e0] == '-') {
                    assert forall|k: int| 0 <= k < b.len() implies !dollar_noise(#[trigger] b[k]) by {
                        if k < i1 {
                            assert(is_digit(b[k]));
                        } else if k == i1 && has_dot {
                        } else if k < f1 {
                            assert(is_digit(b[k]));
                        } else if k == f1 {
                        } else if k == e0 && has_sign {
                        } else {
                            assert(is_digit(b[k]));
                        }
                    }
                    lemma_strip_clean(b);
                } else {
                    let pre = b.take(e0);
                    let post = b.skip(e0 + 1);
                    assert(b =~= pre + seq!['-'] + post);
                    assert forall|k: int| 0 <= k < pre.len() implies !dollar_noise(#[trigger] pre[k]) by {
                        assert(pre[k] == b[k]);
                        if k < i1 {
                            assert(is_digit(b[k]));
                        } else if k == i1 && has_dot {
                        } else if k < f1 {
                            assert(is_digit(b[k]));
                        } else {
                        }
                    }
                    assert forall|k: int| 0 <= k < post.len() implies !dollar_noise(#[trigger] post[k]) by {
                        assert(post[k] == b[k + e0 + 1]);
                        assert(is_digit(b[k + e0 + 1]));
                    }
                    lemma_strip_clean(pre);
                    lemma_strip_clean(post);
                    lemma_strip_concat(pre, seq!['-']);
                    lemma_strip_single('-');
                    lemma_strip_concat(pre + seq!['-'], post);
                    let b2 = pre + post;
                    assert(strip_dollar_noise(b) =~= b2);
                    assert forall|k: int| 0 <= k < e0 implies #[trigger] b2[k] == b[k] by {}
                    assert forall|k: int| e0 <= k < b2.len() implies #[trigger] b2[k] == b[k + 1] by {}
                    assert forall|k: int| 0 <= k < i1 implies is_digit(#[trigger] b2[k]) by {
                        assert(b2[k] == b[k]);
                    }
                    assert(i1 < b2.len());
                    assert(b2[i1] == b[i1]);
                    lemma_digit_end_at(b2, 0, i1);
                    if has_dot {
                        assert forall|k: int| i1 + 1 <= k < f1 implies is_digit(#[trigger] b2[k]) by {
                            assert(b2[k] == b[k]);
                        }
                        assert(b2[f1] == b[f1]);
                        lemma_digit_end_at(b2, i1 + 1, f1);
                    }
                    assert(b2[f1] == b[f1]);
                    assert(b2[e0] == b[e0 + 1]);
                    assert(is_digit(b[e0 + 1]));
                    assert forall|k: int| e0 <= k < b2.len() implies is_digit(#[trigger] b2[k]) by {
                        assert(b2[k] == b[k + 1]);
                        assert(is_digit(b[k + 1]));
                    }
                    lemma_digit_end_at(b2, e0, b2.len() as int);
                    assert(number_shape(b2) is Some);
                    assert(b2[0] == b[0]);
                }
            }
        },
        None => {
            let w = if ci_eq(b, seq!['i', 'n', 'f']) {
                seq!['i', 'n', 'f']
            } else if ci_eq(b, seq!['i', 'n', 'f', 'i', 'n', 'i', 't', 'y']) {
                seq!['i', 'n', 'f', 'i', 'n', 'i', 't', 'y']
            } else {
                seq!['n', 'a', 'n']
            };
            lemma_word_clean(b, w);
            lemma_strip_clean(b);
        },
    }
}

/// A literal that `f64::from_str` accepts is still one once the characters
/// that `parse_dollars` discards (here: minus signs) are dropped.
pub proof fn lemma_literal_survives_strip(u: Seq<char>)
    requires
        float_lit(u) is Some,
    ensures
        float_lit(strip_dollar_noise(u)) is Some,
{
    let b = unsigned_part(u);
    assert(literal_body(b));
    lemma_body_strip(b);
    let b2 = strip_dollar_noise(b);
    if u.len() > 0 && (u[0] == '+' || u[0] == '-') {
        assert(u =~= seq![u[0]] + b);
        lemma_strip_concat(seq![u[0]], b);
        lemma_strip_single(u[0]);
        if u[0] == '-' {
            assert(strip_dollar_noise(u) =~= b2);
        } else {
            assert(strip_dollar_noise(u) =~= seq!['+'] + b2);
            assert(unsigned_part(seq!['+'] + b2) =~= b2);
        }
    }
}

/// An amount written with neither a leading minus nor accounting
/// parentheses is not negative, and a leading minus or parentheses around
/// it give the same amount negated.
pub proof fn lemma_sign_forms_negate(s: Seq<char>, c: int)
    requires
        spec_parse_dollars(s) == Ok::<int, Seq<char>>(c),
        !(trim(s).len() > 0 && trim(s)[0] == '-'),
        !(trim(s).len() > 0 && trim(s)[0] == '(' && trim(s).last() == ')'),
    ensures
        c >= 0,
        spec_parse_dollars(seq!['-'] + trim(s)) == Ok::<int, Seq<char>>(-c),
        spec_parse_dollars(seq!['('] + trim(s) + seq![')']) == Ok::<int, Seq<char>>(-c),
{
    let t = trim(s);
    lemma_trim_ends(s);
    lemma_trim_no_ws_ends(t);
    lemma_strip_no_minus(t);
    let lit = float_lit(strip_dollar_noise(t)).unwrap();
    assert(!(strip_dollar_noise(t).len() > 0 && strip_dollar_noise(t)[0] == '-'));
    assert(c >= 0);
    let m = seq!['-'] + t;
    assert(m[0] == '-' && m.last() == t.last());
    lemma_trim_no_ws_ends(m);
    lemma_strip_concat(seq!['-'], t);
    lemma_strip_single('-');
    assert(strip_dollar_noise(m) =~= strip_dollar_noise(t));
    let p = seq!['('] + t + seq![')'];
    assert(p[0] == '(' && p.last() == ')');
    lemma_trim_no_ws_ends(p);
    lemma_strip_concat(seq!['('], t);
    lemma_strip_single('(');
    lemma_strip_concat(seq!['('] + t, seq![')']);
    lemma_strip_single(')');
    assert(strip_dollar_noise(p) =~= strip_dollar_noise(t));
}

/// Removing the grouping commas gives back the digits.
pub proof fn lemma_strip_group3(d: Seq<char>)
    requires
        all_digits(d),
    ensures
        strip_dollar_noise(group3(d)) == d,
    decreases d.len(),
{
    if d.len() <= 3 {
        lemma_strip_digits(d);
    } else {
        let h = d.subrange(0, d.len() - 3);
        let t = d.subrange(d.len() - 3, d.len() as int);
        assert(all_digits(h)) by {
            assert forall|i: int| 0 <= i < h.len() implies is_digit(#[trigger] h[i]) by {
                assert(h[i] == d[i]);
            }
        }
        assert(all_digits(t)) by {
            assert forall|i: int| 0 <= i < t.len() implies is_digit(#[trigger] t[i]) by {
                assert(t[i] == d[d.len() - 3 + i]);
            }
        }
        lemma_strip_group3(h);
        lemma_strip_digits(t);
        lemma_strip_concat(group3(h) + seq![','], t);
        lemma_strip_concat(group3(h), seq![',']);
        lemma_strip_single(',');
        assert(h + t =~= d);
        assert(strip_dollar_noise(group3(h)) + Seq::<char>::empty() =~= h);
    }
}

/// Formatting cents and parsing the text back gives the same cents, for
/// every amount that `format_cents` accepts.
pub proof fn lemma_format_parse_roundtrip(c: int)
    requires
        i64::MIN < c <= i64::MAX,
    ensures
        spec_parse_dollars(spec_format_cents(c)) == Ok::<int, Seq<char>>(c),
{
    let a = abs(c);
    let q = a / 100;
    let r = a % 100;
    let dd = decimal(q);
    let tt = two_digits(r);
    lemma_decimal(q);
    lemma_digit_char(r / 10);
    lemma_digit_char(r % 10);
    let sign = if c < 0 {
        seq!['-']
    } else {
        Seq::<char>::empty()
    };
    let f = spec_format_cents(c);
    assert(f == sign + seq!['$'] + group3(dd) + seq!['.'] + tt);
    assert(all_digits(tt));
    // the text has no whitespace at either end
    assert(f.last() == tt[1]);
    assert(f[0] == '-' || f[0] == '$');
    lemma_trim_no_ws_ends(f);
    // what remains once the noise is removed
    let body = dd + seq!['.'] + tt;
    lemma_strip_concat(sign + seq!['$'] + group3(dd) + seq!['.'], tt);
    lemma_strip_concat(sign + seq!['$'] + group3(dd), seq!['.']);
    lemma_strip_concat(sign + seq!['$'], group3(dd));
    lemma_strip_concat(sign, seq!['$']);
    lemma_strip_single('$');
    lemma_strip_single('.');
    lemma_strip_single('-');
    lemma_strip_group3(dd);
    lemma_strip_digits(tt);
    assert(strip_dollar_noise(Seq::<char>::empty()) == Seq::<char>::empty());
    assert(strip_dollar_noise(f) =~= body);
    // the shape of the literal
    assert(body[0] == dd[0]);
    assert(is_digit(dd[0]));
    assert(unsigned_part(body) == body);
    let n = dd.len() as int;
    assert(body[n] == '.');
    lemma_digit_end_at(body, 0, n);
    lemma_digit_end_at(body, n + 1, body.len() as int);
    assert(body.subrange(0, n) =~= dd);
    assert(body.subrange(n + 1, body.len() as int) =~= tt);
    assert(number_shape(body) == Some(
        (n, n + 1, body.len() as int, false, body.len() as int, body.len() as int),
    ));
    let lit = float_lit(body).unwrap();
    assert(body.subrange(body.len() as int, body.len() as int) =~= Seq::<char>::empty());
    // its value
    lemma_digits_value_concat(dd, tt);
    assert(tt.drop_last() =~= seq![digit_char(r / 10)]);
    assert(seq![digit_char(r / 10)].drop_last() =~= Seq::<char>::empty());
    assert(digits_value(seq![digit_char(r / 10)]) == r / 10);
    assert(digits_value(tt) == r);
    reveal_with_fuel(pow10, 3);
    assert(tt.len() == 2);
    assert(pow10(2) == 100);
    assert(q * 100 + r == a);
    assert(digits_value(dd + tt) == a);
    assert(pow10(0) == 1);
    assert(scaled_round(a, 0) == a);
    assert(lit_cents(lit) == a);
    assert(amount_is_negative(f) == (c < 0));
}

} // verus!
