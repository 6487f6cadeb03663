//! Finding a few transactions whose amounts add up to a target.
//!
//! Transactions are given as parallel sequences of amounts and ids. The
//! search looks for two items first, then three, then four, and takes the
//! first combination in a fixed order: pairs of positions `(i, j)` with
//! `i < j` are ordered lexicographically.

use vstd::prelude::*;
use std::collections::HashMap;

verus! {

broadcast use vstd::std_specs::hash::group_hash_axioms;

/// The pairs `(i, j)` with `i < j < n`, for one first position `i`, in
/// order of `j`.
pub open spec fn row_pairs(i: int, n: int) -> Seq<(usize, usize)> {
    Seq::new(
        (if n - i - 1 > 0 {
            n - i - 1
        } else {
            0
        }) as nat,
        |t: int| (i as usize, (i + 1 + t) as usize),
    )
}

/// The pairs `(i, j)` with `i < k` and `i < j < n`, in lexicographic order.
pub open spec fn pairs_upto(k: int, n: int) -> Seq<(usize, usize)>
    decreases k,
{
    if k <= 0 {
        Seq::empty()
    } else {
        pairs_upto(k - 1, n) + row_pairs(k - 1, n)
    }
}

/// All pairs of distinct positions below `n`, in lexicographic order.
pub open spec fn all_pairs(n: int) -> Seq<(usize, usize)> {
    pairs_upto(n, n)
}

/// The sum of the amounts at the two positions of a pair.
pub open spec fn pair_sum(amts: Seq<i64>, p: (usize, usize)) -> int {
    amts[p.0 as int] + amts[p.1 as int]
}

/// The pairs of `ps` whose amounts add up to `s`, in their order in `ps`.
pub open spec fn with_sum(ps: Seq<(usize, usize)>, amts: Seq<i64>, s: int) -> Seq<(usize, usize)>
    decreases ps.len(),
{
    if ps.len() == 0 {
        ps
    } else {
        let rest = with_sum(ps.drop_last(), amts, s);
        if pair_sum(amts, ps.last()) == s {
            rest.push(ps.last())
        } else {
            rest
        }
    }
}

/// A pair of positions `i < j < n`.
pub open spec fn valid_pair(p: (usize, usize), n: int) -> bool {
    p.0 < p.1 && p.1 < n
}

/// The first pair of `cs` neither of whose ids is `id`.
pub open spec fn first_apart(cs: Seq<(usize, usize)>, ids: Seq<u128>, id: u128) -> Option<
    (usize, usize),
>
    decreases cs.len(),
{
    if cs.len() == 0 {
        None
    } else if ids[cs[0].0 as int] != id && ids[cs[0].1 as int] != id {
        Some(cs[0])
    } else {
        first_apart(cs.drop_first(), ids, id)
    }
}

/// The first pair of `cs` that shares no id with the pair `a`.
pub open spec fn first_apart2(cs: Seq<(usize, usize)>, ids: Seq<u128>, a: (usize, usize)) -> Option<
    (usize, usize),
>
    decreases cs.len(),
{
    if cs.len() == 0 {
        None
    } else if ids[a.0 as int] != ids[cs[0].0 as int] && ids[a.0 as int] != ids[cs[0].1 as int]
        && ids[a.1 as int] != ids[cs[0].0 as int] && ids[a.1 as int] != ids[cs[0].1 as int] {
        Some(cs[0])
    } else {
        first_apart2(cs.drop_first(), ids, a)
    }
}

/// The first three-item match from position `k` on: the first item (by
/// position) for which some pair of the other items makes up the rest of
/// the target, with the first such pair.
pub open spec fn first3_from(amts: Seq<i64>, ids: Seq<u128>, target: int, k: int) -> Option<
    (usize, (usize, usize)),
>
    decreases amts.len() - k,
{
    if k < 0 || k >= amts.len() {
        None
    } else {
        match first_apart(
            with_sum(all_pairs(amts.len() as int), amts, target - amts[k]),
            ids,
            ids[k],
        ) {
            Some(p) => Some((k as usize, p)),
            None => first3_from(amts, ids, target, k + 1),
        }
    }
}

/// The first four-item match whose first pair is `(i, j)` or a later
/// pair of row `i`: the first such pair with a disjoint pair making up the
/// rest of the target, with the first such partner.
pub open spec fn first4_in_row(amts: Seq<i64>, ids: Seq<u128>, target: int, i: int, j: int) -> Option<
    ((usize, usize), (usize, usize)),
>
    decreases amts.len() - j,
{
    if j < 0 || j >= amts.len() {
        None
    } else {
        let a = (i as usize, j as usize);
        match first_apart2(
            with_sum(all_pairs(amts.len() as int), amts, target - pair_sum(amts, a)),
            ids,
            a,
        ) {
            Some(b) => Some((a, b)),
            None => first4_in_row(amts, ids, target, i, j + 1),
        }
    }
}

/// The first four-item match whose first pair starts at position `i` or
/// later.
pub open spec fn first4_from(amts: Seq<i64>, ids: Seq<u128>, target: int, i: int) -> Option<
    ((usize, usize), (usize, usize)),
>
    decreases amts.len() - i,
{
    if i < 0 || i >= amts.len() {
        None
    } else {
        match first4_in_row(amts, ids, target, i, i + 1) {
            Some(x) => Some(x),
            None => first4_from(amts, ids, target, i + 1),
        }
    }
}

/// The ids that the search returns: the first pair adding up to `target`;
/// failing that (and with `max_len` at least 3) the first three-item
/// match; failing that (and with `max_len` at least 4) the first
/// four-item match. Items in a match have pairwise different ids, except
/// that two positions of one pair may share an id.
pub open spec fn spec_subset_sum(amts: Seq<i64>, ids: Seq<u128>, target: int, max_len: int) -> Option<
    Seq<u128>,
> {
    let n = amts.len() as int;
    let twos = with_sum(all_pairs(n), amts, target);
    if n < 2 || max_len < 2 {
        None
    } else if twos.len() > 0 {
        Some(seq![ids[twos[0].0 as int], ids[twos[0].1 as int]])
    } else if max_len >= 3 && first3_from(amts, ids, target, 0) is Some {
        let (k, p) = first3_from(amts, ids, target, 0).unwrap();
        Some(seq![ids[k as int], ids[p.0 as int], ids[p.1 as int]])
    } else if max_len >= 4 && first4_from(amts, ids, target, 0) is Some {
        let (a, b) = first4_from(amts, ids, target, 0).unwrap();
        Some(seq![ids[a.0 as int], ids[a.1 as int], ids[b.0 as int], ids[b.1 as int]])
    } else {
        None
    }
}

// ── Lemmas on the pair sequences ──

/// Every pair of `pairs_upto(k, n)` is a valid pair.
pub proof fn lemma_pairs_upto_valid(k: int, n: int)
    requires
        0 <= n <= usize::MAX,
        k <= n,
    ensures
        forall|t: int|
            0 <= t < pairs_upto(k, n).len() ==> #[trigger] valid_pair(pairs_upto(k, n)[t], n),
    decreases k,
{
    if k > 0 {
        lemma_pairs_upto_valid(k - 1, n);
        let a = pairs_upto(k - 1, n);
        let r = row_pairs(k - 1, n);
        assert forall|t: int| 0 <= t < (a + r).len() implies #[trigger] valid_pair((a + r)[t], n) by {
            if t >= a.len() {
                assert((a + r)[t] == r[t - a.len()]);
            } else {
                assert((a + r)[t] == a[t]);
            }
        }
    }
}

/// `with_sum` keeps only pairs of `ps`, each with the sum asked for.
pub proof fn lemma_with_sum_members(ps: Seq<(usize, usize)>, amts: Seq<i64>, s: int, n: int)
    requires
        forall|t: int| 0 <= t < ps.len() ==> #[trigger] valid_pair(ps[t], n),
    ensures
        forall|t: int|
            0 <= t < with_sum(ps, amts, s).len() ==> #[trigger] valid_pair(
                with_sum(ps, amts, s)[t],
                n,
            ) && pair_sum(amts, with_sum(ps, amts, s)[t]) == s,
        with_sum(ps, amts, s).len() <= ps.len(),
    decreases ps.len(),
{
    if ps.len() > 0 {
        let q = ps.drop_last();
        assert forall|t: int| 0 <= t < q.len() implies #[trigger] valid_pair(q[t], n) by {
            assert(q[t] == ps[t]);
        }
        lemma_with_sum_members(q, amts, s, n);
        assert(valid_pair(ps[ps.len() - 1], n));
    }
}

/// A pair appended to the pairs searched joins the sequence of its sum.
pub proof fn lemma_with_sum_push(ps: Seq<(usize, usize)>, amts: Seq<i64>, s: int, p: (usize, usize))
    ensures
        with_sum(ps.push(p), amts, s) == if pair_sum(amts, p) == s {
            with_sum(ps, amts, s).push(p)
        } else {
            with_sum(ps, amts, s)
        },
{
    assert(ps.push(p).drop_last() =~= ps);
}

// ── What a combination is ──

/// The sum of the amounts at the positions `p`.
pub open spec fn sum_at(amts: Seq<i64>, p: Seq<int>) -> int
    decreases p.len(),
{
    if p.len() == 0 {
        0
    } else {
        sum_at(amts, p.drop_last()) + amts[p.last()]
    }
}

/// The ids at the positions `p`.
pub open spec fn ids_at(ids: Seq<u128>, p: Seq<int>) -> Seq<u128> {
    Seq::new(p.len(), |a: int| ids[p[a]])
}

/// `p` holds two to four different positions below `n`, no more than
/// `max_len`, whose amounts add up to `target`.
pub open spec fn is_combination(amts: Seq<i64>, target: int, max_len: int, p: Seq<int>) -> bool {
    &&& 2 <= p.len() <= 4
    &&& p.len() <= max_len
    &&& forall|a: int| 0 <= a < p.len() ==> 0 <= #[trigger] p[a] < amts.len()
    &&& forall|a: int, b: int| 0 <= a < b < p.len() ==> #[trigger] p[a] != #[trigger] p[b]
    &&& sum_at(amts, p) == target
}

/// No two positions hold the same id.
pub open spec fn distinct_ids(ids: Seq<u128>) -> bool {
    forall|i: int, j: int| 0 <= i < j < ids.len() ==> #[trigger] ids[i] != #[trigger] ids[j]
}

// ── Lemmas on the search ──

proof fn lemma_first_apart_found(cs: Seq<(usize, usize)>, ids: Seq<u128>, id: u128)
    ensures
        first_apart(cs, ids, id) matches Some(q) ==> cs.contains(q) && ids[q.0 as int] != id
            && ids[q.1 as int] != id,
    decreases cs.len(),
{
    if cs.len() > 0 {
        lemma_first_apart_found(cs.drop_first(), ids, id);
        match first_apart(cs.drop_first(), ids, id) {
            Some(q) => {
                let t = choose|t: int| 0 <= t < cs.drop_first().len() && cs.drop_first()[t] == q;
                assert(cs[t + 1] == q);
            },
            None => {},
        }
        assert(cs[0] == cs[0]);
    }
}

proof fn lemma_first_apart2_found(cs: Seq<(usize, usize)>, ids: Seq<u128>, x: (usize, usize))
    ensures
        first_apart2(cs, ids, x) matches Some(q) ==> cs.contains(q) && ids[x.0 as int] != ids[q.0 as int]
            && ids[x.0 as int] != ids[q.1 as int] && ids[x.1 as int] != ids[q.0 as int]
            && ids[x.1 as int] != ids[q.1 as int],
    decreases cs.len(),
{
    if cs.len() > 0 {
        lemma_first_apart2_found(cs.drop_first(), ids, x);
        match first_apart2(cs.drop_first(), ids, x) {
            Some(q) => {
                let t = choose|t: int| 0 <= t < cs.drop_first().len() && cs.drop_first()[t] == q;
                assert(cs[t + 1] == q);
            },
            None => {},
        }
        assert(cs[0] == cs[0]);
    }
}

proof fn lemma_first_apart_complete(cs: Seq<(usize, usize)>, ids: Seq<u128>, id: u128, q: (usize, usize))
    requires
        cs.contains(q),
        ids[q.0 as int] != id,
        ids[q.1 as int] != id,
    ensures
        first_apart(cs, ids, id) is Some,
    decreases cs.len(),
{
    if !(ids[cs[0].0 as int] != id && ids[cs[0].1 as int] != id) {
        let t = choose|t: int| 0 <= t < cs.len() && cs[t] == q;
        assert(t != 0);
        assert(cs.drop_first()[t - 1] == q);
        lemma_first_apart_complete(cs.drop_first(), ids, id, q);
    }
}

proof fn lemma_first_apart2_complete(
    cs: Seq<(usize, usize)>,
    ids: Seq<u128>,
    x: (usize, usize),
    q: (usize, usize),
)
    requires
        cs.contains(q),
        ids[x.0 as int] != ids[q.0 as int],
        ids[x.0 as int] != ids[q.1 as int],
        ids[x.1 as int] != ids[q.0 as int],
        ids[x.1 as int] != ids[q.1 as int],
    ensures
        first_apart2(cs, ids, x) is Some,
    decreases cs.len(),
{
    let c = cs[0];
    if !(ids[x.0 as int] != ids[c.0 as int] && ids[x.0 as int] != ids[c.1 as int] && ids[x.1 as int]
        != ids[c.0 as int] && ids[x.1 as int] != ids[c.1 as int]) {
        let t = choose|t: int| 0 <= t < cs.len() && cs[t] == q;
        assert(t != 0);
        assert(cs.drop_first()[t - 1] == q);
        lemma_first_apart2_complete(cs.drop_first(), ids, x, q);
    }
}

proof fn lemma_first3_found(amts: Seq<i64>, ids: Seq<u128>, target: int, k: int)
    requires
        amts.len() <= usize::MAX,
    ensures
        first3_from(amts, ids, target, k) matches Some((k0, q)) ==> k <= k0 < amts.len() && first_apart(
            with_sum(all_pairs(amts.len() as int), amts, target - amts[k0 as int]),
            ids,
            ids[k0 as int],
        ) == Some(q),
    decreases amts.len() - k,
{
    if 0 <= k < amts.len() {
        lemma_first3_found(amts, ids, target, k + 1);
    }
}

proof fn lemma_first3_complete(amts: Seq<i64>, ids: Seq<u128>, target: int, k: int, k0: int)
    requires
        0 <= k <= k0 < amts.len(),
        first_apart(
            with_sum(all_pairs(amts.len() as int), amts, target - amts[k0]),
            ids,
            ids[k0],
        ) is Some,
    ensures
        first3_from(amts, ids, target, k) is Some,
    decreases k0 - k,
{
    if k < k0 {
        lemma_first3_complete(amts, ids, target, k + 1, k0);
    }
}

proof fn lemma_first4_in_row_found(amts: Seq<i64>, ids: Seq<u128>, target: int, i: int, j: int)
    requires
        0 <= i <= usize::MAX,
        amts.len() <= usize::MAX,
    ensures
        first4_in_row(amts, ids, target, i, j) matches Some((a, b)) ==> a.0 == i && j <= a.1 < amts.len()
            && first_apart2(
            with_sum(all_pairs(amts.len() as int), amts, target - pair_sum(amts, a)),
            ids,
            a,
        ) == Some(b),
    decreases amts.len() - j,
{
    if 0 <= j < amts.len() {
        lemma_first4_in_row_found(amts, ids, target, i, j + 1);
    }
}

proof fn lemma_first4_found(amts: Seq<i64>, ids: Seq<u128>, target: int, i: int)
    requires
        0 <= i,
        amts.len() <= usize::MAX,
    ensures
        first4_from(amts, ids, target, i) matches Some((a, b)) ==> i <= a.0 < a.1 < amts.len()
            && first_apart2(
            with_sum(all_pairs(amts.len() as int), amts, target - pair_sum(amts, a)),
            ids,
            a,
        ) == Some(b),
    decreases amts.len() - i,
{
    if 0 <= i < amts.len() {
        lemma_first4_in_row_found(amts, ids, target, i, i + 1);
        lemma_first4_found(amts, ids, target, i + 1);
    }
}

proof fn lemma_first4_in_row_complete(amts: Seq<i64>, ids: Seq<u128>, target: int, i: int, j: int, j0: int)
    requires
        0 <= i,
        0 <= j <= j0 < amts.len(),
        amts.len() <= usize::MAX,
        i <= usize::MAX,
        first_apart2(
            with_sum(
                all_pairs(amts.len() as int),
                amts,
                target - pair_sum(amts, (i as usize, j0 as usize)),
            ),
            ids,
            (i as usize, j0 as usize),
        ) is Some,
    ensures
        first4_in_row(amts, ids, target, i, j) is Some,
    decreases j0 - j,
{
    if j < j0 {
        lemma_first4_in_row_complete(amts, ids, target, i, j + 1, j0);
    }
}

proof fn lemma_first4_complete(amts: Seq<i64>, ids: Seq<u128>, target: int, i: int, i0: int)
    requires
        0 <= i <= i0 < amts.len(),
        first4_in_row(amts, ids, target, i0, i0 + 1) is Some,
    ensures
        first4_from(amts, ids, target, i) is Some,
    decreases i0 - i,
{
    if i < i0 {
        lemma_first4_complete(amts, ids, target, i + 1, i0);
    }
}

/// A valid pair `(i, j)` is among the pairs of the rows below `k` when
/// `i < k`.
proof fn lemma_pairs_upto_contains(k: int, n: int, i: int, j: int)
    requires
        0 <= i < j < n <= usize::MAX,
        i < k <= n,
    ensures
        pairs_upto(k, n).contains((i as usize, j as usize)),
    decreases k,
{
    let a = pairs_upto(k - 1, n);
    let r = row_pairs(k - 1, n);
    assert(pairs_upto(k, n) == a + r);
    if i == k - 1 {
        assert(r[j - i - 1] == (i as usize, j as usize));
        assert((a + r)[a.len() + j - i - 1] == (i as usize, j as usize));
    } else {
        lemma_pairs_upto_contains(k - 1, n, i, j);
        let t = choose|t: int| 0 <= t < a.len() && a[t] == (i as usize, j as usize);
        assert((a + r)[t] == (i as usize, j as usize));
    }
}

/// A pair of `ps` with the sum `s` is kept by `with_sum`.
proof fn lemma_with_sum_contains(ps: Seq<(usize, usize)>, amts: Seq<i64>, s: int, p: (usize, usize))
    requires
        ps.contains(p),
        pair_sum(amts, p) == s,
    ensures
        with_sum(ps, amts, s).contains(p),
    decreases ps.len(),
{
    if ps.last() == p {
        assert(with_sum(ps, amts, s).last() == p);
        assert(with_sum(ps, amts, s)[with_sum(ps, amts, s).len() - 1] == p);
    } else {
        let t = choose|t: int| 0 <= t < ps.len() && ps[t] == p;
        assert(t != ps.len() - 1);
        assert(ps.drop_last()[t] == p);
        lemma_with_sum_contains(ps.drop_last(), amts, s, p);
        let w = with_sum(ps.drop_last(), amts, s);
        let u = choose|u: int| 0 <= u < w.len() && w[u] == p;
        if pair_sum(amts, ps.last()) == s {
            assert(with_sum(ps, amts, s)[u] == p);
        }
    }
}

/// A pair of a sequence is one of its elements.
proof fn lemma_member_valid(ps: Seq<(usize, usize)>, amts: Seq<i64>, s: int, n: int, q: (usize, usize))
    requires
        forall|t: int| 0 <= t < ps.len() ==> #[trigger] valid_pair(ps[t], n),
        with_sum(ps, amts, s).contains(q),
    ensures
        valid_pair(q, n),
        pair_sum(amts, q) == s,
{
    lemma_with_sum_members(ps, amts, s, n);
    let w = with_sum(ps, amts, s);
    let u = choose|u: int| 0 <= u < w.len() && w[u] == q;
    assert(valid_pair(w[u], n));
}

/// What the search returns is made of two to four different positions,
/// no more than `max_len`, whose amounts add up to the target: its ids
/// are theirs.
pub proof fn lemma_subset_sum_sound(amts: Seq<i64>, ids: Seq<u128>, target: int, max_len: int)
    requires
        amts.len() == ids.len(),
        amts.len() <= usize::MAX,
    ensures
        spec_subset_sum(amts, ids, target, max_len) matches Some(v) ==> exists|p: Seq<int>|
            is_combination(amts, target, max_len, p) && v == ids_at(ids, p),
{
    let n = amts.len() as int;
    let all = all_pairs(n);
    lemma_pairs_upto_valid(n, n);
    reveal_with_fuel(sum_at, 5);
    let twos = with_sum(all, amts, target);
    if n < 2 || max_len < 2 {
    } else if twos.len() > 0 {
        lemma_member_valid(all, amts, target, n, twos[0]);
        let q = twos[0];
        let p = seq![q.0 as int, q.1 as int];
        assert(is_combination(amts, target, max_len, p));
        assert(ids_at(ids, p) =~= seq![ids[q.0 as int], ids[q.1 as int]]);
    } else if max_len >= 3 && first3_from(amts, ids, target, 0) is Some {
        let (k, q) = first3_from(amts, ids, target, 0).unwrap();
        lemma_first3_found(amts, ids, target, 0);
        let cs = with_sum(all, amts, target - amts[k as int]);
        lemma_first_apart_found(cs, ids, ids[k as int]);
        lemma_member_valid(all, amts, target - amts[k as int], n, q);
        let p = seq![k as int, q.0 as int, q.1 as int];
        assert(is_combination(amts, target, max_len, p));
        assert(ids_at(ids, p) =~= seq![ids[k as int], ids[q.0 as int], ids[q.1 as int]]);
    } else if max_len >= 4 && first4_from(amts, ids, target, 0) is Some {
        let (a, b) = first4_from(amts, ids, target, 0).unwrap();
        lemma_first4_found(amts, ids, target, 0);
        let cs = with_sum(all, amts, target - pair_sum(amts, a));
        lemma_first_apart2_found(cs, ids, a);
        lemma_member_valid(all, amts, target - pair_sum(amts, a), n, b);
        let p = seq![a.0 as int, a.1 as int, b.0 as int, b.1 as int];
        assert(is_combination(amts, target, max_len, p));
        assert(ids_at(ids, p) =~= seq![ids[a.0 as int], ids[a.1 as int], ids[b.0 as int], ids[b.1 as int]]);
    }
}

/// When the ids are all different, the search finds a combination
/// whenever one exists: two to four different positions, no more than
/// `max_len`, whose amounts add up to the target.
pub proof fn lemma_subset_sum_complete(
    amts: Seq<i64>,
    ids: Seq<u128>,
    target: int,
    max_len: int,
    p: Seq<int>,
)
    requires
        amts.len() == ids.len(),
        amts.len() <= usize::MAX,
        distinct_ids(ids),
        is_combination(amts, target, max_len, p),
    ensures
        spec_subset_sum(amts, ids, target, max_len) is Some,
{
    let n = amts.len() as int;
    let all = all_pairs(n);
    reveal_with_fuel(sum_at, 5);
    let twos = with_sum(all, amts, target);
    assert(p[0] != p[1]);
    if p.len() == 2 {
        let i = if p[0] < p[1] { p[0] } else { p[1] };
        let j = if p[0] < p[1] { p[1] } else { p[0] };
        lemma_pairs_upto_contains(n, n, i, j);
        lemma_with_sum_contains(all, amts, target, (i as usize, j as usize));
        let t = choose|t: int| 0 <= t < twos.len() && twos[t] == (i as usize, j as usize);
        assert(twos.len() > 0);
    } else if twos.len() > 0 {
    } else if p.len() == 3 {
        let k = p[0];
        let i = if p[1] < p[2] { p[1] } else { p[2] };
        let j = if p[1] < p[2] { p[2] } else { p[1] };
        assert(p[1] != p[2] && p[0] != p[2]);
        lemma_pairs_upto_contains(n, n, i, j);
        let rem = target - amts[k];
        lemma_with_sum_contains(all, amts, rem, (i as usize, j as usize));
        assert(ids[i] != ids[k] && ids[j] != ids[k]) by {
            if i < k {
                assert(ids[i] != ids[k]);
            } else {
                assert(ids[k] != ids[i]);
            }
            if j < k {
                assert(ids[j] != ids[k]);
            } else {
                assert(ids[k] != ids[j]);
            }
        }
        lemma_first_apart_complete(with_sum(all, amts, rem), ids, ids[k], (i as usize, j as usize));
        lemma_first3_complete(amts, ids, target, 0, k);
    } else {
        assert(p.len() == 4);
        assert(p[0] != p[2] && p[0] != p[3] && p[1] != p[2] && p[1] != p[3] && p[2] != p[3]);
        if max_len >= 3 && first3_from(amts, ids, target, 0) is Some {
        } else {
            let a0 = if p[0] < p[1] { p[0] } else { p[1] };
            let a1 = if p[0] < p[1] { p[1] } else { p[0] };
            let b0 = if p[2] < p[3] { p[2] } else { p[3] };
            let b1 = if p[2] < p[3] { p[3] } else { p[2] };
            let a = (a0 as usize, a1 as usize);
            let b = (b0 as usize, b1 as usize);
            lemma_pairs_upto_contains(n, n, b0, b1);
            let rem = target - pair_sum(amts, a);
            lemma_with_sum_contains(all, amts, rem, b);
            assert(ids[a0] != ids[b0] && ids[a0] != ids[b1] && ids[a1] != ids[b0] && ids[a1] != ids[b1]) by {
                assert(a0 != b0 && a0 != b1 && a1 != b0 && a1 != b1);
                if a0 < b0 { assert(ids[a0] != ids[b0]); } else { assert(ids[b0] != ids[a0]); }
                if a0 < b1 { assert(ids[a0] != ids[b1]); } else { assert(ids[b1] != ids[a0]); }
                if a1 < b0 { assert(ids[a1] != ids[b0]); } else { assert(ids[b0] != ids[a1]); }
                if a1 < b1 { assert(ids[a1] != ids[b1]); } else { assert(ids[b1] != ids[a1]); }
            }
            lemma_first_apart2_complete(with_sum(all, amts, rem), ids, a, b);
            lemma_first4_in_row_complete(amts, ids, target, a0, a0 + 1, a1);
            lemma_first4_complete(amts, ids, target, 0, a0);
        }
    }
}

// ── Executable search ──

/// The first pair of `cs`, from index `t` on, neither of whose ids is `id`.
fn find_apart(cs: &Vec<(usize, usize)>, ids: &Vec<u128>, id: u128) -> (r: Option<(usize, usize)>)
    requires
        forall|t: int| 0 <= t < cs.len() ==> #[trigger] valid_pair(cs@[t], ids.len() as int),
    ensures
        r == first_apart(cs@, ids@, id),
        r matches Some(p) ==> valid_pair(p, ids.len() as int),
{
    let mut t: usize = 0;
    assert(cs@.subrange(0, cs.len() as int) =~= cs@);
    while t < cs.len()
        invariant
            t <= cs.len(),
            forall|u: int| 0 <= u < cs.len() ==> #[trigger] valid_pair(cs@[u], ids.len() as int),
            first_apart(cs@, ids@, id) == first_apart(cs@.subrange(t as int, cs.len() as int), ids@, id),
        decreases cs.len() - t,
    {
        let (a, b) = cs[t];
        assert(valid_pair(cs@[t as int], ids.len() as int));
        let ghost rest = cs@.subrange(t as int, cs.len() as int);
        assert(rest[0] == cs@[t as int]);
        assert(rest.drop_first() =~= cs@.subrange(t + 1, cs.len() as int));
        if ids[a] != id && ids[b] != id {
            return Some((a, b));
        }
        t = t + 1;
    }
    assert(cs@.subrange(t as int, cs.len() as int).len() == 0);
    None
}

/// The first pair of `cs` sharing no id with the pair `x`.
fn find_apart2(cs: &Vec<(usize, usize)>, ids: &Vec<u128>, x: (usize, usize)) -> (r: Option<
    (usize, usize),
>)
    requires
        forall|t: int| 0 <= t < cs.len() ==> #[trigger] valid_pair(cs@[t], ids.len() as int),
        valid_pair(x, ids.len() as int),
    ensures
        r == first_apart2(cs@, ids@, x),
        r matches Some(p) ==> valid_pair(p, ids.len() as int),
{
    let mut t: usize = 0;
    assert(cs@.subrange(0, cs.len() as int) =~= cs@);
    while t < cs.len()
        invariant
            t <= cs.len(),
            valid_pair(x, ids.len() as int),
            forall|u: int| 0 <= u < cs.len() ==> #[trigger] valid_pair(cs@[u], ids.len() as int),
            first_apart2(cs@, ids@, x) == first_apart2(
                cs@.subrange(t as int, cs.len() as int),
                ids@,
                x,
            ),
        decreases cs.len() - t,
    {
        let (a, b) = cs[t];
        assert(valid_pair(cs@[t as int], ids.len() as int));
        let ghost rest = cs@.subrange(t as int, cs.len() as int);
        assert(rest[0] == cs@[t as int]);
        assert(rest.drop_first() =~= cs@.subrange(t + 1, cs.len() as int));
        if ids[x.0] != ids[a] && ids[x.0] != ids[b] && ids[x.1] != ids[a] && ids[x.1] != ids[b] {
            return Some((a, b));
        }
        t = t + 1;
    }
    assert(cs@.subrange(t as int, cs.len() as int).len() == 0);
    None
}

/// All pairs of positions, grouped by the sum of their amounts; each group
/// lists its pairs in lexicographic order.
fn pair_sums(amts: &Vec<i64>) -> (m: HashMap<i128, Vec<(usize, usize)>>)
    ensures
        forall|s: i128| #[trigger]
            m@.contains_key(s) <==> with_sum(all_pairs(amts.len() as int), amts@, s as int).len() > 0,
        forall|s: i128| #[trigger]
            m@.contains_key(s) ==> m@[s]@ == with_sum(all_pairs(amts.len() as int), amts@, s as int),
{
    let n = amts.len();
    let mut m: HashMap<i128, Vec<(usize, usize)>> = HashMap::new();
    let mut i: usize = 0;
    while i < n
        invariant
            n == amts.len(),
            i <= n,
            forall|s: i128| #[trigger]
                m@.contains_key(s) <==> with_sum(pairs_upto(i as int, n as int), amts@, s as int).len()
                    > 0,
            forall|s: i128| #[trigger]
                m@.contains_key(s) ==> m@[s]@ == with_sum(
                    pairs_upto(i as int, n as int),
                    amts@,
                    s as int,
                ),
        decreases n - i,
    {
        let ghost base = pairs_upto(i as int, n as int);
        let ghost row = row_pairs(i as int, n as int);
        let mut j: usize = i + 1;
        assert(base + row.take(0) =~= base);
        while j < n
            invariant
                n == amts.len(),
                i < n,
                i + 1 <= j <= n,
                base == pairs_upto(i as int, n as int),
                row == row_pairs(i as int, n as int),
                forall|s: i128| #[trigger]
                    m@.contains_key(s) <==> with_sum(base + row.take(j - i - 1), amts@, s as int).len()
                        > 0,
                forall|s: i128| #[trigger]
                    m@.contains_key(s) ==> m@[s]@ == with_sum(
                        base + row.take(j - i - 1),
                        amts@,
                        s as int,
                    ),
            decreases n - j,
        {
            let ghost done = base + row.take(j - i - 1);
            let s0: i128 = amts[i] as i128 + amts[j] as i128;
            let ghost p = (i, j);
            assert(row[j - i - 1] == p);
            assert(base + row.take(j - i) =~= done.push(p));
            proof {
                lemma_with_sum_push(done, amts@, s0 as int, p);
                assert(pair_sum(amts@, p) == s0);
            }
            let ghost old_m = m@;
            match m.remove(&s0) {
                Some(mut v) => {
                    v.push((i, j));
                    m.insert(s0, v);
                },
                None => {
                    let v = vec![(i, j)];
                    m.insert(s0, v);
                },
            }
            proof {
                assert forall|s: i128| #[trigger]
                    m@.contains_key(s) <==> with_sum(base + row.take(j + 1 - i - 1), amts@, s as int).len()
                        > 0 by {
                    lemma_with_sum_push(done, amts@, s as int, p);
                    if s != s0 {
                        assert(m@.contains_key(s) == old_m.contains_key(s));
                    }
                }
                assert forall|s: i128| #[trigger]
                    m@.contains_key(s) implies m@[s]@ == with_sum(
                        base + row.take(j + 1 - i - 1),
                        amts@,
                        s as int,
                    ) by {
                    lemma_with_sum_push(done, amts@, s as int, p);
                    if s != s0 {
                        assert(m@[s] == old_m[s]);
                    }
                }
            }
            j = j + 1;
        }
        assert(row.take(n - i - 1) =~= row);
        assert(pairs_upto(i + 1, n as int) == base + row);
        i = i + 1;
    }
    m
}

/// Ids of up to `max_len` items, at least two, whose amounts add up to
/// `target`: see `spec_subset_sum` for which items are taken. Sums are
/// computed without overflow.
pub fn subset_sum_of(amts: &Vec<i64>, ids: &Vec<u128>, target: i64, max_len: usize) -> (r: Option<
    Vec<u128>,
>)
    requires
        amts.len() == ids.len(),
    ensures
        match r {
            Some(v) => spec_subset_sum(amts@, ids@, target as int, max_len as int) == Some(v@),
            None => spec_subset_sum(amts@, ids@, target as int, max_len as int) is None,
        },
{
    let n = amts.len();
    if n < 2 || max_len < 2 {
        return None;
    }
    let cap = if max_len < 4 {
        max_len
    } else {
        4
    };
    let sums = pair_sums(amts);
    let ghost all = all_pairs(n as int);
    proof {
        lemma_pairs_upto_valid(n as int, n as int);
        assert forall|s: int, t: int|
            0 <= t < with_sum(all, amts@, s).len() implies #[trigger] valid_pair(
                with_sum(all, amts@, s)[t],
                n as int,
            ) by {
            lemma_with_sum_members(all, amts@, s, n as int);
        }
    }
    // Two items.
    let t128 = target as i128;
    if let Some(v) = sums.get(&t128) {
        assert(v@ == with_sum(all, amts@, target as int));
        assert(with_sum(all, amts@, target as int).len() > 0);
        let (a, b) = v[0];
        assert(valid_pair(with_sum(all, amts@, target as int)[0], n as int));
        let r = vec![ids[a], ids[b]];
        assert(r@ =~= seq![ids@[a as int], ids@[b as int]]);
        return Some(r);
    }
    assert(!sums@.contains_key(t128));
    assert(with_sum(all, amts@, target as int).len() == 0);
    // Three items.
    if cap >= 3 {
        let mut k: usize = 0;
        while k < n
            invariant
                n == amts.len(),
                n == ids.len(),
                k <= n,
                t128 == target as i128,
                n >= 2,
                max_len >= 3,
                with_sum(all, amts@, target as int).len() == 0,
                all == all_pairs(n as int),
                first3_from(amts@, ids@, target as int, 0) == first3_from(
                    amts@,
                    ids@,
                    target as int,
                    k as int,
                ),
                forall|s: i128| #[trigger]
                    sums@.contains_key(s) <==> with_sum(all, amts@, s as int).len() > 0,
                forall|s: i128| #[trigger]
                    sums@.contains_key(s) ==> sums@[s]@ == with_sum(all, amts@, s as int),
                forall|s: int, t: int|
                    0 <= t < with_sum(all, amts@, s).len() ==> #[trigger] valid_pair(
                        with_sum(all, amts@, s)[t],
                        n as int,
                    ),
            decreases n - k,
        {
            let rem: i128 = t128 - amts[k] as i128;
            let found = match sums.get(&rem) {
                Some(cs) => {
                    assert(cs@ == with_sum(all, amts@, rem as int));
                    find_apart(cs, ids, ids[k])
                },
                None => {
                    assert(with_sum(all, amts@, rem as int).len() == 0);
                    None
                },
            };
            assert(found == first_apart(
                with_sum(all, amts@, target as int - amts@[k as int]),
                ids@,
                ids@[k as int],
            ));
            if let Some((a, b)) = found {
                let r = vec![ids[k], ids[a], ids[b]];
                assert(r@ =~= seq![ids@[k as int], ids@[a as int], ids@[b as int]]);
                return Some(r);
            }
            k = k + 1;
        }
    }
    // Four items.
    if cap >= 4 {
        let mut i: usize = 0;
        while i < n
            invariant
                n == amts.len(),
                n == ids.len(),
                i <= n,
                t128 == target as i128,
                n >= 2,
                max_len >= 4,
                with_sum(all, amts@, target as int).len() == 0,
                first3_from(amts@, ids@, target as int, 0) is None,
                all == all_pairs(n as int),
                first4_from(amts@, ids@, target as int, 0) == first4_from(
                    amts@,
                    ids@,
                    target as int,
                    i as int,
                ),
                forall|s: i128| #[trigger]
                    sums@.contains_key(s) <==> with_sum(all, amts@, s as int).len() > 0,
                forall|s: i128| #[trigger]
                    sums@.contains_key(s) ==> sums@[s]@ == with_sum(all, amts@, s as int),
                forall|s: int, t: int|
                    0 <= t < with_sum(all, amts@, s).len() ==> #[trigger] valid_pair(
                        with_sum(all, amts@, s)[t],
                        n as int,
                    ),
            decreases n - i,
        {
            let mut j: usize = i + 1;
            while j < n
                invariant
                    n == amts.len(),
                    n == ids.len(),
                    i < n,
                    i + 1 <= j <= n,
                    t128 == target as i128,
                    n >= 2,
                    max_len >= 4,
                    with_sum(all, amts@, target as int).len() == 0,
                    first3_from(amts@, ids@, target as int, 0) is None,
                    all == all_pairs(n as int),
                    first4_from(amts@, ids@, target as int, 0) == first4_from(
                        amts@,
                        ids@,
                        target as int,
                        i as int,
                    ),
                    first4_from(amts@, ids@, target as int, i as int) == (match first4_in_row(
                        amts@,
                        ids@,
                        target as int,
                        i as int,
                        j as int,
                    ) {
                        Some(x) => Some(x),
                        None => first4_from(amts@, ids@, target as int, i + 1),
                    }),
                    forall|s: i128| #[trigger]
                        sums@.contains_key(s) <==> with_sum(all, amts@, s as int).len() > 0,
                    forall|s: i128| #[trigger]
                        sums@.contains_key(s) ==> sums@[s]@ == with_sum(all, amts@, s as int),
                    forall|s: int, t: int|
                        0 <= t < with_sum(all, amts@, s).len() ==> #[trigger] valid_pair(
                            with_sum(all, amts@, s)[t],
                            n as int,
                        ),
                decreases n - j,
            {
                let rem: i128 = t128 - (amts[i] as i128 + amts[j] as i128);
                let ghost a = (i, j);
                let found = match sums.get(&rem) {
                    Some(cs) => {
                        assert(cs@ == with_sum(all, amts@, rem as int));
                        find_apart2(cs, ids, (i, j))
                    },
                    None => {
                        assert(with_sum(all, amts@, rem as int).len() == 0);
                        None
                    },
                };
                assert(found == first_apart2(
                    with_sum(all, amts@, target as int - pair_sum(amts@, a)),
                    ids@,
                    a,
                ));
                if let Some((c, d)) = found {
                    let r = vec![ids[i], ids[j], ids[c], ids[d]];
                    assert(r@ =~= seq![
                        ids@[i as int],
                        ids@[j as int],
                        ids@[c as int],
                        ids@[d as int],
                    ]);
                    return Some(r);
                }
                j = j + 1;
            }
            i = i + 1;
        }
    }
    None
}

} // verus!
