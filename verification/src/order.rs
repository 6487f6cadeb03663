//! Stable ordering by an integer key.
//!
//! Sorting a list stably by a key means listing its positions by key, and
//! positions with equal keys in the order they came in: the order of the
//! pairs `(key, position)`. The functions here compute that order of
//! positions; callers then read their items in it.

use vstd::prelude::*;
use crate::text::{lemma_seq_lt_cotransitive, lemma_seq_lt_transitive, seq_lt, text_lt};

verus! {

/// The texts held by a list of character vectors.
pub open spec fn texts_of(v: Seq<Vec<char>>) -> Seq<Seq<char>> {
    Seq::new(v.len(), |k: int| v[k]@)
}

} // verus!

verus! {

/// `idx` lists every position of `keys` once, ordered by key and, among
/// equal keys, by position.
pub open spec fn is_stable_order(keys: Seq<i128>, idx: Seq<usize>) -> bool {
    &&& idx.len() == keys.len()
    &&& forall|a: int| 0 <= a < idx.len() ==> #[trigger] idx[a] < keys.len()
    &&& forall|a: int, b: int|
        #![trigger idx[a], idx[b]]
        0 <= a < b < idx.len() ==> keys[idx[a] as int] < keys[idx[b] as int] || (keys[idx[a] as int]
            == keys[idx[b] as int] && idx[a] < idx[b])
}

/// The positions of `keys` in stable ascending order of their keys.
pub fn stable_order(keys: &Vec<i128>) -> (idx: Vec<usize>)
    ensures
        is_stable_order(keys@, idx@),
{
    let n = keys.len();
    let mut out: Vec<usize> = Vec::new();
    let mut i: usize = 0;
    while i < n
        invariant
            n == keys.len(),
            i <= n,
            out.len() == i,
            forall|a: int| 0 <= a < out.len() ==> #[trigger] out@[a] < i,
            forall|a: int, b: int|
                #![trigger out@[a], out@[b]]
                0 <= a < b < out.len() ==> keys@[out@[a] as int] < keys@[out@[b] as int] || (
                keys@[out@[a] as int] == keys@[out@[b] as int] && out@[a] < out@[b]),
        decreases n - i,
    {
        let k = keys[i];
        let mut p: usize = 0;
        while p < out.len() && keys[out[p]] <= k
            invariant
                n == keys.len(),
                i < n,
                k == keys@[i as int],
                p <= out.len(),
                forall|a: int| 0 <= a < out.len() ==> #[trigger] out@[a] < i,
                forall|a: int| 0 <= a < p ==> keys@[#[trigger] out@[a] as int] <= k,
                forall|a: int, b: int|
                    #![trigger out@[a], out@[b]]
                    0 <= a < b < out.len() ==> keys@[out@[a] as int] < keys@[out@[b] as int] || (
                    keys@[out@[a] as int] == keys@[out@[b] as int] && out@[a] < out@[b]),
            decreases out.len() - p,
        {
            p = p + 1;
        }
        let ghost old_out = out@;
        out.insert(p, i);
        proof {
            assert(out@ == old_out.insert(p as int, i));
            assert forall|a: int, b: int|
                #![trigger out@[a], out@[b]]
                0 <= a < b < out.len() implies keys@[out@[a] as int] < keys@[out@[b] as int] || (
            keys@[out@[a] as int] == keys@[out@[b] as int] && out@[a] < out@[b]) by {
                if a < p && b < p {
                    assert(out@[a] == old_out[a] && out@[b] == old_out[b]);
                } else if a < p && b == p {
                    assert(out@[a] == old_out[a]);
                    assert(keys@[old_out[a] as int] <= k);
                } else if a < p {
                    assert(out@[a] == old_out[a] && out@[b] == old_out[b - 1]);
                } else if a == p {
                    assert(out@[b] == old_out[b - 1]);
                    assert(keys@[old_out[p as int] as int] > k) by {
                        if p < old_out.len() {
                            assert(!(keys@[old_out[p as int] as int] <= k));
                        }
                    }
                    if b - 1 > p {
                        assert(keys@[old_out[p as int] as int] <= keys@[old_out[b - 1] as int]);
                    }
                } else {
                    assert(out@[a] == old_out[a - 1] && out@[b] == old_out[b - 1]);
                }
            }
        }
        i = i + 1;
    }
    out
}

/// `idx` lists every position of `keys` once, from the largest text to the
/// smallest and, among equal texts (neither sorts before the other), by
/// position.
pub open spec fn is_stable_desc_order(keys: Seq<Seq<char>>, idx: Seq<usize>) -> bool {
    &&& idx.len() == keys.len()
    &&& forall|a: int| 0 <= a < idx.len() ==> #[trigger] idx[a] < keys.len()
    &&& forall|a: int, b: int|
        #![trigger idx[a], idx[b]]
        0 <= a < b < idx.len() ==> seq_lt(keys[idx[b] as int], keys[idx[a] as int]) || (!seq_lt(
            keys[idx[a] as int],
            keys[idx[b] as int],
        ) && idx[a] < idx[b])
}

/// The positions of the texts `keys`, largest first, equal texts in their
/// order.
pub fn stable_order_desc(keys: &Vec<Vec<char>>) -> (idx: Vec<usize>)
    ensures
        is_stable_desc_order(texts_of(keys@), idx@),
{
    let ghost ks = texts_of(keys@);
    let n = keys.len();
    let mut out: Vec<usize> = Vec::new();
    let mut i: usize = 0;
    while i < n
        invariant
            n == keys.len(),
            ks == texts_of(keys@),
            i <= n,
            out.len() == i,
            forall|a: int| 0 <= a < out.len() ==> #[trigger] out@[a] < i,
            forall|a: int, b: int|
                #![trigger out@[a], out@[b]]
                0 <= a < b < out.len() ==> seq_lt(ks[out@[b] as int], ks[out@[a] as int]) || (
                !seq_lt(ks[out@[a] as int], ks[out@[b] as int]) && out@[a] < out@[b]),
        decreases n - i,
    {
        let ghost k = ks[i as int];
        let mut p: usize = 0;
        while p < out.len() && !text_lt(&keys[out[p]], &keys[i])
            invariant
                n == keys.len(),
                ks == texts_of(keys@),
                i < n,
                k == ks[i as int],
                p <= out.len(),
                forall|a: int| 0 <= a < out.len() ==> #[trigger] out@[a] < i,
                forall|a: int| 0 <= a < p ==> !seq_lt(#[trigger] ks[out@[a] as int], k),
                forall|a: int, b: int|
                    #![trigger out@[a], out@[b]]
                    0 <= a < b < out.len() ==> seq_lt(ks[out@[b] as int], ks[out@[a] as int]) || (
                    !seq_lt(ks[out@[a] as int], ks[out@[b] as int]) && out@[a] < out@[b]),
            decreases out.len() - p,
        {
            p = p + 1;
        }
        let ghost old_out = out@;
        out.insert(p, i);
        proof {
            assert(out@ == old_out.insert(p as int, i));
            assert forall|a: int, b: int|
                #![trigger out@[a], out@[b]]
                0 <= a < b < out.len() implies seq_lt(ks[out@[b] as int], ks[out@[a] as int]) || (
            !seq_lt(ks[out@[a] as int], ks[out@[b] as int]) && out@[a] < out@[b]) by {
                if a < p && b < p {
                    assert(out@[a] == old_out[a] && out@[b] == old_out[b]);
                } else if a < p && b == p {
                    assert(out@[a] == old_out[a]);
                    assert(!seq_lt(ks[old_out[a] as int], k));
                } else if a < p {
                    assert(out@[a] == old_out[a] && out@[b] == old_out[b - 1]);
                } else if a == p {
                    assert(out@[b] == old_out[b - 1]);
                    let x = ks[old_out[p as int] as int];
                    assert(seq_lt(x, k));
                    let y = ks[old_out[b - 1] as int];
                    if b - 1 > p {
                        if seq_lt(y, x) {
                            lemma_seq_lt_transitive(y, x, k);
                        } else {
                            assert(!seq_lt(x, y));
                            lemma_seq_lt_cotransitive(x, y, k);
                        }
                    }
                } else {
                    assert(out@[a] == old_out[a - 1] && out@[b] == old_out[b - 1]);
                }
            }
        }
        i = i + 1;
    }
    out
}

} // verus!
