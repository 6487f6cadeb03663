//! Reconciliation of outgoing transactions against reconciled ones.
//!
//! Ids are UUIDs held as their 128-bit value, dates as day numbers (see
//! `dates`), amounts in cents.

use vstd::prelude::*;
use crate::money::{format_cents, spec_format_cents};
use crate::order::{is_stable_order, stable_order};
use crate::text::{chars_of, extend_chars, string_of};
use crate::subset::{ids_at, is_combination, lemma_subset_sum_sound, spec_subset_sum, subset_sum_of, sum_at};

verus! {

/// A named reconciliation session.
pub struct ReconcileSession {
    pub session_id: u128,
    pub name: String,
}

/// A transaction on the outgoing side of a session.
pub struct OutgoingTxn {
    pub txn_id: u128,
    pub session_id: u128,
    pub date: i32,
    pub amount: i64,
    pub vendor: String,
    pub matched: bool,
    pub ignored: bool,
    /// Extra columns of the imported row, as key-value pairs; no key occurs
    /// twice (see `well_formed`).
    pub metadata: Vec<(String, String)>,
}

/// A transaction on the reconciled side of a session.
pub struct ReconciledTxn {
    pub txn_id: u128,
    pub session_id: u128,
    pub date: i32,
    pub amount: i64,
    pub vendor: String,
    pub matched: bool,
    pub ignored: bool,
    /// Extra columns of the imported row, as key-value pairs; no key occurs
    /// twice (see `well_formed`).
    pub metadata: Vec<(String, String)>,
}

/// Whether no key occurs twice among the key-value pairs: the pairs are a
/// map from key to value.
pub open spec fn keys_distinct(m: Seq<(String, String)>) -> bool {
    forall|i: int, j: int| 0 <= i < j < m.len() ==> (#[trigger] m[i]).0@ != (#[trigger] m[j]).0@
}

impl OutgoingTxn {
    /// The transaction's invariant: its metadata is a map.
    pub open spec fn well_formed(&self) -> bool {
        keys_distinct(self.metadata@)
    }
}

impl ReconciledTxn {
    /// The transaction's invariant: its metadata is a map.
    pub open spec fn well_formed(&self) -> bool {
        keys_distinct(self.metadata@)
    }
}

/// A link between an outgoing and a reconciled transaction.
pub struct MatchLink {
    pub match_id: u128,
    pub outgoing_id: u128,
    pub reconciled_id: u128,
}

/// A proposed match: an outgoing transaction and the reconciled
/// transactions that together make up its amount.
pub struct Proposal {
    pub outgoing_id: u128,
    pub reconciled_ids: Vec<u128>,
}

/// The order in which transactions are listed.
#[derive(Clone, Copy, Debug, PartialEq, Eq, Structural)]
pub enum SortOrder {
    Date,
    Amount,
}

impl Default for SortOrder {
    /// Transactions are listed by date unless asked otherwise.
    fn default() -> (s: SortOrder)
        ensures
            s == SortOrder::Date,
    {
        SortOrder::Date
    }
}

/// The name of a sort order, as it appears in query strings.
pub open spec fn sort_order_name(s: SortOrder) -> Seq<char> {
    match s {
        SortOrder::Date => "date"@,
        SortOrder::Amount => "amount"@,
    }
}

impl SortOrder {
    /// The sort order's name: `date` or `amount`.
    pub fn to_string(&self) -> (r: String)
        ensures
            r@ == sort_order_name(*self),
    {
        match self {
            SortOrder::Date => "date".to_owned(),
            SortOrder::Amount => "amount".to_owned(),
        }
    }
}

// ── Views of the transaction lists ──

/// The outgoing transactions that auto-matching considers, as `(id,
/// amount)`: those not matched yet and not skipped, in their order.
pub open spec fn open_outgoing(out: Seq<OutgoingTxn>, skip: Seq<u128>) -> Seq<(u128, i64)>
    decreases out.len(),
{
    if out.len() == 0 {
        Seq::empty()
    } else {
        let rest = open_outgoing(out.drop_last(), skip);
        let o = out.last();
        if !o.matched && !skip.contains(o.txn_id) {
            rest.push((o.txn_id, o.amount))
        } else {
            rest
        }
    }
}

/// The reconciled transactions not matched yet, as `(id, amount)`, in
/// their order.
pub open spec fn open_reconciled(rec: Seq<ReconciledTxn>) -> Seq<(u128, i64)>
    decreases rec.len(),
{
    if rec.len() == 0 {
        Seq::empty()
    } else {
        let rest = open_reconciled(rec.drop_last());
        let r = rec.last();
        if !r.matched {
            rest.push((r.txn_id, r.amount))
        } else {
            rest
        }
    }
}

/// Keys that order transactions by amount, largest first.
pub open spec fn desc_amount_keys(u: Seq<(u128, i64)>) -> Seq<i128> {
    Seq::new(u.len(), |a: int| (-(u[a].1 as int)) as i128)
}

/// The items of `u` read in the order of the positions `idx`.
pub open spec fn reorder(u: Seq<(u128, i64)>, idx: Seq<usize>) -> Seq<(u128, i64)> {
    Seq::new(idx.len(), |a: int| u[idx[a] as int])
}

/// The first transaction of `rs` not in `used` whose amount is `amount`.
pub open spec fn first_exact(rs: Seq<(u128, i64)>, used: Seq<u128>, amount: i64) -> Option<u128>
    decreases rs.len(),
{
    if rs.len() == 0 {
        None
    } else if !used.contains(rs[0].0) && rs[0].1 == amount {
        Some(rs[0].0)
    } else {
        first_exact(rs.drop_first(), used, amount)
    }
}

/// The amounts of the transactions of `rs` not in `used`.
pub open spec fn avail_amounts(rs: Seq<(u128, i64)>, used: Seq<u128>) -> Seq<i64>
    decreases rs.len(),
{
    if rs.len() == 0 {
        Seq::empty()
    } else {
        let rest = avail_amounts(rs.drop_last(), used);
        if !used.contains(rs.last().0) {
            rest.push(rs.last().1)
        } else {
            rest
        }
    }
}

/// The ids of the transactions of `rs` not in `used`.
pub open spec fn avail_ids(rs: Seq<(u128, i64)>, used: Seq<u128>) -> Seq<u128>
    decreases rs.len(),
{
    if rs.len() == 0 {
        Seq::empty()
    } else {
        let rest = avail_ids(rs.drop_last(), used);
        if !used.contains(rs.last().0) {
            rest.push(rs.last().0)
        } else {
            rest
        }
    }
}

/// The proposals for the outgoing transactions `us`, taken in order,
/// given the reconciled transactions `rs` and the ids `used` already
/// proposed: the first unused transaction of the same amount, or else a
/// combination of two to four unused transactions adding up to it; an
/// outgoing transaction with neither gets no proposal.
pub open spec fn plan(us: Seq<(u128, i64)>, rs: Seq<(u128, i64)>, used: Seq<u128>) -> Seq<
    (u128, Seq<u128>),
>
    decreases us.len(),
{
    if us.len() == 0 {
        Seq::empty()
    } else {
        let o = us[0];
        match first_exact(rs, used, o.1) {
            Some(r) => seq![(o.0, seq![r])] + plan(us.drop_first(), rs, used.push(r)),
            None => match spec_subset_sum(
                avail_amounts(rs, used),
                avail_ids(rs, used),
                o.1 as int,
                4,
            ) {
                Some(c) => seq![(o.0, c)] + plan(us.drop_first(), rs, used + c),
                None => plan(us.drop_first(), rs, used),
            },
        }
    }
}

/// A proposal as the outgoing id and the reconciled ids.
pub open spec fn proposal_views(ps: Seq<Proposal>) -> Seq<(u128, Seq<u128>)> {
    Seq::new(ps.len(), |i: int| (ps[i].outgoing_id, ps[i].reconciled_ids@))
}

/// The amounts and ids of a list of reconciled transactions.
pub open spec fn txn_amounts(items: Seq<ReconciledTxn>) -> Seq<i64> {
    Seq::new(items.len(), |i: int| items[i].amount)
}

/// The ids of a list of reconciled transactions.
pub open spec fn txn_ids(items: Seq<ReconciledTxn>) -> Seq<u128> {
    Seq::new(items.len(), |i: int| items[i].txn_id)
}

// ── What every plan keeps ──

/// The amount of the first transaction of `rs` with the id, or 0.
pub open spec fn amount_of(rs: Seq<(u128, i64)>, id: u128) -> int
    decreases rs.len(),
{
    if rs.len() == 0 {
        0
    } else if rs[0].0 == id {
        rs[0].1 as int
    } else {
        amount_of(rs.drop_first(), id)
    }
}

/// The total amount of the transactions of `rs` with the ids.
pub open spec fn amounts_total(rs: Seq<(u128, i64)>, ids: Seq<u128>) -> int
    decreases ids.len(),
{
    if ids.len() == 0 {
        0
    } else {
        amounts_total(rs, ids.drop_last()) + amount_of(rs, ids.last())
    }
}

/// All reconciled ids of the proposals, in order.
pub open spec fn proposed_ids(ps: Seq<(u128, Seq<u128>)>) -> Seq<u128>
    decreases ps.len(),
{
    if ps.len() == 0 {
        Seq::empty()
    } else {
        ps[0].1 + proposed_ids(ps.drop_first())
    }
}

/// The ids of the transactions, all different.
pub open spec fn unique_ids(rs: Seq<(u128, i64)>) -> bool {
    forall|i: int, j: int| 0 <= i < j < rs.len() ==> #[trigger] rs[i].0 != #[trigger] rs[j].0
}

/// A proposal is sound: its outgoing transaction is one of `us`, it names
/// one to four reconciled transactions of `rs`, and their amounts add up
/// to the outgoing amount.
pub open spec fn sound_proposal(us: Seq<(u128, i64)>, rs: Seq<(u128, i64)>, p: (u128, Seq<u128>)) -> bool {
    &&& exists|t: int| 0 <= t < us.len() && #[trigger] us[t].0 == p.0 && amounts_total(rs, p.1) == us[t].1
    &&& 1 <= p.1.len() <= 4
    &&& forall|a: int| 0 <= a < p.1.len() ==> has_id(rs, #[trigger] p.1[a])
}

/// Whether some transaction of `rs` has the id.
pub open spec fn has_id(rs: Seq<(u128, i64)>, id: u128) -> bool {
    exists|t: int| 0 <= t < rs.len() && #[trigger] rs[t].0 == id
}

proof fn lemma_amount_of_at(rs: Seq<(u128, i64)>, t: int)
    requires
        unique_ids(rs),
        0 <= t < rs.len(),
    ensures
        amount_of(rs, rs[t].0) == rs[t].1,
    decreases t,
{
    if t > 0 {
        assert(rs[0].0 != rs[t].0);
        let q = rs.drop_first();
        assert forall|i: int, j: int| 0 <= i < j < q.len() implies #[trigger] q[i].0 != #[trigger] q[j].0 by {
            assert(q[i] == rs[i + 1] && q[j] == rs[j + 1]);
        }
        assert(q[t - 1] == rs[t]);
        lemma_amount_of_at(q, t - 1);
    }
}

proof fn lemma_first_exact_found(rs: Seq<(u128, i64)>, used: Seq<u128>, amount: i64)
    ensures
        first_exact(rs, used, amount) matches Some(r) ==> !used.contains(r) && exists|t: int|
            0 <= t < rs.len() && #[trigger] rs[t].0 == r && rs[t].1 == amount,
    decreases rs.len(),
{
    if rs.len() > 0 {
        lemma_first_exact_found(rs.drop_first(), used, amount);
        match first_exact(rs.drop_first(), used, amount) {
            Some(r) => {
                let t = choose|t: int| 0 <= t < rs.drop_first().len() && #[trigger] rs.drop_first()[t].0 == r
                    && rs.drop_first()[t].1 == amount;
                assert(rs[t + 1] == rs.drop_first()[t]);
            },
            None => {},
        }
        assert(rs[0].0 == rs[0].0);
    }
}

/// The available transactions: their ids are not used, are ids of `rs`
/// and are all different, and their amounts are those of `rs`.
proof fn lemma_available(rs: Seq<(u128, i64)>, used: Seq<u128>, full: Seq<(u128, i64)>)
    requires
        unique_ids(full),
        rs.len() <= full.len(),
        rs == full.take(rs.len() as int),
    ensures
        avail_ids(rs, used).len() == avail_amounts(rs, used).len(),
        avail_ids(rs, used).len() <= rs.len(),
        forall|x: int| 0 <= x < avail_ids(rs, used).len() ==> !used.contains(#[trigger] avail_ids(rs, used)[x]),
        forall|x: int| 0 <= x < avail_ids(rs, used).len() ==> has_id(rs, #[trigger] avail_ids(rs, used)[x]),
        forall|x: int|
            0 <= x < avail_ids(rs, used).len() ==> #[trigger] avail_amounts(rs, used)[x] == amount_of(
                full,
                avail_ids(rs, used)[x],
            ),
        forall|x: int, y: int|
            0 <= x < y < avail_ids(rs, used).len() ==> #[trigger] avail_ids(rs, used)[x] != #[trigger] avail_ids(rs, used)[y],
    decreases rs.len(),
{
    if rs.len() > 0 {
        let q = rs.drop_last();
        assert(q == full.take(q.len() as int));
        lemma_available(q, used, full);
        let ai = avail_ids(q, used);
        let last = rs.last();
        assert(rs[rs.len() - 1] == full[rs.len() - 1]);
        lemma_amount_of_at(full, rs.len() - 1);
        if !used.contains(last.0) {
            let ni = avail_ids(rs, used);
            let na = avail_amounts(rs, used);
            assert(ni == ai.push(last.0));
            assert forall|x: int| 0 <= x < ni.len() implies has_id(rs, #[trigger] ni[x]) by {
                if x < ai.len() {
                    assert(has_id(q, ai[x]));
                    let t = choose|t: int| 0 <= t < q.len() && #[trigger] q[t].0 == ai[x];
                    assert(rs[t] == q[t]);
                } else {
                    assert(rs[rs.len() - 1].0 == ni[x]);
                }
            }
            assert forall|x: int, y: int| 0 <= x < y < ni.len() implies #[trigger] ni[x] != #[trigger] ni[y] by {
                if y == ai.len() {
                    assert(has_id(q, ai[x]));
                    let t = choose|t: int| 0 <= t < q.len() && #[trigger] q[t].0 == ai[x];
                    assert(full[t] == q[t]);
                    assert(full[t].0 != full[rs.len() - 1].0);
                }
            }
        } else {
            assert forall|x: int| 0 <= x < ai.len() implies has_id(rs, #[trigger] ai[x]) by {
                assert(has_id(q, ai[x]));
                let t = choose|t: int| 0 <= t < q.len() && #[trigger] q[t].0 == ai[x];
                assert(rs[t] == q[t]);
            }
        }
    }
}

proof fn lemma_amounts_total_at(full: Seq<(u128, i64)>, ai: Seq<u128>, aa: Seq<i64>, p: Seq<int>)
    requires
        ai.len() == aa.len(),
        forall|a: int| 0 <= a < p.len() ==> 0 <= #[trigger] p[a] < ai.len(),
        forall|x: int| 0 <= x < ai.len() ==> #[trigger] aa[x] == amount_of(full, ai[x]),
    ensures
        amounts_total(full, ids_at(ai, p)) == sum_at(aa, p),
    decreases p.len(),
{
    if p.len() > 0 {
        let q = p.drop_last();
        lemma_amounts_total_at(full, ai, aa, q);
        assert(ids_at(ai, p).drop_last() =~= ids_at(ai, q));
        assert(ids_at(ai, p).last() == ai[p.last()]);
        assert(aa[p.last()] == amount_of(full, ai[p.last()]));
    }
}

/// The proposals of an auto-match plan are sound: each names one to four
/// reconciled transactions whose amounts add up to its outgoing
/// transaction's, no reconciled transaction is proposed twice, and none
/// that was used already is proposed. The reconciled ids must be all
/// different.
pub proof fn lemma_plan_sound(us: Seq<(u128, i64)>, rs: Seq<(u128, i64)>, used: Seq<u128>)
    requires
        unique_ids(rs),
        rs.len() <= usize::MAX,
    ensures
        forall|k: int| 0 <= k < plan(us, rs, used).len() ==> sound_proposal(us, rs, #[trigger] plan(us, rs, used)[k]),
        proposed_ids(plan(us, rs, used)).no_duplicates(),
        forall|x: int| 0 <= x < proposed_ids(plan(us, rs, used)).len() ==> !used.contains(#[trigger] proposed_ids(plan(us, rs, used))[x]),
    decreases us.len(),
{
    if us.len() > 0 {
        let o = us[0];
        let rest = us.drop_first();
        match first_exact(rs, used, o.1) {
            Some(r) => {
                lemma_first_exact_found(rs, used, o.1);
                let t0 = choose|t: int| 0 <= t < rs.len() && #[trigger] rs[t].0 == r && rs[t].1 == o.1;
                lemma_amount_of_at(rs, t0);
                let nu = used.push(r);
                lemma_plan_sound(rest, rs, nu);
                let tail = plan(rest, rs, nu);
                let pl = plan(us, rs, used);
                let head = (o.0, seq![r]);
                assert(pl == seq![head] + tail);
                assert(pl.drop_first() =~= tail);
                assert(proposed_ids(pl) == seq![r] + proposed_ids(tail));
                assert(seq![r].drop_last() =~= Seq::<u128>::empty());
                assert(seq![r].last() == r);
                assert(amounts_total(rs, Seq::<u128>::empty()) == 0);
                assert(amounts_total(rs, seq![r]) == amount_of(rs, r));
                assert forall|k: int| 0 <= k < pl.len() implies sound_proposal(us, rs, #[trigger] pl[k]) by {
                    if k == 0 {
                        assert(us[0].0 == pl[0].0);
                        assert forall|a: int| 0 <= a < pl[0].1.len() implies has_id(rs, #[trigger] pl[0].1[a]) by {
                            assert(rs[t0].0 == pl[0].1[a]);
                        }
                    } else {
                        assert(pl[k] == tail[k - 1]);
                        assert(sound_proposal(rest, rs, tail[k - 1]));
                        let t = choose|t: int| 0 <= t < rest.len() && #[trigger] rest[t].0 == tail[k - 1].0 && amounts_total(rs, tail[k - 1].1) == rest[t].1;
                        assert(us[t + 1] == rest[t]);
                    }
                }
                let ti = proposed_ids(tail);
                assert forall|x: int| 0 <= x < ti.len() implies #[trigger] ti[x] != r by {
                    assert(!nu.contains(ti[x]));
                    assert(nu[used.len() as int] == r);
                }
                assert(proposed_ids(pl).no_duplicates()) by {
                    let pi = proposed_ids(pl);
                    assert forall|x: int, y: int| 0 <= x < pi.len() && 0 <= y < pi.len() && x != y implies pi[x] != pi[y] by {
                        if x == 0 {
                            assert(pi[y] == ti[y - 1]);
                        } else if y == 0 {
                            assert(pi[x] == ti[x - 1]);
                        } else {
                            assert(pi[x] == ti[x - 1] && pi[y] == ti[y - 1]);
                        }
                    }
                }
                assert forall|x: int| 0 <= x < proposed_ids(pl).len() implies !used.contains(#[trigger] proposed_ids(pl)[x]) by {
                    let pi = proposed_ids(pl);
                    if x == 0 {
                    } else {
                        assert(pi[x] == ti[x - 1]);
                        assert(!nu.contains(ti[x - 1]));
                        if used.contains(ti[x - 1]) {
                            let u = choose|u: int| 0 <= u < used.len() && used[u] == ti[x - 1];
                            assert(nu[u] == used[u]);
                        }
                    }
                }
            },
            None => {
                let ai = avail_ids(rs, used);
                let aa = avail_amounts(rs, used);
                assert(rs == rs.take(rs.len() as int));
                lemma_available(rs, used, rs);
                match spec_subset_sum(aa, ai, o.1 as int, 4) {
                    Some(c) => {
                        lemma_subset_sum_sound(aa, ai, o.1 as int, 4);
                        let p = choose|p: Seq<int>| is_combination(aa, o.1 as int, 4, p) && c == ids_at(ai, p);
                        lemma_amounts_total_at(rs, ai, aa, p);
                        let nu = used + c;
                        lemma_plan_sound(rest, rs, nu);
                        let tail = plan(rest, rs, nu);
                        let pl = plan(us, rs, used);
                        assert(pl == seq![(o.0, c)] + tail);
                        assert(pl.drop_first() =~= tail);
                        assert(proposed_ids(pl) == c + proposed_ids(tail));
                        assert forall|k: int| 0 <= k < pl.len() implies sound_proposal(us, rs, #[trigger] pl[k]) by {
                            if k == 0 {
                                assert(us[0].0 == pl[0].0);
                                assert forall|a: int| 0 <= a < c.len() implies has_id(rs, #[trigger] c[a]) by {
                                    assert(c[a] == ai[p[a]]);
                                    assert(has_id(rs, ai[p[a]]));
                                }
                            } else {
                                assert(pl[k] == tail[k - 1]);
                                assert(sound_proposal(rest, rs, tail[k - 1]));
                                let t = choose|t: int| 0 <= t < rest.len() && #[trigger] rest[t].0 == tail[k - 1].0 && amounts_total(rs, tail[k - 1].1) == rest[t].1;
                                assert(us[t + 1] == rest[t]);
                            }
                        }
                        let ti = proposed_ids(tail);
                        assert forall|x: int, y: int| 0 <= x < c.len() && 0 <= y < ti.len() implies #[trigger] c[x] != #[trigger] ti[y] by {
                            assert(!nu.contains(ti[y]));
                            assert(nu[used.len() + x] == c[x]);
                        }
                        assert forall|x: int, y: int| 0 <= x < y < c.len() implies #[trigger] c[x] != #[trigger] c[y] by {
                            assert(c[x] == ai[p[x]] && c[y] == ai[p[y]]);
                            assert(p[x] != p[y]);
                            if p[x] < p[y] {
                                assert(ai[p[x]] != ai[p[y]]);
                            } else {
                                assert(ai[p[y]] != ai[p[x]]);
                            }
                        }
                        assert(proposed_ids(pl).no_duplicates()) by {
                            let pi = proposed_ids(pl);
                            assert forall|x: int, y: int| 0 <= x < pi.len() && 0 <= y < pi.len() && x != y implies pi[x] != pi[y] by {
                                if x < c.len() && y < c.len() {
                                    assert(pi[x] == c[x] && pi[y] == c[y]);
                                    if x < y {
                                        assert(c[x] != c[y]);
                                    } else {
                                        assert(c[y] != c[x]);
                                    }
                                } else if x < c.len() {
                                    assert(pi[x] == c[x] && pi[y] == ti[y - c.len()]);
                                } else if y < c.len() {
                                    assert(pi[y] == c[y] && pi[x] == ti[x - c.len()]);
                                } else {
                                    assert(pi[x] == ti[x - c.len()] && pi[y] == ti[y - c.len()]);
                                }
                            }
                        }
                        assert forall|x: int| 0 <= x < proposed_ids(pl).len() implies !used.contains(#[trigger] proposed_ids(pl)[x]) by {
                            let pi = proposed_ids(pl);
                            if x < c.len() {
                                assert(pi[x] == c[x]);
                                assert(c[x] == ai[p[x]]);
                            } else {
                                assert(pi[x] == ti[x - c.len()]);
                                if used.contains(ti[x - c.len()]) {
                                    let u = choose|u: int| 0 <= u < used.len() && used[u] == ti[x - c.len()];
                                    assert(nu[u] == used[u]);
                                }
                            }
                        }
                    },
                    None => {
                        lemma_plan_sound(rest, rs, used);
                        let tail = plan(rest, rs, used);
                        let pl = plan(us, rs, used);
                        assert(pl == tail);
                        assert forall|k: int| 0 <= k < pl.len() implies sound_proposal(us, rs, #[trigger] pl[k]) by {
                            assert(sound_proposal(rest, rs, tail[k]));
                            let t = choose|t: int| 0 <= t < rest.len() && #[trigger] rest[t].0 == tail[k].0 && amounts_total(rs, tail[k].1) == rest[t].1;
                            assert(us[t + 1] == rest[t]);
                        }
                    },
                }
            },
        }
    }
}

// ── Executable parts ──

/// Whether `id` is among `ids`.
fn contains_id(ids: &Vec<u128>, id: u128) -> (r: bool)
    ensures
        r == ids@.contains(id),
{
    let mut i: usize = 0;
    while i < ids.len()
        invariant
            i <= ids.len(),
            forall|j: int| 0 <= j < i ==> ids@[j] != id,
        decreases ids.len() - i,
    {
        if ids[i] == id {
            return true;
        }
        i = i + 1;
    }
    false
}

/// The ids of up to `max_len` of `items`, at least two, whose amounts add
/// up to `target`; `None` when there are none. Pairs are tried first, then
/// triples, then (with `max_len` at least four) quadruples.
pub fn find_subset_sum(items: &Vec<ReconciledTxn>, target: i64, max_len: usize) -> (r: Option<
    Vec<u128>,
>)
    ensures
        match r {
            Some(v) => spec_subset_sum(
                txn_amounts(items@),
                txn_ids(items@),
                target as int,
                max_len as int,
            ) == Some(v@),
            None => spec_subset_sum(
                txn_amounts(items@),
                txn_ids(items@),
                target as int,
                max_len as int,
            ) is None,
        },
{
    let mut amts: Vec<i64> = Vec::new();
    let mut ids: Vec<u128> = Vec::new();
    let mut i: usize = 0;
    while i < items.len()
        invariant
            i <= items.len(),
            amts@ == txn_amounts(items@).take(i as int),
            ids@ == txn_ids(items@).take(i as int),
        decreases items.len() - i,
    {
        amts.push(items[i].amount);
        ids.push(items[i].txn_id);
        assert(amts@ =~= txn_amounts(items@).take(i + 1));
        assert(ids@ =~= txn_ids(items@).take(i + 1));
        i = i + 1;
    }
    assert(amts@ =~= txn_amounts(items@));
    assert(ids@ =~= txn_ids(items@));
    subset_sum_of(&amts, &ids, target, max_len)
}

/// The unmatched, unskipped outgoing transactions, as `(id, amount)`.
fn collect_open_outgoing(out: &Vec<OutgoingTxn>, skip: &Vec<u128>) -> (r: Vec<(u128, i64)>)
    ensures
        r@ == open_outgoing(out@, skip@),
{
    let mut r: Vec<(u128, i64)> = Vec::new();
    let mut i: usize = 0;
    while i < out.len()
        invariant
            i <= out.len(),
            r@ == open_outgoing(out@.take(i as int), skip@),
        decreases out.len() - i,
    {
        assert(out@.take(i + 1).drop_last() =~= out@.take(i as int));
        let skipped = contains_id(skip, out[i].txn_id);
        if !out[i].matched && !skipped {
            r.push((out[i].txn_id, out[i].amount));
        }
        i = i + 1;
    }
    assert(out@.take(out.len() as int) =~= out@);
    r
}

/// The unmatched reconciled transactions, as `(id, amount)`.
fn collect_open_reconciled(rec: &Vec<ReconciledTxn>) -> (r: Vec<(u128, i64)>)
    ensures
        r@ == open_reconciled(rec@),
{
    let mut r: Vec<(u128, i64)> = Vec::new();
    let mut i: usize = 0;
    while i < rec.len()
        invariant
            i <= rec.len(),
            r@ == open_reconciled(rec@.take(i as int)),
        decreases rec.len() - i,
    {
        assert(rec@.take(i + 1).drop_last() =~= rec@.take(i as int));
        if !rec[i].matched {
            r.push((rec[i].txn_id, rec[i].amount));
        }
        i = i + 1;
    }
    assert(rec@.take(rec.len() as int) =~= rec@);
    r
}

/// The first transaction of `rs` not in `used` with the given amount.
fn find_exact(rs: &Vec<(u128, i64)>, used: &Vec<u128>, amount: i64) -> (r: Option<u128>)
    ensures
        r == first_exact(rs@, used@, amount),
{
    let mut t: usize = 0;
    assert(rs@.subrange(0, rs.len() as int) =~= rs@);
    while t < rs.len()
        invariant
            t <= rs.len(),
            first_exact(rs@, used@, amount) == first_exact(
                rs@.subrange(t as int, rs.len() as int),
                used@,
                amount,
            ),
        decreases rs.len() - t,
    {
        let ghost rest = rs@.subrange(t as int, rs.len() as int);
        assert(rest[0] == rs@[t as int]);
        assert(rest.drop_first() =~= rs@.subrange(t + 1, rs.len() as int));
        let (id, amt) = rs[t];
        if amt == amount && !contains_id(used, id) {
            return Some(id);
        }
        t = t + 1;
    }
    None
}

/// The amounts and ids of the transactions of `rs` not in `used`.
fn collect_available(rs: &Vec<(u128, i64)>, used: &Vec<u128>) -> (r: (Vec<i64>, Vec<u128>))
    ensures
        r.0@ == avail_amounts(rs@, used@),
        r.1@ == avail_ids(rs@, used@),
        r.0.len() == r.1.len(),
{
    let mut amts: Vec<i64> = Vec::new();
    let mut ids: Vec<u128> = Vec::new();
    let mut i: usize = 0;
    while i < rs.len()
        invariant
            i <= rs.len(),
            amts@ == avail_amounts(rs@.take(i as int), used@),
            ids@ == avail_ids(rs@.take(i as int), used@),
            amts.len() == ids.len(),
        decreases rs.len() - i,
    {
        assert(rs@.take(i + 1).drop_last() =~= rs@.take(i as int));
        let (id, amt) = rs[i];
        if !contains_id(used, id) {
            amts.push(amt);
            ids.push(id);
        }
        i = i + 1;
    }
    assert(rs@.take(rs.len() as int) =~= rs@);
    (amts, ids)
}

/// Proposes matches for the open outgoing transactions of a session.
///
/// The outgoing transactions that are not matched and not in `skip_ids`
/// are taken largest amount first (equal amounts in their listed order).
/// Each gets the first unmatched reconciled transaction of the same amount
/// that no earlier proposal used, or else a combination of two to four
/// such transactions adding up to its amount (see `find_subset_sum`);
/// one with neither gets no proposal.
pub fn plan_auto_match(
    outgoing: &Vec<OutgoingTxn>,
    reconciled: &Vec<ReconciledTxn>,
    skip_ids: &Vec<u128>,
) -> (r: Vec<Proposal>)
    ensures
        exists|idx: Seq<usize>|
            is_stable_order(desc_amount_keys(open_outgoing(outgoing@, skip_ids@)), idx)
                && proposal_views(r@) == plan(
                reorder(open_outgoing(outgoing@, skip_ids@), idx),
                open_reconciled(reconciled@),
                Seq::empty(),
            ),
{
    let open = collect_open_outgoing(outgoing, skip_ids);
    let rs = collect_open_reconciled(reconciled);
    let mut keys: Vec<i128> = Vec::new();
    let mut i: usize = 0;
    while i < open.len()
        invariant
            i <= open.len(),
            keys@ == desc_amount_keys(open@).take(i as int),
        decreases open.len() - i,
    {
        keys.push(-(open[i].1 as i128));
        assert(keys@ =~= desc_amount_keys(open@).take(i + 1));
        i = i + 1;
    }
    assert(keys@ =~= desc_amount_keys(open@));
    let idx = stable_order(&keys);
    let mut us: Vec<(u128, i64)> = Vec::new();
    let mut a: usize = 0;
    while a < idx.len()
        invariant
            a <= idx.len(),
            is_stable_order(keys@, idx@),
            keys@.len() == open@.len(),
            us@ == reorder(open@, idx@).take(a as int),
        decreases idx.len() - a,
    {
        assert(idx@[a as int] < keys@.len());
        us.push(open[idx[a]]);
        assert(us@ =~= reorder(open@, idx@).take(a + 1));
        a = a + 1;
    }
    assert(us@ =~= reorder(open@, idx@));
    let ghost whole = plan(us@, rs@, Seq::empty());
    let mut props: Vec<Proposal> = Vec::new();
    let mut used: Vec<u128> = Vec::new();
    let mut t: usize = 0;
    assert(us@.subrange(0, us.len() as int) =~= us@);
    assert(proposal_views(props@) =~= Seq::<(u128, Seq<u128>)>::empty());
    assert(Seq::<(u128, Seq<u128>)>::empty() + whole =~= whole);
    while t < us.len()
        invariant
            t <= us.len(),
            whole == plan(us@, rs@, Seq::empty()),
            proposal_views(props@) + plan(us@.subrange(t as int, us.len() as int), rs@, used@)
                == whole,
        decreases us.len() - t,
    {
        let ghost rest = us@.subrange(t as int, us.len() as int);
        let ghost before = proposal_views(props@);
        assert(rest[0] == us@[t as int]);
        assert(rest.drop_first() =~= us@.subrange(t + 1, us.len() as int));
        let (oid, amount) = us[t];
        match find_exact(&rs, &used, amount) {
            Some(rid) => {
                let ghost next = plan(rest.drop_first(), rs@, used@.push(rid));
                used.push(rid);
                let v = vec![rid];
                assert(v@ =~= seq![rid]);
                props.push(Proposal { outgoing_id: oid, reconciled_ids: v });
                assert(proposal_views(props@) =~= before.push((oid, seq![rid])));
                assert(before + (seq![(oid, seq![rid])] + next) =~= before.push((oid, seq![rid]))
                    + next);
            },
            None => {
                let (av_amts, av_ids) = collect_available(&rs, &used);
                match subset_sum_of(&av_amts, &av_ids, amount, 4) {
                    Some(c) => {
                        let ghost next = plan(rest.drop_first(), rs@, used@ + c@);
                        let ghost used0 = used@;
                        let mut k: usize = 0;
                        while k < c.len()
                            invariant
                                k <= c.len(),
                                used@ == used0 + c@.take(k as int),
                            decreases c.len() - k,
                        {
                            used.push(c[k]);
                            assert(used@ =~= used0 + c@.take(k + 1));
                            k = k + 1;
                        }
                        assert(c@.take(c.len() as int) =~= c@);
                        let ghost cv = c@;
                        props.push(Proposal { outgoing_id: oid, reconciled_ids: c });
                        assert(proposal_views(props@) =~= before.push((oid, cv)));
                        assert(before + (seq![(oid, cv)] + next) =~= before.push((oid, cv)) + next);
                    },
                    None => {},
                }
            },
        }
        t = t + 1;
    }
    assert(us@.subrange(us.len() as int, us.len() as int) =~= Seq::<(u128, i64)>::empty());
    assert(proposal_views(props@) + Seq::<(u128, Seq<u128>)>::empty() =~= proposal_views(props@));
    props
}


/// The sum of the amounts.
pub open spec fn amounts_sum(v: Seq<i64>) -> int
    decreases v.len(),
{
    if v.len() == 0 {
        0
    } else {
        amounts_sum(v.drop_last()) + v.last()
    }
}

/// The total of the amounts. At most `2^63` amounts are summed.
pub fn amount_total(amounts: &Vec<i64>) -> (t: i128)
    requires
        amounts.len() <= 0x8000_0000_0000_0000,
    ensures
        t == amounts_sum(amounts@),
        -(amounts.len() as int) * 0x8000_0000_0000_0000 <= t <= (amounts.len() as int) * 0x8000_0000_0000_0000,
{
    let mut total: i128 = 0;
    let mut i: usize = 0;
    while i < amounts.len()
        invariant
            i <= amounts.len(),
            amounts.len() <= 0x8000_0000_0000_0000,
            total == amounts_sum(amounts@.take(i as int)),
            -(i as int) * 0x8000_0000_0000_0000 <= total <= (i as int) * 0x8000_0000_0000_0000,
        decreases amounts.len() - i,
    {
        assert(amounts@.take(i + 1).drop_last() =~= amounts@.take(i as int));
        proof {
            assert((i as int) * 0x8000_0000_0000_0000 <= 0x8000_0000_0000_0000 * 0x8000_0000_0000_0000) by (nonlinear_arith)
                requires
                    i <= 0x8000_0000_0000_0000,
            ;
        }
        total = total + amounts[i] as i128;
        assert((i as int + 1) * 0x8000_0000_0000_0000 == (i as int) * 0x8000_0000_0000_0000 + 0x8000_0000_0000_0000) by (nonlinear_arith);
        i = i + 1;
    }
    assert(amounts@.take(amounts.len() as int) =~= amounts@);
    total
}

/// How far the linked reconciled amounts are over (positive) or under
/// (negative) the outgoing amount. At most `2^63` amounts are summed.
pub fn match_gap(outgoing_amount: i64, linked: &Vec<i64>) -> (d: i128)
    requires
        linked.len() <= 0x8000_0000_0000_0000,
    ensures
        d == amounts_sum(linked@) - outgoing_amount,
{
    let total = amount_total(linked);
    proof {
        assert((linked.len() as int) * 0x8000_0000_0000_0000 <= 0x8000_0000_0000_0000 * 0x8000_0000_0000_0000) by (nonlinear_arith)
            requires
                linked.len() <= 0x8000_0000_0000_0000,
        ;
    }
    total - outgoing_amount as i128
}

/// What a matched outgoing transaction shows of its gap: `Over` or
/// `Under` and the size of the gap as money, or nothing when the linked
/// amounts make up the outgoing amount exactly.
pub open spec fn spec_gap_text(gap: int) -> Option<Seq<char>> {
    if gap > 0 {
        Some("Over "@ + spec_format_cents(gap))
    } else if gap < 0 {
        Some("Under "@ + spec_format_cents(-gap))
    } else {
        None
    }
}

/// The gap text of an outgoing transaction and its linked reconciled
/// amounts (see `match_gap` and `spec_gap_text`). The gap and its size
/// must be `i64` amounts.
pub fn gap_text(outgoing_amount: i64, linked: &Vec<i64>) -> (r: Option<String>)
    requires
        linked.len() <= 0x8000_0000_0000_0000,
        -i64::MAX <= amounts_sum(linked@) - outgoing_amount <= i64::MAX,
    ensures
        match spec_gap_text(amounts_sum(linked@) - outgoing_amount) {
            Some(t) => r matches Some(s) && s@ == t,
            None => r is None,
        },
{
    let gap = match_gap(outgoing_amount, linked);
    if gap == 0 {
        return None;
    }
    let (word, size): (&str, i64) = if gap > 0 {
        ("Over ", gap as i64)
    } else {
        ("Under ", (-gap) as i64)
    };
    let mut out = chars_of(word);
    extend_chars(&mut out, &chars_of(format_cents(size).as_str()));
    Some(string_of(&out))
}

/// The amounts of the outgoing transactions not matched yet, in order.
pub open spec fn unmatched_outgoing(v: Seq<OutgoingTxn>) -> Seq<i64>
    decreases v.len(),
{
    if v.len() == 0 {
        Seq::empty()
    } else if v.last().matched {
        unmatched_outgoing(v.drop_last())
    } else {
        unmatched_outgoing(v.drop_last()).push(v.last().amount)
    }
}

/// The amounts of the reconciled transactions not matched yet, in order.
pub open spec fn unmatched_reconciled(v: Seq<ReconciledTxn>) -> Seq<i64>
    decreases v.len(),
{
    if v.len() == 0 {
        Seq::empty()
    } else if v.last().matched {
        unmatched_reconciled(v.drop_last())
    } else {
        unmatched_reconciled(v.drop_last()).push(v.last().amount)
    }
}

/// The session's open totals: the sum of the unmatched outgoing amounts,
/// the sum of the unmatched reconciled amounts, and how far the first is
/// over the second. At most `2^62` transactions are on each side.
pub fn unmatched_totals(out: &Vec<OutgoingTxn>, rec: &Vec<ReconciledTxn>) -> (r: (i128, i128, i128))
    requires
        out.len() <= 0x4000_0000_0000_0000,
        rec.len() <= 0x4000_0000_0000_0000,
    ensures
        r.0 == amounts_sum(unmatched_outgoing(out@)),
        r.1 == amounts_sum(unmatched_reconciled(rec@)),
        r.2 == r.0 - r.1,
{
    let mut a: Vec<i64> = Vec::new();
    let mut i: usize = 0;
    while i < out.len()
        invariant
            i <= out.len(),
            a@ == unmatched_outgoing(out@.take(i as int)),
            a.len() <= i,
        decreases out.len() - i,
    {
        assert(out@.take(i + 1).drop_last() =~= out@.take(i as int));
        if !out[i].matched {
            a.push(out[i].amount);
        }
        i = i + 1;
    }
    assert(out@.take(out.len() as int) =~= out@);
    let mut b: Vec<i64> = Vec::new();
    let mut k: usize = 0;
    while k < rec.len()
        invariant
            k <= rec.len(),
            b@ == unmatched_reconciled(rec@.take(k as int)),
            b.len() <= k,
        decreases rec.len() - k,
    {
        assert(rec@.take(k + 1).drop_last() =~= rec@.take(k as int));
        if !rec[k].matched {
            b.push(rec[k].amount);
        }
        k = k + 1;
    }
    assert(rec@.take(rec.len() as int) =~= rec@);
    let ta = amount_total(&a);
    let tb = amount_total(&b);
    proof {
        assert((a.len() as int) * 0x8000_0000_0000_0000 <= 0x4000_0000_0000_0000 * 0x8000_0000_0000_0000) by (nonlinear_arith)
            requires
                a.len() <= 0x4000_0000_0000_0000,
        ;
        assert((b.len() as int) * 0x8000_0000_0000_0000 <= 0x4000_0000_0000_0000 * 0x8000_0000_0000_0000) by (nonlinear_arith)
            requires
                b.len() <= 0x4000_0000_0000_0000,
        ;
    }
    (ta, tb, ta - tb)
}

} // verus!
