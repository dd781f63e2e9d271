//! The selection algorithms: each picks one server out of the alive set.
//!
//! The four minimum-based policies (least connections / least response
//! time, plain and weighted) share one implementation that minimizes the
//! rational metric `numerator / denominator` with ties broken by first
//! occurrence in configuration order; the comparison is done by
//! cross-multiplication so no division is ever performed.  The rotation
//! policies (round robin, weighted round robin) are driven by a cursor.

use vstd::prelude::*;
use crate::algorithm::Algorithm;
use crate::registry::Pool;
use crate::registry::lemma_alive_prefix_props;
use crate::registry::total_weight;
use vstd::arithmetic::div_mod::lemma_fundamental_div_mod;
use vstd::arithmetic::div_mod::lemma_fundamental_div_mod_converse;
use vstd::arithmetic::div_mod::lemma_mod_division_less_than_divisor;
use vstd::arithmetic::div_mod::lemma_mod_add_multiples_vanish;
use vstd::arithmetic::div_mod::lemma_small_mod;

verus! {

/// The one error every selection algorithm signals identically: the alive
/// set is empty.
#[derive(Clone, Copy, Debug, PartialEq, Eq, Structural)]
pub enum SelectError {
    NoServerAvailable,
}

/// Numerator of the metric a minimum-based policy minimizes: the live
/// connection count, or the last observed response time.
pub open spec fn sel_num(p: Pool, i: int, by_rt: bool) -> int {
    if by_rt {
        p.servers@[i].response_time as int
    } else {
        p.servers@[i].connections as int
    }
}

/// Denominator of the metric: the server's weight for the weighted
/// variants, 1 otherwise.
pub open spec fn sel_den(p: Pool, i: int, weighted: bool) -> int {
    if weighted {
        p.servers@[i].weight as int
    } else {
        1
    }
}

/// Server `i` attains the minimum of `sel_num / sel_den` over the alive
/// set, and is the first alive server in configuration order to do so.
pub open spec fn first_min(p: Pool, i: int, by_rt: bool, weighted: bool) -> bool {
    &&& p.is_alive(i)
    &&& forall|j: int|
        p.is_alive(j) ==> sel_num(p, i, by_rt) * sel_den(p, j, weighted) <= sel_num(p, j, by_rt)
            * sel_den(p, i, weighted)
    &&& forall|j: int|
        p.is_alive(j) && j < i ==> sel_num(p, j, by_rt) * sel_den(p, i, weighted) > sel_num(
            p,
            i,
            by_rt,
        ) * sel_den(p, j, weighted)
}

proof fn lemma_ratio_lt_le_trans(an: int, ad: int, bn: int, bd: int, cn: int, cd: int)
    by (nonlinear_arith)
    requires
        ad >= 1,
        bd >= 1,
        cd >= 1,
        an * bd < bn * ad,
        bn * cd <= cn * bd,
    ensures
        an * cd < cn * ad,
{
}

proof fn lemma_mul_le(a: int, b: int, amax: int, bmax: int)
    by (nonlinear_arith)
    requires
        0 <= a <= amax,
        0 <= b <= bmax,
    ensures
        a * b <= amax * bmax,
{
}

/// The two integers whose quotient is the metric of server `i`.
fn metric_parts(p: &Pool, i: usize, by_rt: bool, weighted: bool) -> (r: (u64, u64))
    requires
        i < p.servers@.len(),
    ensures
        r.0 as int == sel_num(*p, i as int, by_rt),
        r.1 as int == sel_den(*p, i as int, weighted),
{
    let num: u64 = if by_rt {
        p.servers[i].response_time
    } else {
        p.servers[i].connections as u64
    };
    let den: u64 = if weighted {
        p.servers[i].weight as u64
    } else {
        1
    };
    (num, den)
}

/// Whether the metric of `a` is strictly below the metric of `b`, decided
/// by cross-multiplication.
fn metric_lt(a: (u64, u64), b: (u64, u64)) -> (r: bool)
    ensures
        r == ((a.0 as int) * (b.1 as int) < (b.0 as int) * (a.1 as int)),
{
    proof {
        lemma_mul_le(a.0 as int, b.1 as int, u64::MAX as int, u64::MAX as int);
        lemma_mul_le(b.0 as int, a.1 as int, u64::MAX as int, u64::MAX as int);
    }
    (a.0 as u128) * (b.1 as u128) < (b.0 as u128) * (a.1 as u128)
}

/// Shared implementation of the four minimum-based policies: the first
/// alive server (configuration order) minimizing the chosen metric, or
/// `NoServerAvailable` on an empty alive set.
fn select_min_by(p: &Pool, by_rt: bool, weighted: bool) -> (r: Result<usize, SelectError>)
    requires
        p.wf(),
    ensures
        (match r {
            Ok(i) => p.alive_seq().len() > 0 && first_min(*p, i as int, by_rt, weighted),
            Err(e) => p.alive_seq().len() == 0 && e == SelectError::NoServerAvailable,
        }),
{
    let v = p.alive_indices();
    proof {
        lemma_alive_prefix_props(p.alive@, p.alive@.len() as int);
    }
    let n = v.len();
    if n == 0 {
        return Err(SelectError::NoServerAvailable);
    }
    let ghost aseq = p.alive_seq();
    let mut best: usize = v[0];
    proof {
        assert(aseq[0] == v@.map_values(|u: usize| u as int)[0]);
        assert(best as int == aseq[0]);
        assert(0 <= aseq[0] < p.servers@.len());
    }
    let mut best_m = metric_parts(p, best, by_rt, weighted);
    let ghost mut bk: int = 0;
    let mut k: usize = 1;
    while k < n
        invariant
            p.wf(),
            aseq == p.alive_seq(),
            v@.map_values(|u: usize| u as int) == aseq,
            n == v@.len(),
            forall|m: int| 0 <= m < aseq.len() ==> 0 <= #[trigger] aseq[m] < p.servers@.len(),
            forall|m1: int, m2: int| 0 <= m1 < m2 < aseq.len() ==> aseq[m1] < aseq[m2],
            1 <= k <= n,
            0 <= bk < k,
            best as int == aseq[bk],
            best_m.0 as int == sel_num(*p, best as int, by_rt),
            best_m.1 as int == sel_den(*p, best as int, weighted),
            forall|m: int|
                0 <= m < k ==> sel_num(*p, aseq[bk], by_rt) * sel_den(*p, #[trigger] aseq[m], weighted)
                    <= sel_num(*p, aseq[m], by_rt) * sel_den(*p, aseq[bk], weighted),
            forall|m: int|
                0 <= m < bk ==> sel_num(*p, #[trigger] aseq[m], by_rt) * sel_den(*p, aseq[bk], weighted)
                    > sel_num(*p, aseq[bk], by_rt) * sel_den(*p, aseq[m], weighted),
        decreases n - k,
    {
        let c = v[k];
        proof {
            assert(aseq[k as int] == v@.map_values(|u: usize| u as int)[k as int]);
            assert(c as int == aseq[k as int]);
            assert(0 <= aseq[k as int] < p.servers@.len());
        }
        let cm = metric_parts(p, c, by_rt, weighted);
        if metric_lt(cm, best_m) {
            proof {
                let ci = c as int;
                let bi = best as int;
                assert forall|m: int| 0 <= m < k + 1 implies sel_num(*p, ci, by_rt) * sel_den(
                    *p,
                    #[trigger] aseq[m],
                    weighted,
                ) <= sel_num(*p, aseq[m], by_rt) * sel_den(*p, ci, weighted) by {
                    if m < k {
                        lemma_ratio_lt_le_trans(
                            sel_num(*p, ci, by_rt),
                            sel_den(*p, ci, weighted),
                            sel_num(*p, bi, by_rt),
                            sel_den(*p, bi, weighted),
                            sel_num(*p, aseq[m], by_rt),
                            sel_den(*p, aseq[m], weighted),
                        );
                    }
                }
                assert forall|m: int| 0 <= m < k implies sel_num(*p, #[trigger] aseq[m], by_rt)
                    * sel_den(*p, ci, weighted) > sel_num(*p, ci, by_rt) * sel_den(
                    *p,
                    aseq[m],
                    weighted,
                ) by {
                    lemma_ratio_lt_le_trans(
                        sel_num(*p, ci, by_rt),
                        sel_den(*p, ci, weighted),
                        sel_num(*p, bi, by_rt),
                        sel_den(*p, bi, weighted),
                        sel_num(*p, aseq[m], by_rt),
                        sel_den(*p, aseq[m], weighted),
                    );
                }
                bk = k as int;
            }
            best = c;
            best_m = cm;
        } else {
            proof {
                let ci = c as int;
                let bi = best as int;
                assert(sel_num(*p, bi, by_rt) * sel_den(*p, ci, weighted) <= sel_num(*p, ci, by_rt)
                    * sel_den(*p, bi, weighted));
            }
        }
        k = k + 1;
    }
    proof {
        let bi = best as int;
        assert forall|j: int| p.is_alive(j) implies sel_num(*p, bi, by_rt) * sel_den(
            *p,
            j,
            weighted,
        ) <= sel_num(*p, j, by_rt) * sel_den(*p, bi, weighted) by {
            let m = choose|m: int| 0 <= m < aseq.len() && #[trigger] aseq[m] == j;
            assert(sel_num(*p, aseq[bk], by_rt) * sel_den(*p, aseq[m], weighted) <= sel_num(
                *p,
                aseq[m],
                by_rt,
            ) * sel_den(*p, aseq[bk], weighted));
        }
        assert forall|j: int| p.is_alive(j) && j < bi implies sel_num(*p, j, by_rt) * sel_den(
            *p,
            bi,
            weighted,
        ) > sel_num(*p, bi, by_rt) * sel_den(*p, j, weighted) by {
            let m = choose|m: int| 0 <= m < aseq.len() && #[trigger] aseq[m] == j;
            if m >= bk {
                if m > bk {
                    assert(aseq[bk] < aseq[m]);
                }
                assert(false);
            }
            assert(sel_num(*p, aseq[m], by_rt) * sel_den(*p, aseq[bk], weighted) > sel_num(
                *p,
                aseq[bk],
                by_rt,
            ) * sel_den(*p, aseq[m], weighted));
        }
    }
    Ok(best)
}

/// Least connections: the alive server with the fewest in-flight
/// connections; ties go to the earliest in configuration order.
pub fn select_least_connections(p: &Pool) -> (r: Result<usize, SelectError>)
    requires
        p.wf(),
    ensures
        (match r {
            Ok(i) => p.alive_seq().len() > 0 && first_min(*p, i as int, false, false),
            Err(e) => p.alive_seq().len() == 0 && e == SelectError::NoServerAvailable,
        }),
{
    select_min_by(p, false, false)
}

/// Weighted least connections: minimizes `connections / weight`; ties go
/// to the earliest in configuration order.
pub fn select_weighted_least_connections(p: &Pool) -> (r: Result<usize, SelectError>)
    requires
        p.wf(),
    ensures
        (match r {
            Ok(i) => p.alive_seq().len() > 0 && first_min(*p, i as int, false, true),
            Err(e) => p.alive_seq().len() == 0 && e == SelectError::NoServerAvailable,
        }),
{
    select_min_by(p, false, true)
}

/// Least response time: the alive server with the smallest last observed
/// response time; a never-observed server (time 0) sorts first, so fresh
/// servers are tried eagerly.  Ties go to the earliest in configuration
/// order.
pub fn select_least_response_time(p: &Pool) -> (r: Result<usize, SelectError>)
    requires
        p.wf(),
    ensures
        (match r {
            Ok(i) => p.alive_seq().len() > 0 && first_min(*p, i as int, true, false),
            Err(e) => p.alive_seq().len() == 0 && e == SelectError::NoServerAvailable,
        }),
{
    select_min_by(p, true, false)
}

/// Weighted least response time: minimizes `response time / weight`, with
/// the same zero-handling and tie-break rules as least response time.
pub fn select_weighted_least_response_time(p: &Pool) -> (r: Result<usize, SelectError>)
    requires
        p.wf(),
    ensures
        (match r {
            Ok(i) => p.alive_seq().len() > 0 && first_min(*p, i as int, true, true),
            Err(e) => p.alive_seq().len() == 0 && e == SelectError::NoServerAvailable,
        }),
{
    select_min_by(p, true, true)
}

/// The server the round-robin rotation selects at cursor `c`: the alive
/// set in configuration order, walked cyclically.
pub open spec fn rr_index(p: Pool, c: int) -> int {
    p.alive_seq()[c % (p.alive_seq().len() as int)]
}

/// Round robin: the alive server at the cursor's rotation position; the
/// cursor advances by one, kept normalized below the alive-set size.
pub fn select_round_robin(p: &Pool, cursor: u64) -> (r: Result<(usize, u64), SelectError>)
    requires
        p.wf(),
    ensures
        (match r {
            Ok(ic) => {
                &&& p.alive_seq().len() > 0
                &&& ic.0 as int == rr_index(*p, cursor as int)
                &&& ic.1 as int == (cursor as int) % (p.alive_seq().len() as int) + 1
                &&& p.is_alive(ic.0 as int)
            },
            Err(e) => p.alive_seq().len() == 0 && e == SelectError::NoServerAvailable,
        }),
{
    let v = p.alive_indices();
    proof {
        lemma_alive_prefix_props(p.alive@, p.alive@.len() as int);
    }
    let n = v.len();
    if n == 0 {
        return Err(SelectError::NoServerAvailable);
    }
    let pos = (cursor % (n as u64)) as usize;
    proof {
        assert(p.alive_seq()[pos as int] == v@.map_values(|u: usize| u as int)[pos as int]);
    }
    let i = v[pos];
    Ok((i, (pos as u64) + 1))
}

/// Sum of the weights of the first `k` servers of the index sequence `s`.
pub open spec fn seq_weight(p: Pool, s: Seq<int>, k: int) -> int
    decreases k,
{
    if k <= 0 {
        0
    } else {
        seq_weight(p, s, k - 1) + p.servers@[s[k - 1]].weight
    }
}

/// Sum of the weights of the first `k` alive servers, in configuration
/// order: the start of server `k`'s band in the expanded weighted
/// rotation.
pub open spec fn alive_weight_prefix(p: Pool, k: int) -> int {
    seq_weight(p, p.alive_seq(), k)
}

/// Length of one full weighted-rotation cycle: the sum of the weights of
/// all alive servers.
pub open spec fn alive_total_weight(p: Pool) -> int {
    alive_weight_prefix(p, p.alive_seq().len() as int)
}

proof fn lemma_seq_weight_congruence(p: Pool, s1: Seq<int>, s2: Seq<int>, k: int)
    requires
        forall|j: int| 0 <= j < k ==> s1[j] == s2[j],
    ensures
        seq_weight(p, s1, k) == seq_weight(p, s2, k),
    decreases k,
{
    if k > 0 {
        lemma_seq_weight_congruence(p, s1, s2, k - 1);
    }
}

/// Sum of the weights of the alive servers among the first `n`.
spec fn alive_weight_upto(p: Pool, n: int) -> int
    decreases n,
{
    if n <= 0 {
        0
    } else {
        alive_weight_upto(p, n - 1) + if p.alive@[n - 1] {
            p.servers@[n - 1].weight as int
        } else {
            0
        }
    }
}

proof fn lemma_alive_weight_agree(p: Pool, n: int)
    requires
        0 <= n <= p.alive@.len(),
    ensures
        seq_weight(
            p,
            crate::registry::alive_prefix(p.alive@, n),
            crate::registry::alive_prefix(p.alive@, n).len() as int,
        ) == alive_weight_upto(p, n),
    decreases n,
{
    if n > 0 {
        lemma_alive_weight_agree(p, n - 1);
        let s1 = crate::registry::alive_prefix(p.alive@, n - 1);
        let s2 = crate::registry::alive_prefix(p.alive@, n);
        lemma_seq_weight_congruence(p, s1, s2, s1.len() as int);
    }
}

proof fn lemma_alive_weight_le_total(p: Pool, n: int)
    requires
        0 <= n <= p.servers@.len(),
        n <= p.alive@.len(),
    ensures
        alive_weight_upto(p, n) <= total_weight(p.servers@, n),
    decreases n,
{
    if n > 0 {
        lemma_alive_weight_le_total(p, n - 1);
    }
}

/// The weight-prefix sums grow by at least one per alive server (weights
/// are positive).
pub proof fn lemma_alive_weight_prefix_mono(p: Pool, a: int, b: int)
    requires
        p.wf(),
        0 <= a <= b <= p.alive_seq().len(),
    ensures
        alive_weight_prefix(p, a) + (b - a) <= alive_weight_prefix(p, b),
    decreases b,
{
    if b > a {
        lemma_alive_weight_prefix_mono(p, a, b - 1);
        lemma_alive_prefix_props(p.alive@, p.alive@.len() as int);
        assert(0 <= p.alive_seq()[b - 1] < p.servers@.len());
        assert(p.servers@[p.alive_seq()[b - 1]].weight >= 1);
    }
}

/// One full cycle is at least as long as the alive set and no longer than
/// the total configured weight.
pub proof fn lemma_alive_total_weight_bounds(p: Pool)
    requires
        p.wf(),
    ensures
        p.alive_seq().len() <= alive_total_weight(p),
        alive_total_weight(p) <= total_weight(p.servers@, p.servers@.len() as int),
{
    lemma_alive_weight_prefix_mono(p, 0, p.alive_seq().len() as int);
    lemma_alive_weight_agree(p, p.alive@.len() as int);
    lemma_alive_weight_le_total(p, p.alive@.len() as int);
}

/// First band at or after `k` whose weight interval contains `pos`.
pub open spec fn wrr_slot_from(p: Pool, pos: int, k: int) -> int
    decreases p.alive_seq().len() - k,
{
    if k < 0 || k >= p.alive_seq().len() {
        k
    } else if pos < alive_weight_prefix(p, k + 1) {
        k
    } else {
        wrr_slot_from(p, pos, k + 1)
    }
}

/// Position of rotation offset `pos` in the alive sequence: the unique
/// `k` with `alive_weight_prefix(k) <= pos < alive_weight_prefix(k + 1)`.
pub open spec fn wrr_slot(p: Pool, pos: int) -> int {
    wrr_slot_from(p, pos, 0)
}

/// The server the weighted rotation selects at offset `pos` into the
/// cycle.
pub open spec fn wrr_index(p: Pool, pos: int) -> int {
    p.alive_seq()[wrr_slot(p, pos)]
}

proof fn lemma_wrr_slot_from_props(p: Pool, pos: int, k: int)
    requires
        p.wf(),
        0 <= k < p.alive_seq().len(),
        alive_weight_prefix(p, k) <= pos < alive_total_weight(p),
    ensures
        k <= wrr_slot_from(p, pos, k) < p.alive_seq().len(),
        alive_weight_prefix(p, wrr_slot_from(p, pos, k)) <= pos < alive_weight_prefix(
            p,
            wrr_slot_from(p, pos, k) + 1,
        ),
    decreases p.alive_seq().len() - k,
{
    if pos < alive_weight_prefix(p, k + 1) {
    } else {
        if k + 1 >= p.alive_seq().len() {
            assert(pos >= alive_total_weight(p));
            assert(false);
        }
        lemma_wrr_slot_from_props(p, pos, k + 1);
    }
}

/// `wrr_slot` characterized: interval membership pins the slot.
pub proof fn lemma_wrr_slot_props(p: Pool, pos: int)
    requires
        p.wf(),
        0 <= pos < alive_total_weight(p),
    ensures
        0 <= wrr_slot(p, pos) < p.alive_seq().len(),
        alive_weight_prefix(p, wrr_slot(p, pos)) <= pos < alive_weight_prefix(
            p,
            wrr_slot(p, pos) + 1,
        ),
{
    if p.alive_seq().len() == 0 {
        lemma_alive_weight_prefix_mono(p, 0, 0);
        assert(alive_total_weight(p) == 0);
        assert(false);
    }
    lemma_wrr_slot_from_props(p, pos, 0);
}

/// The slot whose interval contains `pos` is unique.
pub proof fn lemma_wrr_slot_is(p: Pool, pos: int, k: int)
    requires
        p.wf(),
        0 <= k < p.alive_seq().len(),
        0 <= pos,
        alive_weight_prefix(p, k) <= pos < alive_weight_prefix(p, k + 1),
    ensures
        wrr_slot(p, pos) == k,
{
    lemma_alive_weight_prefix_mono(p, k + 1, p.alive_seq().len() as int);
    lemma_wrr_slot_props(p, pos);
    let s = wrr_slot(p, pos);
    if s < k {
        lemma_alive_weight_prefix_mono(p, s + 1, k);
        assert(false);
    }
    if s > k {
        lemma_alive_weight_prefix_mono(p, k + 1, s);
        assert(false);
    }
}

/// Weighted round robin: conceptually expands the alive rotation into
/// `weight` copies of each server; the cursor indexes that expansion, its
/// length recomputed from the current alive set on every call.
pub fn select_weighted_round_robin(p: &Pool, cursor: u64) -> (r: Result<
    (usize, u64),
    SelectError,
>)
    requires
        p.wf(),
    ensures
        (match r {
            Ok(ic) => {
                &&& p.alive_seq().len() > 0
                &&& ic.0 as int == wrr_index(*p, (cursor as int) % alive_total_weight(*p))
                &&& ic.1 as int == (cursor as int) % alive_total_weight(*p) + 1
                &&& p.is_alive(ic.0 as int)
            },
            Err(e) => p.alive_seq().len() == 0 && e == SelectError::NoServerAvailable,
        }),
{
    let v = p.alive_indices();
    proof {
        lemma_alive_prefix_props(p.alive@, p.alive@.len() as int);
    }
    let n = v.len();
    if n == 0 {
        return Err(SelectError::NoServerAvailable);
    }
    let ghost aseq = p.alive_seq();
    proof {
        lemma_alive_total_weight_bounds(*p);
    }
    let mut total: u64 = 0;
    let mut k: usize = 0;
    while k < n
        invariant
            p.wf(),
            aseq == p.alive_seq(),
            v@.map_values(|u: usize| u as int) == aseq,
            n == v@.len(),
            n >= 1,
            k <= n,
            total as int == alive_weight_prefix(*p, k as int),
            alive_total_weight(*p) <= u64::MAX,
        decreases n - k,
    {
        proof {
            assert(aseq[k as int] == v@.map_values(|u: usize| u as int)[k as int]);
            lemma_alive_prefix_props(p.alive@, p.alive@.len() as int);
            lemma_alive_weight_prefix_mono(*p, k as int + 1, aseq.len() as int);
        }
        let c = v[k];
        total = total + p.servers[c].weight as u64;
        k = k + 1;
    }
    proof {
        lemma_alive_weight_prefix_mono(*p, 0, aseq.len() as int);
        assert(total >= 1);
    }
    let pos = cursor % total;
    proof {
        lemma_mod_division_less_than_divisor(cursor as int, total as int);
    }
    let mut acc: u64 = 0;
    let mut j: usize = 0;
    while j < n
        invariant
            p.wf(),
            aseq == p.alive_seq(),
            v@.map_values(|u: usize| u as int) == aseq,
            n == v@.len(),
            n >= 1,
            j <= n,
            acc as int == alive_weight_prefix(*p, j as int),
            total as int == alive_total_weight(*p),
            pos as int == (cursor as int) % alive_total_weight(*p),
            acc <= pos,
            pos < total,
        decreases n - j,
    {
        proof {
            assert(aseq[j as int] == v@.map_values(|u: usize| u as int)[j as int]);
            lemma_alive_prefix_props(p.alive@, p.alive@.len() as int);
            lemma_alive_weight_prefix_mono(*p, j as int + 1, aseq.len() as int);
        }
        let c = v[j];
        let w = p.servers[c].weight as u64;
        if pos < acc + w {
            proof {
                lemma_wrr_slot_is(*p, pos as int, j as int);
            }
            return Ok((c, pos + 1));
        }
        acc = acc + w;
        j = j + 1;
    }
    // unreachable: pos < alive_total_weight, so some band contains it
    proof {
        assert(acc as int == alive_total_weight(*p));
        assert(false);
    }
    Err(SelectError::NoServerAvailable)
}

/// Round-robin fairness: with a non-empty alive set of size `n`, any `n`
/// consecutive rotation positions select every alive server exactly once —
/// pairwise-distinct picks, and every alive server is picked.
pub proof fn lemma_round_robin_cycle(p: Pool, start: int)
    requires
        p.wf(),
        p.alive_seq().len() >= 1,
        start >= 0,
    ensures
        forall|q1: int, q2: int|
            start <= q1 < q2 < start + p.alive_seq().len() ==> #[trigger] rr_index(p, q1)
                != #[trigger] rr_index(p, q2),
        forall|j: int|
            p.is_alive(j) ==> exists|q: int|
                start <= q < start + p.alive_seq().len() && #[trigger] rr_index(p, q) == j,
{
    let aseq = p.alive_seq();
    let n = aseq.len() as int;
    lemma_alive_prefix_props(p.alive@, p.alive@.len() as int);
    assert forall|q1: int, q2: int| start <= q1 < q2 < start + n implies #[trigger] rr_index(
        p,
        q1,
    ) != #[trigger] rr_index(p, q2) by {
        let a = q1;
        let b = q2;
        lemma_fundamental_div_mod(a, n);
        lemma_fundamental_div_mod(b, n);
        lemma_mod_division_less_than_divisor(a, n);
        lemma_mod_division_less_than_divisor(b, n);
        if a % n == b % n {
            let d = b / n - a / n;
            assert(b - a == n * d) by (nonlinear_arith)
                requires
                    a == n * (a / n) + a % n,
                    b == n * (b / n) + b % n,
                    a % n == b % n,
                    d == b / n - a / n,
            ;
            assert(false) by (nonlinear_arith)
                requires
                    b - a == n * d,
                    0 < b - a < n,
            ;
        }
        assert(aseq[a % n] != aseq[b % n]);
    }
    assert forall|j: int| p.is_alive(j) implies exists|q: int|
        start <= q < start + p.alive_seq().len() && #[trigger] rr_index(p, q) == j by {
        let m = choose|m: int| 0 <= m < aseq.len() && #[trigger] aseq[m] == j;
        lemma_fundamental_div_mod(start, n);
        lemma_mod_division_less_than_divisor(start, n);
        let r = start % n;
        let k = if m >= r {
            m - r
        } else {
            m - r + n
        };
        if m >= r {
            lemma_fundamental_div_mod_converse(start + k, n, start / n, m);
        } else {
            assert((start / n + 1) * n == (start / n) * n + n) by (nonlinear_arith);
            lemma_fundamental_div_mod_converse(start + k, n, start / n + 1, m);
        }
        assert((start + k) % n == m);
        assert(start <= start + k < start + n && rr_index(p, start + k) == j);
    }
}

/// How many of the `n` consecutive rotation positions starting at `start`
/// select configuration index `j` under the weighted rotation.
pub open spec fn wrr_count(p: Pool, start: int, n: int, j: int) -> int
    decreases n,
{
    if n <= 0 {
        0
    } else {
        wrr_count(p, start, n - 1, j) + if wrr_index(
            p,
            (start + n - 1) % alive_total_weight(p),
        ) == j {
            1int
        } else {
            0int
        }
    }
}

proof fn lemma_wrr_count_front(p: Pool, start: int, n: int, j: int)
    requires
        n >= 1,
    ensures
        wrr_count(p, start, n, j) == (if wrr_index(p, start % alive_total_weight(p)) == j {
            1int
        } else {
            0int
        }) + wrr_count(p, start + 1, n - 1, j),
    decreases n,
{
    let t = alive_total_weight(p);
    if n == 1 {
        assert(wrr_count(p, start, 1, j) == wrr_count(p, start, 0, j) + if wrr_index(
            p,
            (start + 1 - 1) % t,
        ) == j {
            1int
        } else {
            0int
        });
        assert(wrr_count(p, start, 0, j) == 0);
        assert(wrr_count(p, start + 1, 0, j) == 0);
        assert(start + 1 - 1 == start);
    } else {
        lemma_wrr_count_front(p, start, n - 1, j);
        assert(wrr_count(p, start, n, j) == wrr_count(p, start, n - 1, j) + if wrr_index(
            p,
            (start + n - 1) % t,
        ) == j {
            1int
        } else {
            0int
        });
        assert(wrr_count(p, start + 1, n - 1, j) == wrr_count(p, start + 1, n - 1 - 1, j)
            + if wrr_index(p, (start + 1 + (n - 1) - 1) % t) == j {
            1int
        } else {
            0int
        });
        assert(start + 1 + (n - 1) - 1 == start + n - 1);
    }
}

proof fn lemma_wrr_count_shift(p: Pool, start: int, j: int)
    requires
        p.wf(),
        p.alive_seq().len() >= 1,
        start >= 0,
    ensures
        wrr_count(p, start + 1, alive_total_weight(p), j) == wrr_count(
            p,
            start,
            alive_total_weight(p),
            j,
        ),
{
    let t = alive_total_weight(p);
    lemma_alive_total_weight_bounds(p);
    lemma_wrr_count_front(p, start, t, j);
    lemma_mod_add_multiples_vanish(start, t);
    assert((start + t) % t == start % t);
    assert(wrr_count(p, start + 1, t, j) == wrr_count(p, start + 1, t - 1, j) + if wrr_index(
        p,
        (start + t) % t,
    ) == j {
        1int
    } else {
        0int
    });
}

proof fn lemma_wrr_count_start_irrelevant(p: Pool, start: int, j: int)
    requires
        p.wf(),
        p.alive_seq().len() >= 1,
        start >= 0,
    ensures
        wrr_count(p, start, alive_total_weight(p), j) == wrr_count(
            p,
            0,
            alive_total_weight(p),
            j,
        ),
    decreases start,
{
    if start > 0 {
        lemma_wrr_count_shift(p, start - 1, j);
        lemma_wrr_count_start_irrelevant(p, start - 1, j);
    }
}

proof fn lemma_wrr_count_base(p: Pool, n: int, j: int, m: int)
    requires
        p.wf(),
        p.alive_seq().len() >= 1,
        0 <= m < p.alive_seq().len(),
        p.alive_seq()[m] == j,
        0 <= n <= alive_total_weight(p),
    ensures
        wrr_count(p, 0, n, j) == if n <= alive_weight_prefix(p, m) {
            0
        } else if n >= alive_weight_prefix(p, m + 1) {
            alive_weight_prefix(p, m + 1) - alive_weight_prefix(p, m)
        } else {
            n - alive_weight_prefix(p, m)
        },
    decreases n,
{
    lemma_alive_weight_prefix_mono(p, m, m + 1);
    lemma_alive_weight_prefix_mono(p, 0, m);
    lemma_alive_prefix_props(p.alive@, p.alive@.len() as int);
    if n > 0 {
        lemma_wrr_count_base(p, n - 1, j, m);
        lemma_alive_total_weight_bounds(p);
        lemma_small_mod((n - 1) as nat, alive_total_weight(p) as nat);
        assert((0 + n - 1) % alive_total_weight(p) == n - 1);
        lemma_wrr_slot_props(p, n - 1);
        let s = wrr_slot(p, n - 1);
        if alive_weight_prefix(p, m) <= n - 1 < alive_weight_prefix(p, m + 1) {
            lemma_wrr_slot_is(p, n - 1, m);
            assert(wrr_index(p, n - 1) == j);
        } else {
            if s != m {
                assert(p.alive_seq()[s] != p.alive_seq()[m]);
            } else {
                assert(false);
            }
            assert(wrr_index(p, n - 1) != j);
        }
    }
}

/// Weighted round-robin fairness: over one full cycle (a number of
/// consecutive rotation positions equal to the sum of the alive weights,
/// starting anywhere), an alive server is selected exactly its weight's
/// worth of times.
pub proof fn lemma_weighted_round_robin_cycle(p: Pool, start: int, j: int)
    requires
        p.wf(),
        p.alive_seq().len() >= 1,
        start >= 0,
        p.is_alive(j),
    ensures
        wrr_count(p, start, alive_total_weight(p), j) == p.servers@[j].weight,
{
    lemma_alive_prefix_props(p.alive@, p.alive@.len() as int);
    let aseq = p.alive_seq();
    let m = choose|m: int| 0 <= m < aseq.len() && #[trigger] aseq[m] == j;
    lemma_wrr_count_start_irrelevant(p, start, j);
    lemma_alive_total_weight_bounds(p);
    lemma_alive_weight_prefix_mono(p, m + 1, aseq.len() as int);
    lemma_alive_weight_prefix_mono(p, m, m + 1);
    lemma_wrr_count_base(p, alive_total_weight(p), j, m);
}

/// A rotation cursor only matters modulo the cycle length, so the
/// normalized cursor a selection hands back reaches the same positions as
/// the raw one: this connects a chain of selections to the cycle laws
/// above, which speak of consecutive raw positions.
pub proof fn lemma_cursor_normalized(c: int, k: int, m: int)
    requires
        m >= 1,
        c >= 0,
        k >= 0,
    ensures
        (c % m + k) % m == (c + k) % m,
{
    lemma_fundamental_div_mod(c, m);
    vstd::arithmetic::div_mod::lemma_mod_multiples_vanish(c / m, c % m + k, m);
    assert(m * (c / m) + (c % m + k) == c + k);
}

/// Which server (configuration index `i`) the given algorithm selects
/// from pool `p` at rotation cursor `cursor`.
pub open spec fn selects(p: Pool, algo: Algorithm, cursor: int, i: int) -> bool {
    match algo {
        Algorithm::RoundRobin => i == rr_index(p, cursor),
        Algorithm::WeightedRoundRobin => i == wrr_index(p, cursor % alive_total_weight(p)),
        Algorithm::LeastConnections => first_min(p, i, false, false),
        Algorithm::WeightedLeastConnections => first_min(p, i, false, true),
        Algorithm::LeastResponseTime => first_min(p, i, true, false),
        Algorithm::WeightedLeastResponseTime => first_min(p, i, true, true),
    }
}

/// The cursor after a successful selection: advanced and normalized by the
/// rotation algorithms, untouched by the minimum-based ones.
pub open spec fn next_cursor(p: Pool, algo: Algorithm, cursor: int) -> int {
    match algo {
        Algorithm::RoundRobin => cursor % (p.alive_seq().len() as int) + 1,
        Algorithm::WeightedRoundRobin => cursor % alive_total_weight(p) + 1,
        _ => cursor,
    }
}

/// A selector: the configured algorithm together with the rotation cursor
/// that the round-robin family keeps as its only persistent state.
pub struct Selector {
    pub algo: Algorithm,
    pub cursor: u64,
}

impl Selector {
    /// A selector for the given policy, rotation starting at the first
    /// alive server.
    pub fn new(algo: Algorithm) -> (s: Selector)
        ensures
            s.algo == algo,
            s.cursor == 0,
    {
        Selector { algo, cursor: 0 }
    }

    /// Pick the next server under the configured policy.  Fails with
    /// `NoServerAvailable` exactly when the alive set is empty — every
    /// algorithm signals that one condition identically — and leaves the
    /// cursor unchanged in that case.
    pub fn select(&mut self, p: &Pool) -> (r: Result<usize, SelectError>)
        requires
            p.wf(),
        ensures
            final(self).algo == old(self).algo,
            (match r {
                Ok(i) => {
                    &&& p.alive_seq().len() > 0
                    &&& p.is_alive(i as int)
                    &&& selects(*p, old(self).algo, old(self).cursor as int, i as int)
                    &&& final(self).cursor as int == next_cursor(
                        *p,
                        old(self).algo,
                        old(self).cursor as int,
                    )
                },
                Err(e) => p.alive_seq().len() == 0 && e == SelectError::NoServerAvailable
                    && final(self).cursor == old(self).cursor,
            }),
    {
        match self.algo {
            Algorithm::RoundRobin => {
                match select_round_robin(p, self.cursor) {
                    Ok((i, c2)) => {
                        self.cursor = c2;
                        Ok(i)
                    },
                    Err(e) => Err(e),
                }
            },
            Algorithm::WeightedRoundRobin => {
                match select_weighted_round_robin(p, self.cursor) {
                    Ok((i, c2)) => {
                        self.cursor = c2;
                        Ok(i)
                    },
                    Err(e) => Err(e),
                }
            },
            Algorithm::LeastConnections => select_least_connections(p),
            Algorithm::WeightedLeastConnections => select_weighted_least_connections(p),
            Algorithm::LeastResponseTime => select_least_response_time(p),
            Algorithm::WeightedLeastResponseTime => select_weighted_least_response_time(p),
        }
    }
}

} // verus!
