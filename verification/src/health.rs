//! Health-sweep bookkeeping.
//!
//! The surrounding process probes every configured server — alive and
//! dead — on a fixed interval, each probe with its own short timeout, and
//! hands the outcomes here.  Applying the outcomes is the only way the
//! alive/dead partition changes, so after a sweep the alive set equals the
//! set of servers whose probe succeeded: a server that started failing is
//! out of the alive set as soon as its failed probe is applied, and a
//! recovering server is back in as soon as its successful probe is.

use vstd::prelude::*;
use crate::registry::Pool;

verus! {

/// Apply one probe outcome: success puts server `i` in the alive set,
/// failure moves it to the dead set.  Idempotent either way.
pub fn apply_probe(pool: &mut Pool, i: usize, success: bool)
    requires
        i < old(pool).alive@.len(),
    ensures
        final(pool).alive@ == old(pool).alive@.update(i as int, success),
        final(pool).servers@ == old(pool).servers@,
        old(pool).wf() ==> final(pool).wf(),
{
    if success {
        pool.mark_alive(i);
    } else {
        pool.mark_dead(i);
    }
}

/// Apply one full sweep of probe outcomes, one per configured server.
/// Afterwards alive membership equals the probe outcomes exactly,
/// whatever the partition was before.
pub fn apply_sweep(pool: &mut Pool, results: &Vec<bool>)
    requires
        results@.len() == old(pool).alive@.len(),
    ensures
        final(pool).alive@ == results@,
        final(pool).servers@ == old(pool).servers@,
        old(pool).wf() ==> final(pool).wf(),
{
    let n = results.len();
    let mut i: usize = 0;
    while i < n
        invariant
            i <= n,
            n == results@.len(),
            n == pool.alive@.len(),
            pool.servers@ == old(pool).servers@,
            old(pool).wf() ==> pool.wf(),
            forall|j: int| 0 <= j < i ==> pool.alive@[j] == results@[j],
            forall|j: int| i <= j < n ==> pool.alive@[j] == old(pool).alive@[j],
        decreases n - i,
    {
        apply_probe(pool, i, results[i]);
        i = i + 1;
    }
    proof {
        assert(pool.alive@ =~= results@);
    }
}

} // verus!
