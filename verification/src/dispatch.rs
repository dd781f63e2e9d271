//! Per-request bookkeeping for the proxy dispatcher.
//!
//! A request is handled as: select a server, reserve a connection slot,
//! forward (done by the surrounding process), then release the slot and —
//! on success — record the observed response time.  Reserve and release
//! are paired on every exit path, so a completed request leaves every
//! connection counter exactly where it started.

use vstd::prelude::*;
use crate::registry::Pool;
use crate::registry::Server;
use crate::registry::inc_conn;
use crate::registry::dec_conn;
use crate::registry::set_response_time;
use crate::selector::SelectError;
use crate::selector::Selector;
use crate::selector::selects;
use crate::selector::next_cursor;

verus! {

/// How a proxied request ended, as seen by the dispatcher.
#[derive(Clone, Copy, Debug, PartialEq, Eq, Structural)]
pub enum RequestOutcome {
    /// The backend answered within the timeout; the observed latency in
    /// milliseconds is recorded against the server.
    Success { elapsed_ms: u64 },
    /// Connecting to or forwarding through the backend failed; surfaced to
    /// the client as a bad-gateway response, never recorded, and never by
    /// itself marks the server dead (that is the health checker's job).
    BackendError,
    /// The backend did not answer within the configured timeout; surfaced
    /// as a gateway-timeout response, with no response time recorded.
    Timeout,
}

/// Registry state after the release step for outcome `outcome`: the
/// reservation on server `i` is returned, and a success additionally
/// records its elapsed time.
pub open spec fn finish_effect(ss: Seq<Server>, i: int, outcome: RequestOutcome) -> Seq<Server> {
    match outcome {
        RequestOutcome::Success { elapsed_ms } => set_response_time(
            dec_conn(ss, i),
            i,
            elapsed_ms,
        ),
        RequestOutcome::BackendError => dec_conn(ss, i),
        RequestOutcome::Timeout => dec_conn(ss, i),
    }
}

/// Admit + select + reserve: pick a server under the configured algorithm
/// and reserve a connection slot on it.  With an empty alive set the
/// request fails with `NoServerAvailable` (the caller answers
/// service-unavailable) and nothing is touched.
pub fn begin_request(pool: &mut Pool, sel: &mut Selector) -> (r: Result<usize, SelectError>)
    requires
        old(pool).wf(),
    ensures
        final(pool).wf(),
        final(sel).algo == old(sel).algo,
        (match r {
            Ok(i) => {
                &&& old(pool).is_alive(i as int)
                &&& selects(*old(pool), old(sel).algo, old(sel).cursor as int, i as int)
                &&& final(sel).cursor as int == next_cursor(
                    *old(pool),
                    old(sel).algo,
                    old(sel).cursor as int,
                )
                &&& final(pool).servers@ == inc_conn(old(pool).servers@, i as int)
                &&& final(pool).alive@ == old(pool).alive@
            },
            Err(e) => {
                &&& e == SelectError::NoServerAvailable
                &&& old(pool).alive_seq().len() == 0
                &&& *final(pool) == *old(pool)
                &&& *final(sel) == *old(sel)
            },
        }),
{
    match sel.select(pool) {
        Ok(i) => {
            pool.increment_connections(i);
            Ok(i)
        },
        Err(e) => Err(e),
    }
}

/// Release (+ record): return the reservation taken by `begin_request`
/// and, when the backend answered, record the measured response time.
/// Called on every exit path — success, backend error, or timeout.
pub fn finish_request(pool: &mut Pool, i: usize, outcome: RequestOutcome)
    requires
        old(pool).wf(),
        i < old(pool).servers@.len(),
    ensures
        final(pool).wf(),
        final(pool).alive@ == old(pool).alive@,
        final(pool).servers@ == finish_effect(old(pool).servers@, i as int, outcome),
{
    pool.decrement_connections(i);
    match outcome {
        RequestOutcome::Success { elapsed_ms } => {
            pool.record_response_time(i, elapsed_ms);
        },
        RequestOutcome::BackendError => {},
        RequestOutcome::Timeout => {},
    }
}

/// Dispatcher bookkeeping invariant: reserving a slot on the selected
/// server and releasing it at completion — whatever the outcome — leaves
/// every server's connection count exactly as it was before the request.
pub proof fn lemma_request_net_zero(ss: Seq<Server>, i: int, outcome: RequestOutcome)
    requires
        0 <= i < ss.len(),
        ss[i].connections < u32::MAX,
    ensures
        finish_effect(inc_conn(ss, i), i, outcome).len() == ss.len(),
        forall|k: int|
            0 <= k < ss.len() ==> #[trigger] finish_effect(
                inc_conn(ss, i),
                i,
                outcome,
            )[k].connections == ss[k].connections,
{
    let after = finish_effect(inc_conn(ss, i), i, outcome);
    assert forall|k: int| 0 <= k < ss.len() implies #[trigger] after[k].connections
        == ss[k].connections by {
        if k != i {
            assert(after[k] == ss[k]);
        }
    }
}

} // verus!
