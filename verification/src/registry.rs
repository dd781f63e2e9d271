//! The server registry: the single owner of per-server live state.
//!
//! A pool holds every configured backend in configuration order together
//! with an alive flag per server.  The health checker is the only caller of
//! `mark_alive` / `mark_dead`; the dispatcher adjusts the connection and
//! response-time counters.  Selection algorithms only read.

use vstd::prelude::*;

verus! {

/// A backend target: an address plus the static and live state that the
/// selection algorithms read.
#[derive(Debug)]
pub struct Server {
    /// Network endpoint (scheme + host + port), immutable after creation.
    pub addr: String,
    /// Static positive weight used by the weighted algorithms.
    pub weight: u32,
    /// Last observed response time in milliseconds; 0 means "never
    /// observed", which sorts as the minimum under the response-time
    /// algorithms so that fresh servers are tried first.
    pub response_time: u64,
    /// Number of requests currently in flight against this server.
    pub connections: u32,
    /// Configured cap on concurrent connections (admission policy input).
    pub max_connections: u32,
}

impl Server {
    /// A freshly configured server: no connections yet, no observed
    /// response time.
    pub fn new(addr: String, weight: u32, max_connections: u32) -> (s: Server)
        ensures
            s.addr == addr,
            s.weight == weight,
            s.max_connections == max_connections,
            s.response_time == 0,
            s.connections == 0,
    {
        Server { addr, weight, max_connections, response_time: 0, connections: 0 }
    }
}

/// The server with its connection counter replaced.
pub open spec fn with_connections(s: Server, c: u32) -> Server {
    Server {
        addr: s.addr,
        weight: s.weight,
        response_time: s.response_time,
        connections: c,
        max_connections: s.max_connections,
    }
}

/// The server with its response-time field replaced.
pub open spec fn with_response_time(s: Server, t: u64) -> Server {
    Server {
        addr: s.addr,
        weight: s.weight,
        response_time: t,
        connections: s.connections,
        max_connections: s.max_connections,
    }
}

/// Effect of reserving a connection slot on server `i`: the counter goes up
/// by one, saturating at the machine limit.
pub open spec fn inc_conn(ss: Seq<Server>, i: int) -> Seq<Server> {
    ss.update(
        i,
        with_connections(
            ss[i],
            if ss[i].connections == u32::MAX {
                u32::MAX
            } else {
                (ss[i].connections + 1) as u32
            },
        ),
    )
}

/// Effect of releasing a connection slot on server `i`: the counter goes
/// down by one but never underflows (an unmatched release is ignored).
pub open spec fn dec_conn(ss: Seq<Server>, i: int) -> Seq<Server> {
    ss.update(
        i,
        with_connections(
            ss[i],
            if ss[i].connections == 0 {
                0u32
            } else {
                (ss[i].connections - 1) as u32
            },
        ),
    )
}

/// Effect of recording a response time for server `i`.
pub open spec fn set_response_time(ss: Seq<Server>, i: int, t: u64) -> Seq<Server> {
    ss.update(i, with_response_time(ss[i], t))
}

/// Sum of the weights of the first `n` servers.
pub open spec fn total_weight(ss: Seq<Server>, n: int) -> int
    decreases n,
{
    if n <= 0 {
        0
    } else {
        total_weight(ss, n - 1) + ss[n - 1].weight
    }
}

/// The configuration indices of the alive servers among the first `n`,
/// in ascending (configuration) order.
pub open spec fn alive_prefix(alive: Seq<bool>, n: int) -> Seq<int>
    decreases n,
{
    if n <= 0 {
        Seq::empty()
    } else if alive[n - 1] {
        alive_prefix(alive, n - 1).push(n - 1)
    } else {
        alive_prefix(alive, n - 1)
    }
}

/// Every entry of `alive_prefix(alive, n)` is an index below `n` whose flag
/// is set; the entries are strictly ascending; and every set flag below `n`
/// appears.
pub proof fn lemma_alive_prefix_props(alive: Seq<bool>, n: int)
    requires
        0 <= n <= alive.len(),
    ensures
        forall|k: int|
            0 <= k < alive_prefix(alive, n).len() ==> 0 <= #[trigger] alive_prefix(alive, n)[k]
                < n && alive[alive_prefix(alive, n)[k]],
        forall|k1: int, k2: int|
            0 <= k1 < k2 < alive_prefix(alive, n).len() ==> alive_prefix(alive, n)[k1]
                < alive_prefix(alive, n)[k2],
        forall|i: int|
            0 <= i < n && alive[i] ==> exists|k: int|
                0 <= k < alive_prefix(alive, n).len() && alive_prefix(alive, n)[k] == i,
        alive_prefix(alive, n).len() <= n,
    decreases n,
{
    if n > 0 {
        lemma_alive_prefix_props(alive, n - 1);
        assert forall|i: int| 0 <= i < n && alive[i] implies exists|k: int|
            0 <= k < alive_prefix(alive, n).len() && alive_prefix(alive, n)[k] == i by {
            if i < n - 1 {
                let k0 = choose|k: int|
                    0 <= k < alive_prefix(alive, n - 1).len() && #[trigger] alive_prefix(
                        alive,
                        n - 1,
                    )[k] == i;
                assert(alive_prefix(alive, n)[k0] == i);
            } else {
                assert(alive_prefix(alive, n)[alive_prefix(alive, n).len() - 1] == i);
            }
        }
    }
}

/// The registry: every configured server, in configuration order, with an
/// alive flag per server.  All servers start alive; the partition changes
/// only through `mark_alive` / `mark_dead`.
#[derive(Debug)]
pub struct Pool {
    pub servers: Vec<Server>,
    pub alive: Vec<bool>,
}

impl Pool {
    /// Well-formedness: one flag per server, every weight positive, every
    /// connection cap positive, and the total weight small enough that
    /// weighted-rotation arithmetic cannot overflow a 64-bit cursor.
    pub open spec fn wf(self) -> bool {
        &&& self.alive@.len() == self.servers@.len()
        &&& forall|i: int|
            0 <= i < self.servers@.len() ==> #[trigger] self.servers@[i].weight >= 1
        &&& forall|i: int|
            0 <= i < self.servers@.len() ==> #[trigger] self.servers@[i].max_connections >= 1
        &&& total_weight(self.servers@, self.servers@.len() as int) <= u64::MAX
    }

    /// The alive set, as configuration indices in configuration order.
    pub open spec fn alive_seq(self) -> Seq<int> {
        alive_prefix(self.alive@, self.alive@.len() as int)
    }

    /// Whether configuration index `i` denotes an alive server.
    pub open spec fn is_alive(self, i: int) -> bool {
        0 <= i < self.alive@.len() && self.alive@[i]
    }

    /// Seed the registry: every configured server starts in the alive set.
    pub fn new(servers: Vec<Server>) -> (p: Pool)
        ensures
            p.servers@ == servers@,
            p.alive@.len() == servers@.len(),
            forall|i: int| 0 <= i < p.alive@.len() ==> p.alive@[i],
    {
        let n = servers.len();
        let mut alive: Vec<bool> = Vec::new();
        let mut i: usize = 0;
        while i < n
            invariant
                i <= n,
                alive@.len() == i,
                forall|j: int| 0 <= j < i ==> alive@[j],
            decreases n - i,
        {
            alive.push(true);
            i = i + 1;
        }
        Pool { servers, alive }
    }

    /// How many servers are configured, alive or dead.
    pub fn server_count(&self) -> (n: usize)
        ensures
            n == self.servers@.len(),
    {
        self.servers.len()
    }

    /// How many servers are currently alive.
    pub fn alive_count(&self) -> (n: usize)
        requires
            self.alive@.len() == self.servers@.len(),
        ensures
            n == self.alive_seq().len(),
    {
        let mut n: usize = 0;
        let mut i: usize = 0;
        while i < self.alive.len()
            invariant
                i <= self.alive@.len(),
                n == alive_prefix(self.alive@, i as int).len(),
                n <= i,
            decreases self.alive@.len() - i,
        {
            if self.alive[i] {
                n = n + 1;
            }
            i = i + 1;
        }
        n
    }

    /// Snapshot of the alive set: configuration indices in configuration
    /// order.
    pub fn alive_indices(&self) -> (v: Vec<usize>)
        ensures
            v@.map_values(|u: usize| u as int) == self.alive_seq(),
    {
        let mut v: Vec<usize> = Vec::new();
        let mut i: usize = 0;
        while i < self.alive.len()
            invariant
                i <= self.alive@.len(),
                v@.map_values(|u: usize| u as int) == alive_prefix(self.alive@, i as int),
            decreases self.alive@.len() - i,
        {
            if self.alive[i] {
                v.push(i);
            }
            proof {
                assert(v@.map_values(|u: usize| u as int) =~= alive_prefix(self.alive@, i + 1));
            }
            i = i + 1;
        }
        v
    }

    /// Health transition: put server `i` into the alive set.  Idempotent:
    /// marking an alive server alive leaves the partition unchanged.
    pub fn mark_alive(&mut self, i: usize)
        requires
            i < old(self).alive@.len(),
        ensures
            final(self).alive@ == old(self).alive@.update(i as int, true),
            final(self).servers@ == old(self).servers@,
            old(self).wf() ==> final(self).wf(),
    {
        self.alive[i] = true;
    }

    /// Health transition: put server `i` into the dead set.  Idempotent.
    pub fn mark_dead(&mut self, i: usize)
        requires
            i < old(self).alive@.len(),
        ensures
            final(self).alive@ == old(self).alive@.update(i as int, false),
            final(self).servers@ == old(self).servers@,
            old(self).wf() ==> final(self).wf(),
    {
        self.alive[i] = false;
    }

    /// Reserve a connection slot on server `i` (request start).
    pub fn increment_connections(&mut self, i: usize)
        requires
            i < old(self).servers@.len(),
        ensures
            final(self).servers@ == inc_conn(old(self).servers@, i as int),
            final(self).alive@ == old(self).alive@,
            old(self).wf() ==> final(self).wf(),
    {
        let s = &self.servers[i];
        let c = if s.connections == u32::MAX {
            u32::MAX
        } else {
            s.connections + 1
        };
        let ns = Server {
            addr: s.addr.clone(),
            weight: s.weight,
            response_time: s.response_time,
            connections: c,
            max_connections: s.max_connections,
        };
        self.servers[i] = ns;
        proof {
            if old(self).wf() {
                lemma_total_weight_congruence(
                    old(self).servers@,
                    self.servers@,
                    self.servers@.len() as int,
                );
            }
        }
    }

    /// Release a connection slot on server `i` (request end); clamps at 0
    /// so that an unmatched release cannot underflow.
    pub fn decrement_connections(&mut self, i: usize)
        requires
            i < old(self).servers@.len(),
        ensures
            final(self).servers@ == dec_conn(old(self).servers@, i as int),
            final(self).alive@ == old(self).alive@,
            old(self).wf() ==> final(self).wf(),
    {
        let s = &self.servers[i];
        let c = if s.connections == 0 {
            0
        } else {
            s.connections - 1
        };
        let ns = Server {
            addr: s.addr.clone(),
            weight: s.weight,
            response_time: s.response_time,
            connections: c,
            max_connections: s.max_connections,
        };
        self.servers[i] = ns;
        proof {
            if old(self).wf() {
                lemma_total_weight_congruence(
                    old(self).servers@,
                    self.servers@,
                    self.servers@.len() as int,
                );
            }
        }
    }

    /// Overwrite the last observed response time of server `i`.
    pub fn record_response_time(&mut self, i: usize, t: u64)
        requires
            i < old(self).servers@.len(),
        ensures
            final(self).servers@ == set_response_time(old(self).servers@, i as int, t),
            final(self).alive@ == old(self).alive@,
            old(self).wf() ==> final(self).wf(),
    {
        let s = &self.servers[i];
        let ns = Server {
            addr: s.addr.clone(),
            weight: s.weight,
            response_time: t,
            connections: s.connections,
            max_connections: s.max_connections,
        };
        self.servers[i] = ns;
        proof {
            if old(self).wf() {
                lemma_total_weight_congruence(
                    old(self).servers@,
                    self.servers@,
                    self.servers@.len() as int,
                );
            }
        }
    }
}

/// `total_weight` reads only the weight fields.
pub proof fn lemma_total_weight_congruence(a: Seq<Server>, b: Seq<Server>, n: int)
    requires
        n <= a.len(),
        n <= b.len(),
        forall|i: int| 0 <= i < n ==> a[i].weight == b[i].weight,
    ensures
        total_weight(a, n) == total_weight(b, n),
    decreases n,
{
    if n > 0 {
        lemma_total_weight_congruence(a, b, n - 1);
    }
}

} // verus!
