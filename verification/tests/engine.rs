use dispatch_engine::algorithm::Algorithm;
use dispatch_engine::dispatch::{begin_request, finish_request, RequestOutcome};
use dispatch_engine::health::{apply_probe, apply_sweep};
use dispatch_engine::registry::{Pool, Server};
use dispatch_engine::selector::{
    select_least_connections, select_least_response_time, select_round_robin,
    select_weighted_least_connections, select_weighted_least_response_time,
    select_weighted_round_robin, SelectError, Selector,
};

fn pool_of(specs: &[(&str, u32, u32)]) -> Pool {
    let mut servers = Vec::new();
    for (addr, weight, maxc) in specs {
        servers.push(Server::new(String::from(*addr), *weight, *maxc));
    }
    Pool::new(servers)
}

fn plain_pool(n: usize) -> Pool {
    let mut servers = Vec::new();
    for i in 0..n {
        servers.push(Server::new(format!("http://10.0.0.{}:80", i + 1), 1, 100));
    }
    Pool::new(servers)
}

#[test]
fn round_robin_visits_each_alive_server_once_per_cycle() {
    let pool = plain_pool(3);
    let mut sel = Selector::new(Algorithm::RoundRobin);
    let mut seen = Vec::new();
    for _ in 0..3 {
        seen.push(sel.select(&pool).unwrap());
    }
    let mut sorted = seen.clone();
    sorted.sort();
    assert_eq!(sorted, vec![0, 1, 2]);
    // the next cycle repeats the same rotation
    assert_eq!(sel.select(&pool).unwrap(), seen[0]);
    assert_eq!(sel.select(&pool).unwrap(), seen[1]);
}

#[test]
fn round_robin_order_is_configuration_order() {
    let pool = plain_pool(4);
    let mut sel = Selector::new(Algorithm::RoundRobin);
    let picks: Vec<usize> = (0..8).map(|_| sel.select(&pool).unwrap()).collect();
    assert_eq!(picks, vec![0, 1, 2, 3, 0, 1, 2, 3]);
}

#[test]
fn round_robin_skips_dead_servers() {
    let mut pool = plain_pool(3);
    apply_probe(&mut pool, 1, false);
    let mut sel = Selector::new(Algorithm::RoundRobin);
    let picks: Vec<usize> = (0..4).map(|_| sel.select(&pool).unwrap()).collect();
    assert_eq!(picks, vec![0, 2, 0, 2]);
}

#[test]
fn weighted_round_robin_example_sequence() {
    // weights [3,1,1] give A,A,A,B,C repeating in configuration order
    let pool = pool_of(&[
        ("http://a:80", 3, 10),
        ("http://b:80", 1, 10),
        ("http://c:80", 1, 10),
    ]);
    let mut sel = Selector::new(Algorithm::WeightedRoundRobin);
    let picks: Vec<usize> = (0..10).map(|_| sel.select(&pool).unwrap()).collect();
    assert_eq!(picks, vec![0, 0, 0, 1, 2, 0, 0, 0, 1, 2]);
}

#[test]
fn weighted_round_robin_full_cycle_counts_match_weights() {
    let pool = pool_of(&[
        ("http://a:80", 2, 10),
        ("http://b:80", 5, 10),
        ("http://c:80", 1, 10),
    ]);
    let mut sel = Selector::new(Algorithm::WeightedRoundRobin);
    let mut counts = [0usize; 3];
    for _ in 0..8 {
        counts[sel.select(&pool).unwrap()] += 1;
    }
    assert_eq!(counts, [2, 5, 1]);
}

#[test]
fn least_connections_picks_minimum_and_breaks_ties_by_order() {
    // activeConnections [2, 0, 1]: the 0-connection server wins; after its
    // count rises to 1, the tie at 1 goes to the earlier index.
    let mut pool = pool_of(&[
        ("http://a:80", 1, 10),
        ("http://b:80", 1, 10),
        ("http://c:80", 1, 10),
    ]);
    pool.increment_connections(0);
    pool.increment_connections(0);
    pool.increment_connections(2);
    let first = select_least_connections(&pool).unwrap();
    assert_eq!(first, 1);
    pool.increment_connections(first);
    // counts now [2, 1, 1]; tie between 1 and 2 goes to index 1
    let second = select_least_connections(&pool).unwrap();
    assert_eq!(second, 1);
}

#[test]
fn least_connections_minimal_immediately_after_selection() {
    let mut pool = plain_pool(4);
    pool.increment_connections(0);
    pool.increment_connections(1);
    pool.increment_connections(1);
    let chosen = select_least_connections(&pool).unwrap();
    let min = pool
        .alive_indices()
        .iter()
        .map(|&i| pool.servers[i].connections)
        .min()
        .unwrap();
    assert_eq!(pool.servers[chosen].connections, min);
}

#[test]
fn weighted_least_connections_divides_by_weight() {
    // connections [2, 1], weights [4, 1]: 2/4 < 1/1, so index 0 wins
    let mut pool = pool_of(&[("http://a:80", 4, 10), ("http://b:80", 1, 10)]);
    pool.increment_connections(0);
    pool.increment_connections(0);
    pool.increment_connections(1);
    assert_eq!(select_weighted_least_connections(&pool).unwrap(), 0);
    // plain least connections would pick index 1 instead
    assert_eq!(select_least_connections(&pool).unwrap(), 1);
}

#[test]
fn least_response_time_prefers_unobserved_servers() {
    let mut pool = plain_pool(3);
    pool.record_response_time(0, 80);
    pool.record_response_time(2, 40);
    // server 1 has no observation (0 ms) and sorts first
    assert_eq!(select_least_response_time(&pool).unwrap(), 1);
    pool.record_response_time(1, 100);
    assert_eq!(select_least_response_time(&pool).unwrap(), 2);
}

#[test]
fn weighted_least_response_time_divides_by_weight() {
    // times [90, 50], weights [3, 1]: 90/3 < 50/1, index 0 wins
    let mut pool = pool_of(&[("http://a:80", 3, 10), ("http://b:80", 1, 10)]);
    pool.record_response_time(0, 90);
    pool.record_response_time(1, 50);
    assert_eq!(select_weighted_least_response_time(&pool).unwrap(), 0);
    assert_eq!(select_least_response_time(&pool).unwrap(), 1);
}

#[test]
fn every_algorithm_fails_identically_on_empty_alive_set() {
    let mut pool = plain_pool(2);
    apply_sweep(&mut pool, &vec![false, false]);
    assert_eq!(
        select_round_robin(&pool, 0).unwrap_err(),
        SelectError::NoServerAvailable
    );
    assert_eq!(
        select_weighted_round_robin(&pool, 0).unwrap_err(),
        SelectError::NoServerAvailable
    );
    assert_eq!(
        select_least_connections(&pool).unwrap_err(),
        SelectError::NoServerAvailable
    );
    assert_eq!(
        select_weighted_least_connections(&pool).unwrap_err(),
        SelectError::NoServerAvailable
    );
    assert_eq!(
        select_least_response_time(&pool).unwrap_err(),
        SelectError::NoServerAvailable
    );
    assert_eq!(
        select_weighted_least_response_time(&pool).unwrap_err(),
        SelectError::NoServerAvailable
    );
    for algo in [
        Algorithm::RoundRobin,
        Algorithm::WeightedRoundRobin,
        Algorithm::LeastConnections,
        Algorithm::WeightedLeastConnections,
        Algorithm::LeastResponseTime,
        Algorithm::WeightedLeastResponseTime,
    ] {
        let mut sel = Selector::new(algo);
        assert_eq!(sel.select(&pool).unwrap_err(), SelectError::NoServerAvailable);
        let mut s2 = Selector::new(algo);
        assert_eq!(
            begin_request(&mut pool, &mut s2).unwrap_err(),
            SelectError::NoServerAvailable
        );
    }
}

#[test]
fn empty_pool_has_no_server_available() {
    let pool = Pool::new(Vec::new());
    assert_eq!(pool.server_count(), 0);
    assert_eq!(pool.alive_count(), 0);
    assert_eq!(
        select_round_robin(&pool, 7).unwrap_err(),
        SelectError::NoServerAvailable
    );
}

#[test]
fn request_bookkeeping_nets_to_zero_on_every_outcome() {
    for outcome in [
        RequestOutcome::Success { elapsed_ms: 25 },
        RequestOutcome::BackendError,
        RequestOutcome::Timeout,
    ] {
        let mut pool = plain_pool(3);
        let mut sel = Selector::new(Algorithm::LeastConnections);
        let baseline: Vec<u32> = pool.servers.iter().map(|s| s.connections).collect();
        let i = begin_request(&mut pool, &mut sel).unwrap();
        assert_eq!(pool.servers[i].connections, baseline[i] + 1);
        finish_request(&mut pool, i, outcome);
        let after: Vec<u32> = pool.servers.iter().map(|s| s.connections).collect();
        assert_eq!(after, baseline);
    }
}

#[test]
fn success_records_response_time_and_failures_do_not() {
    let mut pool = plain_pool(1);
    let mut sel = Selector::new(Algorithm::RoundRobin);

    let i = begin_request(&mut pool, &mut sel).unwrap();
    finish_request(&mut pool, i, RequestOutcome::Success { elapsed_ms: 42 });
    assert_eq!(pool.servers[0].response_time, 42);

    let i = begin_request(&mut pool, &mut sel).unwrap();
    finish_request(&mut pool, i, RequestOutcome::Timeout);
    assert_eq!(pool.servers[0].response_time, 42);

    let i = begin_request(&mut pool, &mut sel).unwrap();
    finish_request(&mut pool, i, RequestOutcome::BackendError);
    assert_eq!(pool.servers[0].response_time, 42);
}

#[test]
fn decrement_clamps_at_zero() {
    let mut pool = plain_pool(1);
    pool.decrement_connections(0);
    assert_eq!(pool.servers[0].connections, 0);
    pool.increment_connections(0);
    pool.decrement_connections(0);
    pool.decrement_connections(0);
    assert_eq!(pool.servers[0].connections, 0);
}

#[test]
fn health_sweep_moves_failing_servers_out_and_recovering_back_in() {
    let mut pool = plain_pool(3);
    assert_eq!(pool.alive_indices(), vec![0, 1, 2]);
    // one sweep in which server 1 fails its probe
    apply_sweep(&mut pool, &vec![true, false, true]);
    assert_eq!(pool.alive_indices(), vec![0, 2]);
    assert_eq!(pool.alive_count(), 2);
    // the next sweep sees it recover
    apply_sweep(&mut pool, &vec![true, true, true]);
    assert_eq!(pool.alive_indices(), vec![0, 1, 2]);
}

#[test]
fn health_transitions_are_idempotent() {
    let mut pool = plain_pool(2);
    apply_probe(&mut pool, 0, true);
    apply_probe(&mut pool, 0, true);
    assert_eq!(pool.alive_indices(), vec![0, 1]);
    apply_probe(&mut pool, 1, false);
    apply_probe(&mut pool, 1, false);
    assert_eq!(pool.alive_indices(), vec![0]);
}

#[test]
fn dead_servers_keep_their_counters() {
    let mut pool = plain_pool(2);
    pool.increment_connections(1);
    pool.record_response_time(1, 9);
    apply_probe(&mut pool, 1, false);
    assert_eq!(pool.servers[1].connections, 1);
    assert_eq!(pool.servers[1].response_time, 9);
}

#[test]
fn weighted_rotation_recomputes_cycle_from_current_alive_set() {
    let mut pool = pool_of(&[
        ("http://a:80", 3, 10),
        ("http://b:80", 1, 10),
        ("http://c:80", 1, 10),
    ]);
    let mut sel = Selector::new(Algorithm::WeightedRoundRobin);
    assert_eq!(sel.select(&pool).unwrap(), 0);
    // the heavy server dies mid-rotation; the cycle shrinks to [b, c]
    apply_probe(&mut pool, 0, false);
    let picks: Vec<usize> = (0..4).map(|_| sel.select(&pool).unwrap()).collect();
    assert!(picks.iter().all(|&i| i == 1 || i == 2));
    assert!(picks.contains(&1) && picks.contains(&2));
}

#[test]
fn rotation_cursor_tracks_shrinking_alive_set() {
    let mut pool = plain_pool(3);
    let mut sel = Selector::new(Algorithm::RoundRobin);
    assert_eq!(sel.select(&pool).unwrap(), 0);
    assert_eq!(sel.select(&pool).unwrap(), 1);
    apply_probe(&mut pool, 2, false);
    // alive set is now [0, 1]; the rotation keeps cycling over it
    let a = sel.select(&pool).unwrap();
    let b = sel.select(&pool).unwrap();
    assert_ne!(a, b);
    assert!(a < 2 && b < 2);
}
