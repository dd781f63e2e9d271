use dispatch_engine::algorithm::{get_algo, get_algo_rev, Algorithm};
use dispatch_engine::config::{build_pool, Config, ConfigError};
use dispatch_engine::registry::Server;

fn lines(text: &[&str]) -> Vec<String> {
    text.iter().map(|l| String::from(*l)).collect()
}

#[test]
fn full_configuration_is_read() {
    let mut c = Config::new();
    let r = c.update(
        &lines(&[
            "load balancer: http://127.0.0.1:9000",
            "algorithm: least_connections",
            "servers: http://127.0.0.1:8081, http://127.0.0.1:8082",
            "weights: 3, 1",
            "max connections: 50, 75",
            "timeout: 30",
            "health check interval: 5",
        ]),
        None,
        None,
    );
    assert!(r.is_ok());
    assert_eq!(c.load_balancer, "http://127.0.0.1:9000");
    assert_eq!(c.algo, Algorithm::LeastConnections);
    assert_eq!(c.server_count(), 2);
    assert_eq!(c.servers[0].addr, "http://127.0.0.1:8081");
    assert_eq!(c.servers[0].weight, 3);
    assert_eq!(c.servers[0].max_connections, 50);
    assert_eq!(c.servers[0].connections, 0);
    assert_eq!(c.servers[0].response_time, 0);
    assert_eq!(c.servers[1].addr, "http://127.0.0.1:8082");
    assert_eq!(c.servers[1].weight, 1);
    assert_eq!(c.servers[1].max_connections, 75);
    assert_eq!(c.timeout, 30);
    assert_eq!(c.health_check_interval, 5);
}

#[test]
fn defaults_before_any_configuration() {
    let c = Config::new();
    assert_eq!(c.load_balancer, "http://127.0.0.1:8000");
    assert_eq!(c.algo, Algorithm::RoundRobin);
    assert_eq!(c.server_count(), 0);
    assert_eq!(c.timeout, 0);
    assert_eq!(c.health_check_interval, 0);
}

#[test]
fn unknown_and_empty_lines_are_ignored() {
    let mut c = Config::new();
    let r = c.update(
        &lines(&["", "# comment", "something else entirely", "   "]),
        None,
        None,
    );
    assert!(r.is_ok());
    assert_eq!(c.server_count(), 0);
    assert_eq!(c.algo, Algorithm::RoundRobin);
}

#[test]
fn command_line_overrides_take_precedence() {
    let mut c = Config::new();
    let r = c.update(
        &lines(&[
            "load balancer: http://127.0.0.1:9000",
            "algorithm: least_connections",
            "servers: http://127.0.0.1:8081",
            "weights: 1",
            "max connections: 10",
        ]),
        Some("http://0.0.0.0:7777"),
        Some("weighted_round_robin"),
    );
    assert!(r.is_ok());
    assert_eq!(c.load_balancer, "http://0.0.0.0:7777");
    assert_eq!(c.algo, Algorithm::WeightedRoundRobin);
}

#[test]
fn unparsable_listen_address_falls_back_to_default() {
    let mut c = Config::new();
    let r = c.update(&lines(&["load balancer: not a uri at all"]), None, None);
    assert!(r.is_ok());
    assert_eq!(c.load_balancer, "http://127.0.0.1:8000");
}

#[test]
fn later_directive_lines_overwrite_earlier_ones() {
    let mut c = Config::new();
    let r = c.update(&lines(&["timeout: 10", "timeout: 20"]), None, None);
    assert!(r.is_ok());
    assert_eq!(c.timeout, 20);
}

#[test]
fn invalid_server_uri_is_fatal() {
    let mut c = Config::new();
    let r = c.update(
        &lines(&["servers: http://ok:80, not a uri", "weights: 1, 1"]),
        None,
        None,
    );
    assert_eq!(r.unwrap_err(), ConfigError::InvalidUri);
    // the snapshot is untouched on error
    assert_eq!(c.server_count(), 0);
}

#[test]
fn invalid_weight_is_fatal() {
    let mut c = Config::new();
    let r = c.update(&lines(&["weights: 3, banana"]), None, None);
    assert_eq!(r.unwrap_err(), ConfigError::InvalidWeight);
}

#[test]
fn weight_past_32_bits_is_fatal() {
    let mut c = Config::new();
    let ok = c.update(
        &lines(&[
            "servers: http://a:1",
            "weights: 4294967295",
            "max connections: 1",
        ]),
        None,
        None,
    );
    assert!(ok.is_ok());
    assert_eq!(c.servers[0].weight, 4294967295);
    let r = c.update(&lines(&["weights: 4294967296"]), None, None);
    assert_eq!(r.unwrap_err(), ConfigError::InvalidWeight);
}

#[test]
fn invalid_max_connections_is_fatal() {
    let mut c = Config::new();
    let r = c.update(&lines(&["max connections: ten"]), None, None);
    assert_eq!(r.unwrap_err(), ConfigError::InvalidMaxConnections);
}

#[test]
fn invalid_timeout_and_interval_are_fatal() {
    let mut c = Config::new();
    assert_eq!(
        c.update(&lines(&["timeout: soon"]), None, None).unwrap_err(),
        ConfigError::InvalidTimeout
    );
    assert_eq!(
        c.update(&lines(&["health check interval: -5"]), None, None)
            .unwrap_err(),
        ConfigError::InvalidInterval
    );
}

#[test]
fn timeout_covers_the_full_64_bit_range() {
    let mut c = Config::new();
    assert!(c
        .update(&lines(&["timeout: 18446744073709551615"]), None, None)
        .is_ok());
    assert_eq!(c.timeout, 18446744073709551615);
    assert_eq!(
        c.update(&lines(&["timeout: 18446744073709551616"]), None, None)
            .unwrap_err(),
        ConfigError::InvalidTimeout
    );
}

#[test]
fn list_length_mismatch_is_fatal() {
    let mut c = Config::new();
    let r = c.update(
        &lines(&[
            "servers: http://a:1, http://b:2",
            "weights: 1",
            "max connections: 5, 5",
        ]),
        None,
        None,
    );
    assert_eq!(r.unwrap_err(), ConfigError::LengthMismatch);
}

#[test]
fn zero_weight_and_zero_cap_are_fatal() {
    let mut c = Config::new();
    assert_eq!(
        c.update(
            &lines(&["servers: http://a:1", "weights: 0", "max connections: 5"]),
            None,
            None,
        )
        .unwrap_err(),
        ConfigError::ZeroWeight
    );
    assert_eq!(
        c.update(
            &lines(&["servers: http://a:1", "weights: 2", "max connections: 0"]),
            None,
            None,
        )
        .unwrap_err(),
        ConfigError::ZeroMaxConnections
    );
}

#[test]
fn list_entries_are_trimmed() {
    let mut c = Config::new();
    let r = c.update(
        &lines(&[
            "servers:   http://a:1 ,  http://b:2  ",
            "weights:  2 , 3 ",
            "max connections: 7 , 8",
        ]),
        None,
        None,
    );
    assert!(r.is_ok());
    assert_eq!(c.servers[0].addr, "http://a:1");
    assert_eq!(c.servers[1].addr, "http://b:2");
    assert_eq!(c.servers[0].weight, 2);
    assert_eq!(c.servers[1].weight, 3);
    assert_eq!(c.servers[1].max_connections, 8);
}

#[test]
fn numbers_are_plain_digit_strings() {
    let mut c = Config::new();
    // leading zeros are digits and read as the same number
    assert!(c
        .update(
            &lines(&["servers: http://a:1", "weights: 007", "max connections: 5"]),
            None,
            None,
        )
        .is_ok());
    assert_eq!(c.servers[0].weight, 7);
    // a sign is not a digit
    assert_eq!(
        c.update(&lines(&["weights: +5"]), None, None).unwrap_err(),
        ConfigError::InvalidWeight
    );
    // an empty piece is not a number
    assert_eq!(
        c.update(&lines(&["weights: 1,,2"]), None, None).unwrap_err(),
        ConfigError::InvalidWeight
    );
}

#[test]
fn algorithm_identifiers_map_both_ways() {
    let all = [
        (Algorithm::RoundRobin, "round_robin"),
        (Algorithm::WeightedRoundRobin, "weighted_round_robin"),
        (Algorithm::LeastConnections, "least_connections"),
        (Algorithm::WeightedLeastConnections, "weighted_least_connections"),
        (Algorithm::LeastResponseTime, "least_response_time"),
        (Algorithm::WeightedLeastResponseTime, "weighted_least_response_time"),
    ];
    for (algo, name) in all {
        assert_eq!(get_algo(name), algo);
        assert_eq!(get_algo_rev(algo), name);
    }
}

#[test]
fn unrecognized_algorithm_defaults_to_round_robin() {
    assert_eq!(get_algo("fastest_first"), Algorithm::RoundRobin);
    assert_eq!(get_algo(""), Algorithm::RoundRobin);
    // case sensitive
    assert_eq!(get_algo("Round_Robin"), Algorithm::RoundRobin);
    assert_eq!(get_algo("least_connection"), Algorithm::RoundRobin);
}

#[test]
fn build_pool_validates_and_starts_all_alive() {
    let servers = vec![
        Server::new(String::from("http://a:1"), 2, 10),
        Server::new(String::from("http://b:2"), 1, 20),
    ];
    let pool = build_pool(servers).unwrap();
    assert_eq!(pool.server_count(), 2);
    assert_eq!(pool.alive_count(), 2);
    assert_eq!(pool.alive_indices(), vec![0, 1]);
}

#[test]
fn build_pool_rejects_zero_weight_and_zero_cap() {
    let r = build_pool(vec![Server::new(String::from("http://a:1"), 0, 10)]);
    assert_eq!(r.unwrap_err(), ConfigError::ZeroWeight);
    let r = build_pool(vec![Server::new(String::from("http://a:1"), 1, 0)]);
    assert_eq!(r.unwrap_err(), ConfigError::ZeroMaxConnections);
}
