//! The closed family of selection algorithms and the mapping between the
//! algorithm identifiers accepted in configuration and the enum.

use vstd::prelude::*;
use crate::text::str_eq;

verus! {

/// The six selection policies.  Chosen once at startup; immutable for the
/// process lifetime.
#[derive(Clone, Copy, Debug, PartialEq, Eq, Structural)]
pub enum Algorithm {
    RoundRobin,
    WeightedRoundRobin,
    LeastConnections,
    WeightedLeastConnections,
    LeastResponseTime,
    WeightedLeastResponseTime,
}

/// The algorithm an identifier denotes; unrecognized identifiers fall back
/// to round robin.
pub open spec fn spec_get_algo(s: Seq<char>) -> Algorithm {
    if s == "round_robin"@ {
        Algorithm::RoundRobin
    } else if s == "weighted_round_robin"@ {
        Algorithm::WeightedRoundRobin
    } else if s == "least_connections"@ {
        Algorithm::LeastConnections
    } else if s == "weighted_least_connections"@ {
        Algorithm::WeightedLeastConnections
    } else if s == "least_response_time"@ {
        Algorithm::LeastResponseTime
    } else if s == "weighted_least_response_time"@ {
        Algorithm::WeightedLeastResponseTime
    } else {
        Algorithm::RoundRobin
    }
}

/// The identifier that names an algorithm.
pub open spec fn spec_get_algo_rev(algo: Algorithm) -> Seq<char> {
    match algo {
        Algorithm::RoundRobin => "round_robin"@,
        Algorithm::WeightedRoundRobin => "weighted_round_robin"@,
        Algorithm::LeastConnections => "least_connections"@,
        Algorithm::WeightedLeastConnections => "weighted_least_connections"@,
        Algorithm::LeastResponseTime => "least_response_time"@,
        Algorithm::WeightedLeastResponseTime => "weighted_least_response_time"@,
    }
}

/// Look an algorithm up by its case-sensitive identifier; anything
/// unrecognized selects the round-robin default.
pub fn get_algo(algo: &str) -> (a: Algorithm)
    ensures
        a == spec_get_algo(algo@),
{
    if str_eq(algo, "round_robin") {
        Algorithm::RoundRobin
    } else if str_eq(algo, "weighted_round_robin") {
        Algorithm::WeightedRoundRobin
    } else if str_eq(algo, "least_connections") {
        Algorithm::LeastConnections
    } else if str_eq(algo, "weighted_least_connections") {
        Algorithm::WeightedLeastConnections
    } else if str_eq(algo, "least_response_time") {
        Algorithm::LeastResponseTime
    } else if str_eq(algo, "weighted_least_response_time") {
        Algorithm::WeightedLeastResponseTime
    } else {
        Algorithm::RoundRobin
    }
}

/// The identifier under which an algorithm is configured.
pub fn get_algo_rev(algo: Algorithm) -> (r: &'static str)
    ensures
        r@ == spec_get_algo_rev(algo),
{
    match algo {
        Algorithm::RoundRobin => "round_robin",
        Algorithm::WeightedRoundRobin => "weighted_round_robin",
        Algorithm::LeastConnections => "least_connections",
        Algorithm::WeightedLeastConnections => "weighted_least_connections",
        Algorithm::LeastResponseTime => "least_response_time",
        Algorithm::WeightedLeastResponseTime => "weighted_least_response_time",
    }
}

/// Looking an algorithm's own identifier up returns that algorithm: the
/// six identifiers are pairwise distinct, so the fallback never fires on
/// one of them.
pub proof fn lemma_algo_names_round_trip(algo: Algorithm)
    ensures
        spec_get_algo(spec_get_algo_rev(algo)) == algo,
{
    reveal_strlit("round_robin");
    reveal_strlit("weighted_round_robin");
    reveal_strlit("least_connections");
    reveal_strlit("weighted_least_connections");
    reveal_strlit("least_response_time");
    reveal_strlit("weighted_least_response_time");
    assert("round_robin"@.len() == 11);
    assert("weighted_round_robin"@.len() == 20);
    assert("least_connections"@.len() == 17);
    assert("weighted_least_connections"@.len() == 26);
    assert("least_response_time"@.len() == 19);
    assert("weighted_least_response_time"@.len() == 28);
}

} // verus!
