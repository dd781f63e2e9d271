//! Startup configuration: the snapshot the dispatch engine is seeded from.
//!
//! The format is line oriented.  A line starting with one of the directive
//! prefixes sets that part of the snapshot (the last such line wins);
//! anything else is ignored.  `servers:`, `weights:` and `max connections:`
//! take comma-separated lists which must be equally long; weights and
//! connection caps must be positive.  Command-line overrides for the listen
//! address and the algorithm take precedence over the file.  Configuration
//! errors are fatal: the caller must not start serving traffic on `Err`.

use vstd::prelude::*;
use crate::algorithm::Algorithm;
use crate::algorithm::get_algo;
use crate::algorithm::spec_get_algo;
use crate::registry::Pool;
use crate::registry::Server;
use crate::registry::total_weight;
use crate::text::parse_u32;
use crate::text::parse_u32_spec;
use crate::text::parse_u64;
use crate::text::parse_u64_spec;
use crate::text::split_commas;
use crate::text::split_commas_exec;
use crate::text::starts_with_spec;
use crate::text::str_starts_with;
use crate::text::trim;
use crate::text::trim_spec;

verus! {

/// Why a configuration was rejected.  Every one of these is fatal at
/// startup.
#[derive(Clone, Copy, Debug, PartialEq, Eq, Structural)]
pub enum ConfigError {
    /// A server address did not parse as a URI.
    InvalidUri,
    /// A weight was not a decimal number fitting 32 bits.
    InvalidWeight,
    /// A connection cap was not a decimal number fitting 32 bits.
    InvalidMaxConnections,
    /// The timeout was not a decimal number of seconds fitting 64 bits.
    InvalidTimeout,
    /// The health-check interval was not a decimal number of seconds.
    InvalidInterval,
    /// The server, weight and max-connection lists differ in length.
    LengthMismatch,
    /// A weight of zero was configured.
    ZeroWeight,
    /// A connection cap of zero was configured.
    ZeroMaxConnections,
    /// The weights sum past what the rotation cursor can count.
    WeightOverflow,
}

/// Whether a string is an acceptable URI.  Decided by the HTTP library's
/// parser; a function of the string alone.
pub uninterp spec fn uri_ok(s: Seq<char>) -> bool;

/// Relies on `hyper::Uri`'s `FromStr` implementation (the `http` crate's
/// URI parser): whether parsing succeeds depends only on the characters of
/// the input.
#[verifier::external_body]
fn parse_uri_ok(s: &str) -> (r: bool)
    ensures
        r == uri_ok(s@),
{
    s.parse::<hyper::Uri>().is_ok()
}

/// The fallback listen address.
pub open spec fn default_lb() -> Seq<char> {
    "http://127.0.0.1:8000"@
}

/// What kind of directive a configuration line is.
pub enum Directive {
    LoadBalancer,
    Algo,
    Servers,
    Weights,
    MaxConnections,
    Timeout,
    Interval,
    Other,
}

/// The directive a line carries, decided by its prefix, first match wins.
pub open spec fn directive(l: Seq<char>) -> Directive {
    if starts_with_spec(l, "load balancer:"@) {
        Directive::LoadBalancer
    } else if starts_with_spec(l, "algorithm:"@) {
        Directive::Algo
    } else if starts_with_spec(l, "servers:"@) {
        Directive::Servers
    } else if starts_with_spec(l, "weights:"@) {
        Directive::Weights
    } else if starts_with_spec(l, "max connections:"@) {
        Directive::MaxConnections
    } else if starts_with_spec(l, "timeout:"@) {
        Directive::Timeout
    } else if starts_with_spec(l, "health check interval:"@) {
        Directive::Interval
    } else {
        Directive::Other
    }
}

/// The line's payload: what follows the directive prefix, trimmed.
pub open spec fn rest_after(l: Seq<char>, p: Seq<char>) -> Seq<char> {
    trim_spec(l.subrange(p.len() as int, l.len() as int))
}

/// The listen address a `load balancer:` line sets: the command-line
/// override if one was given, else the line's payload; an address that is
/// no URI falls back to the default.
pub open spec fn lb_value(l: Seq<char>, acli: Option<Seq<char>>) -> Seq<char> {
    let chosen = match acli {
        Option::Some(a) => a,
        Option::None => rest_after(l, "load balancer:"@),
    };
    if uri_ok(chosen) {
        chosen
    } else {
        default_lb()
    }
}

/// The algorithm an `algorithm:` line sets (command-line override first);
/// unrecognized identifiers fall back to round robin.
pub open spec fn algo_value(l: Seq<char>, gcli: Option<Seq<char>>) -> Algorithm {
    spec_get_algo(
        match gcli {
            Option::Some(g) => g,
            Option::None => rest_after(l, "algorithm:"@),
        },
    )
}

/// The addresses a `servers:` line lists, each trimmed.
pub open spec fn parsed_addrs(l: Seq<char>) -> Seq<Seq<char>> {
    split_commas(rest_after(l, "servers:"@)).map_values(|p: Seq<char>| trim_spec(p))
}

/// Whether every address on a `servers:` line is a URI.
pub open spec fn addrs_ok(l: Seq<char>) -> bool {
    forall|k: int| 0 <= k < parsed_addrs(l).len() ==> uri_ok(#[trigger] parsed_addrs(l)[k])
}

/// Parse every piece (trimmed) as a 32-bit decimal; one bad piece rejects
/// the whole list.
pub open spec fn parse_u32_list(parts: Seq<Seq<char>>) -> Option<Seq<u32>>
    decreases parts.len(),
{
    if parts.len() == 0 {
        Option::Some(Seq::empty())
    } else {
        match parse_u32_list(parts.drop_last()) {
            Option::None => Option::None,
            Option::Some(vs) => match parse_u32_spec(trim_spec(parts.last())) {
                Option::None => Option::None,
                Option::Some(v) => Option::Some(vs.push(v)),
            },
        }
    }
}

/// The weights a `weights:` line lists.
pub open spec fn parsed_weights(l: Seq<char>) -> Option<Seq<u32>> {
    parse_u32_list(split_commas(rest_after(l, "weights:"@)))
}

/// The connection caps a `max connections:` line lists.
pub open spec fn parsed_maxc(l: Seq<char>) -> Option<Seq<u32>> {
    parse_u32_list(split_commas(rest_after(l, "max connections:"@)))
}

/// The seconds a `timeout:` line sets.
pub open spec fn parsed_timeout(l: Seq<char>) -> Option<u64> {
    parse_u64_spec(rest_after(l, "timeout:"@))
}

/// The seconds a `health check interval:` line sets.
pub open spec fn parsed_interval(l: Seq<char>) -> Option<u64> {
    parse_u64_spec(rest_after(l, "health check interval:"@))
}

/// The error a single line raises, if any.
pub open spec fn line_error(l: Seq<char>) -> Option<ConfigError> {
    match directive(l) {
        Directive::Servers => if addrs_ok(l) {
            Option::None
        } else {
            Option::Some(ConfigError::InvalidUri)
        },
        Directive::Weights => if parsed_weights(l) is Some {
            Option::None
        } else {
            Option::Some(ConfigError::InvalidWeight)
        },
        Directive::MaxConnections => if parsed_maxc(l) is Some {
            Option::None
        } else {
            Option::Some(ConfigError::InvalidMaxConnections)
        },
        Directive::Timeout => if parsed_timeout(l) is Some {
            Option::None
        } else {
            Option::Some(ConfigError::InvalidTimeout)
        },
        Directive::Interval => if parsed_interval(l) is Some {
            Option::None
        } else {
            Option::Some(ConfigError::InvalidInterval)
        },
        _ => Option::None,
    }
}

/// The first per-line error at or after line `i`.
pub open spec fn first_error_from(lines: Seq<Seq<char>>, i: int) -> Option<ConfigError>
    decreases lines.len() - i,
{
    if i < 0 || i >= lines.len() {
        Option::None
    } else if line_error(lines[i]) is Some {
        line_error(lines[i])
    } else {
        first_error_from(lines, i + 1)
    }
}

/// The listen address after processing lines `i..`, starting from `cur`.
pub open spec fn lb_fold(
    lines: Seq<Seq<char>>,
    i: int,
    acli: Option<Seq<char>>,
    cur: Seq<char>,
) -> Seq<char>
    decreases lines.len() - i,
{
    if i < 0 || i >= lines.len() {
        cur
    } else {
        lb_fold(
            lines,
            i + 1,
            acli,
            if directive(lines[i]) is LoadBalancer {
                lb_value(lines[i], acli)
            } else {
                cur
            },
        )
    }
}

/// The algorithm after processing lines `i..`, starting from `cur`.
pub open spec fn algo_fold(
    lines: Seq<Seq<char>>,
    i: int,
    gcli: Option<Seq<char>>,
    cur: Algorithm,
) -> Algorithm
    decreases lines.len() - i,
{
    if i < 0 || i >= lines.len() {
        cur
    } else {
        algo_fold(
            lines,
            i + 1,
            gcli,
            if directive(lines[i]) is Algo {
                algo_value(lines[i], gcli)
            } else {
                cur
            },
        )
    }
}

/// The address list after processing lines `i..`, starting from `cur`.
pub open spec fn servers_fold(lines: Seq<Seq<char>>, i: int, cur: Seq<Seq<char>>) -> Seq<
    Seq<char>,
>
    decreases lines.len() - i,
{
    if i < 0 || i >= lines.len() {
        cur
    } else {
        servers_fold(
            lines,
            i + 1,
            if directive(lines[i]) is Servers {
                parsed_addrs(lines[i])
            } else {
                cur
            },
        )
    }
}

/// The weight list after processing lines `i..`, starting from `cur`.
pub open spec fn weights_fold(lines: Seq<Seq<char>>, i: int, cur: Seq<u32>) -> Seq<u32>
    decreases lines.len() - i,
{
    if i < 0 || i >= lines.len() {
        cur
    } else {
        weights_fold(
            lines,
            i + 1,
            if directive(lines[i]) is Weights {
                match parsed_weights(lines[i]) {
                    Option::Some(v) => v,
                    Option::None => cur,
                }
            } else {
                cur
            },
        )
    }
}

/// The connection-cap list after processing lines `i..`.
pub open spec fn maxc_fold(lines: Seq<Seq<char>>, i: int, cur: Seq<u32>) -> Seq<u32>
    decreases lines.len() - i,
{
    if i < 0 || i >= lines.len() {
        cur
    } else {
        maxc_fold(
            lines,
            i + 1,
            if directive(lines[i]) is MaxConnections {
                match parsed_maxc(lines[i]) {
                    Option::Some(v) => v,
                    Option::None => cur,
                }
            } else {
                cur
            },
        )
    }
}

/// The timeout after processing lines `i..`.
pub open spec fn timeout_fold(lines: Seq<Seq<char>>, i: int, cur: u64) -> u64
    decreases lines.len() - i,
{
    if i < 0 || i >= lines.len() {
        cur
    } else {
        timeout_fold(
            lines,
            i + 1,
            if directive(lines[i]) is Timeout {
                match parsed_timeout(lines[i]) {
                    Option::Some(v) => v,
                    Option::None => cur,
                }
            } else {
                cur
            },
        )
    }
}

/// The health-check interval after processing lines `i..`.
pub open spec fn interval_fold(lines: Seq<Seq<char>>, i: int, cur: u64) -> u64
    decreases lines.len() - i,
{
    if i < 0 || i >= lines.len() {
        cur
    } else {
        interval_fold(
            lines,
            i + 1,
            if directive(lines[i]) is Interval {
                match parsed_interval(lines[i]) {
                    Option::Some(v) => v,
                    Option::None => cur,
                }
            } else {
                cur
            },
        )
    }
}

/// Sum of the first `n` weights.
pub open spec fn weights_total(ws: Seq<u32>, n: int) -> int
    decreases n,
{
    if n <= 0 {
        0
    } else {
        weights_total(ws, n - 1) + ws[n - 1]
    }
}

/// The error an update over `lines` raises, if any: the first bad line,
/// else a mismatch or zero or overflow among the assembled lists.
pub open spec fn config_error(lines: Seq<Seq<char>>) -> Option<ConfigError> {
    let addrs = servers_fold(lines, 0, Seq::empty());
    let ws = weights_fold(lines, 0, Seq::empty());
    let mc = maxc_fold(lines, 0, Seq::empty());
    if first_error_from(lines, 0) is Some {
        first_error_from(lines, 0)
    } else if addrs.len() != ws.len() || addrs.len() != mc.len() {
        Option::Some(ConfigError::LengthMismatch)
    } else if exists|k: int| 0 <= k < ws.len() && #[trigger] ws[k] == 0 {
        Option::Some(ConfigError::ZeroWeight)
    } else if exists|k: int| 0 <= k < mc.len() && #[trigger] mc[k] == 0 {
        Option::Some(ConfigError::ZeroMaxConnections)
    } else if weights_total(ws, ws.len() as int) > u64::MAX {
        Option::Some(ConfigError::WeightOverflow)
    } else {
        Option::None
    }
}

proof fn lemma_parse_u32_list_fails(parts: Seq<Seq<char>>, k: int)
    requires
        0 <= k < parts.len(),
        parse_u32_spec(trim_spec(parts[k])) is None,
    ensures
        parse_u32_list(parts) is None,
    decreases parts.len(),
{
    if k < parts.len() - 1 {
        lemma_parse_u32_list_fails(parts.drop_last(), k);
    }
}

/// The comma-separated 32-bit decimals of `s`, each piece trimmed; one
/// bad piece rejects the whole list.
#[verifier::loop_isolation(false)]
fn parse_u32_csv(s: &str) -> (r: Option<Vec<u32>>)
    ensures
        (match r {
            Some(v) => parse_u32_list(split_commas(s@)) == Option::Some(v@),
            None => parse_u32_list(split_commas(s@)) is None,
        }),
{
    let parts = split_commas_exec(s);
    let ghost pv = split_commas(s@);
    let mut out: Vec<u32> = Vec::new();
    let mut k: usize = 0;
    proof {
        assert(pv.subrange(0, 0) =~= Seq::<Seq<char>>::empty());
    }
    while k < parts.len()
        invariant
            k <= parts@.len(),
            parts@.map_values(|t: String| t@) == pv,
            parse_u32_list(pv.subrange(0, k as int)) == Option::Some(out@),
        decreases parts@.len() - k,
    {
        proof {
            assert(pv[k as int] == parts@.map_values(|t: String| t@)[k as int]);
        }
        let t = trim(parts[k].as_str());
        match parse_u32(t.as_str()) {
            Some(v) => {
                out.push(v);
                proof {
                    assert(pv.subrange(0, k + 1).drop_last() =~= pv.subrange(0, k as int));
                    assert(pv.subrange(0, k + 1).last() == pv[k as int]);
                }
            },
            None => {
                proof {
                    lemma_parse_u32_list_fails(pv, k as int);
                }
                return None;
            },
        }
        k = k + 1;
    }
    proof {
        assert(pv.subrange(0, parts@.len() as int) =~= pv);
    }
    Some(out)
}

proof fn lemma_weights_total_mono(ws: Seq<u32>, a: int, b: int)
    requires
        0 <= a <= b <= ws.len(),
    ensures
        weights_total(ws, a) <= weights_total(ws, b),
    decreases b,
{
    if b > a {
        lemma_weights_total_mono(ws, a, b - 1);
    }
}

proof fn lemma_weights_sum_eq(sv: Seq<Server>, ws: Seq<u32>, n: int)
    requires
        n <= sv.len(),
        n <= ws.len(),
        forall|k: int| 0 <= k < n ==> #[trigger] sv[k].weight == ws[k],
    ensures
        total_weight(sv, n) == weights_total(ws, n),
    decreases n,
{
    if n > 0 {
        lemma_weights_sum_eq(sv, ws, n - 1);
    }
}

/// The startup snapshot: listen address, algorithm, backend list, client
/// timeout and health-check interval, all in seconds and plain values.
pub struct Config {
    pub load_balancer: String,
    pub algo: Algorithm,
    pub servers: Vec<Server>,
    pub timeout: u64,
    pub health_check_interval: u64,
}

impl Config {
    /// The defaults before any configuration is read: the default listen
    /// address, round robin, no servers, zero timeouts.
    pub fn new() -> (c: Config)
        ensures
            c.load_balancer@ == default_lb(),
            c.algo == Algorithm::RoundRobin,
            c.servers@.len() == 0,
            c.timeout == 0,
            c.health_check_interval == 0,
    {
        Config {
            load_balancer: String::from_str("http://127.0.0.1:8000"),
            algo: Algorithm::RoundRobin,
            servers: Vec::new(),
            timeout: 0,
            health_check_interval: 0,
        }
    }

    /// How many servers the snapshot lists.
    pub fn server_count(&self) -> (n: usize)
        ensures
            n == self.servers@.len(),
    {
        self.servers.len()
    }

    /// Apply the configuration in `lines` to this snapshot, with optional
    /// command-line overrides for the listen address and the algorithm.
    /// Each directive line overwrites its field (the last one wins); the
    /// server, weight and cap lists are validated together at the end.  On
    /// any error the snapshot is untouched and serving must not start.
    #[verifier::loop_isolation(false)]
    pub fn update(
        &mut self,
        lines: &Vec<String>,
        addr: Option<&str>,
        algorithm: Option<&str>,
    ) -> (r: Result<(), ConfigError>)
        ensures
            ({
                let lv = lines@.map_values(|t: String| t@);
                let acli = (match addr {
                    Some(a) => Option::Some(a@),
                    None => Option::<Seq<char>>::None,
                });
                let gcli = (match algorithm {
                    Some(g) => Option::Some(g@),
                    None => Option::<Seq<char>>::None,
                });
                let addrs = servers_fold(lv, 0, Seq::empty());
                let ws = weights_fold(lv, 0, Seq::empty());
                let mc = maxc_fold(lv, 0, Seq::empty());
                match r {
                    Ok(_) => {
                        &&& config_error(lv) is None
                        &&& final(self).load_balancer@ == lb_fold(
                            lv,
                            0,
                            acli,
                            old(self).load_balancer@,
                        )
                        &&& final(self).algo == algo_fold(lv, 0, gcli, old(self).algo)
                        &&& final(self).timeout == timeout_fold(lv, 0, old(self).timeout)
                        &&& final(self).health_check_interval == interval_fold(
                            lv,
                            0,
                            old(self).health_check_interval,
                        )
                        &&& final(self).servers@.len() == addrs.len()
                        &&& (forall|k: int|
                            0 <= k < addrs.len() ==> {
                                &&& (#[trigger] final(self).servers@[k]).addr@ == addrs[k]
                                &&& final(self).servers@[k].weight == ws[k]
                                &&& final(self).servers@[k].max_connections == mc[k]
                                &&& final(self).servers@[k].connections == 0
                                &&& final(self).servers@[k].response_time == 0
                            })
                        &&& total_weight(
                            final(self).servers@,
                            final(self).servers@.len() as int,
                        ) <= u64::MAX
                    },
                    Err(e) => {
                        &&& config_error(lv) == Option::Some(e)
                        &&& *final(self) == *old(self)
                    },
                }
            }),
    {
        let ghost lv = lines@.map_values(|t: String| t@);
        let ghost acli: Option<Seq<char>> = match addr {
            Some(a) => Option::Some(a@),
            None => Option::None,
        };
        let ghost gcli: Option<Seq<char>> = match algorithm {
            Some(g) => Option::Some(g@),
            None => Option::None,
        };

        let mut lb: String = self.load_balancer.clone();
        let mut algo: Algorithm = self.algo;
        let mut addrs: Vec<String> = Vec::new();
        let mut ws: Vec<u32> = Vec::new();
        let mut mc: Vec<u32> = Vec::new();
        let mut timeout: u64 = self.timeout;
        let mut interval: u64 = self.health_check_interval;

        let n = lines.len();
        let mut i: usize = 0;
        proof {
            assert(addrs@.map_values(|t: String| t@) =~= Seq::<Seq<char>>::empty());
        }
        while i < n
            invariant
                i <= n,
                n == lines@.len(),
                lv == lines@.map_values(|t: String| t@),
                acli == (match addr {
                    Some(a) => Option::Some(a@),
                    None => Option::<Seq<char>>::None,
                }),
                gcli == (match algorithm {
                    Some(g) => Option::Some(g@),
                    None => Option::<Seq<char>>::None,
                }),
                first_error_from(lv, 0) == first_error_from(lv, i as int),
                lb_fold(lv, 0, acli, old(self).load_balancer@) == lb_fold(
                    lv,
                    i as int,
                    acli,
                    lb@,
                ),
                algo_fold(lv, 0, gcli, old(self).algo) == algo_fold(lv, i as int, gcli, algo),
                servers_fold(lv, 0, Seq::empty()) == servers_fold(
                    lv,
                    i as int,
                    addrs@.map_values(|t: String| t@),
                ),
                weights_fold(lv, 0, Seq::empty()) == weights_fold(lv, i as int, ws@),
                maxc_fold(lv, 0, Seq::empty()) == maxc_fold(lv, i as int, mc@),
                timeout_fold(lv, 0, old(self).timeout) == timeout_fold(lv, i as int, timeout),
                interval_fold(lv, 0, old(self).health_check_interval) == interval_fold(
                    lv,
                    i as int,
                    interval,
                ),
                *self == *old(self),
            decreases n - i,
        {
            let line = &lines[i];
            proof {
                assert(lv[i as int] == lines@.map_values(|t: String| t@)[i as int]);
            }
            let s = line.as_str();
            let slen = s.unicode_len();
            if str_starts_with(s, "load balancer:") {
                let plen = "load balancer:".unicode_len();
                let rest = s.substring_char(plen, slen);
                let chosen: String = match addr {
                    Some(a) => String::from_str(a),
                    None => trim(rest),
                };
                if parse_uri_ok(chosen.as_str()) {
                    lb = chosen;
                } else {
                    lb = String::from_str("http://127.0.0.1:8000");
                }
                proof {
                    assert(directive(lv[i as int]) is LoadBalancer);
                    assert(lb@ == lb_value(lv[i as int], acli));
                }
            } else if str_starts_with(s, "algorithm:") {
                let plen = "algorithm:".unicode_len();
                let rest = s.substring_char(plen, slen);
                algo = match algorithm {
                    Some(g) => get_algo(g),
                    None => {
                        let t = trim(rest);
                        get_algo(t.as_str())
                    },
                };
                proof {
                    assert(directive(lv[i as int]) is Algo);
                    assert(algo == algo_value(lv[i as int], gcli));
                }
            } else if str_starts_with(s, "servers:") {
                let plen = "servers:".unicode_len();
                let rest = s.substring_char(plen, slen);
                let t = trim(rest);
                let parts = split_commas_exec(t.as_str());
                let ghost pl = parsed_addrs(lv[i as int]);
                proof {
                    assert(directive(lv[i as int]) is Servers);
                    assert(t@ == rest_after(lv[i as int], "servers:"@));
                    assert(pl.len() == parts@.len());
                }
                let mut na: Vec<String> = Vec::new();
                let mut k: usize = 0;
                while k < parts.len()
                    invariant
                        k <= parts@.len(),
                        pl == parsed_addrs(lv[i as int]),
                        i < lv.len(),
                        parts@.map_values(|q: String| q@) == split_commas(
                            rest_after(lv[i as int], "servers:"@),
                        ),
                        pl.len() == parts@.len(),
                        na@.map_values(|q: String| q@) == pl.subrange(0, k as int),
                        forall|j: int| 0 <= j < k ==> uri_ok(#[trigger] pl[j]),
                        first_error_from(lv, 0) == first_error_from(lv, i as int),
                        *self == *old(self),
                    decreases parts@.len() - k,
                {
                    proof {
                        assert(parts@.map_values(|q: String| q@)[k as int] == parts@[k as int]@);
                        assert(pl[k as int] == trim_spec(parts@[k as int]@));
                    }
                    let p = trim(parts[k].as_str());
                    if !parse_uri_ok(p.as_str()) {
                        proof {
                            assert(!addrs_ok(lv[i as int]));
                            assert(line_error(lv[i as int]) == Option::Some(
                                ConfigError::InvalidUri,
                            ));
                            assert(first_error_from(lv, i as int) == Option::Some(
                                ConfigError::InvalidUri,
                            ));
                        }
                        return Err(ConfigError::InvalidUri);
                    }
                    na.push(p);
                    proof {
                        assert(na@.map_values(|q: String| q@) =~= pl.subrange(0, k + 1));
                    }
                    k = k + 1;
                }
                proof {
                    assert(na@.map_values(|q: String| q@) =~= pl);
                    assert(addrs_ok(lv[i as int]));
                }
                addrs = na;
            } else if str_starts_with(s, "weights:") {
                let plen = "weights:".unicode_len();
                let rest = s.substring_char(plen, slen);
                let t = trim(rest);
                proof {
                    assert(directive(lv[i as int]) is Weights);
                    assert(t@ == rest_after(lv[i as int], "weights:"@));
                }
                match parse_u32_csv(t.as_str()) {
                    Some(v) => {
                        ws = v;
                    },
                    None => {
                        proof {
                            assert(line_error(lv[i as int]) == Option::Some(
                                ConfigError::InvalidWeight,
                            ));
                        }
                        return Err(ConfigError::InvalidWeight);
                    },
                }
            } else if str_starts_with(s, "max connections:") {
                let plen = "max connections:".unicode_len();
                let rest = s.substring_char(plen, slen);
                let t = trim(rest);
                proof {
                    assert(directive(lv[i as int]) is MaxConnections);
                    assert(t@ == rest_after(lv[i as int], "max connections:"@));
                }
                match parse_u32_csv(t.as_str()) {
                    Some(v) => {
                        mc = v;
                    },
                    None => {
                        proof {
                            assert(line_error(lv[i as int]) == Option::Some(
                                ConfigError::InvalidMaxConnections,
                            ));
                        }
                        return Err(ConfigError::InvalidMaxConnections);
                    },
                }
            } else if str_starts_with(s, "timeout:") {
                let plen = "timeout:".unicode_len();
                let rest = s.substring_char(plen, slen);
                let t = trim(rest);
                proof {
                    assert(directive(lv[i as int]) is Timeout);
                    assert(t@ == rest_after(lv[i as int], "timeout:"@));
                }
                match parse_u64(t.as_str()) {
                    Some(v) => {
                        timeout = v;
                    },
                    None => {
                        proof {
                            assert(line_error(lv[i as int]) == Option::Some(
                                ConfigError::InvalidTimeout,
                            ));
                        }
                        return Err(ConfigError::InvalidTimeout);
                    },
                }
            } else if str_starts_with(s, "health check interval:") {
                let plen = "health check interval:".unicode_len();
                let rest = s.substring_char(plen, slen);
                let t = trim(rest);
                proof {
                    assert(directive(lv[i as int]) is Interval);
                    assert(t@ == rest_after(lv[i as int], "health check interval:"@));
                }
                match parse_u64(t.as_str()) {
                    Some(v) => {
                        interval = v;
                    },
                    None => {
                        proof {
                            assert(line_error(lv[i as int]) == Option::Some(
                                ConfigError::InvalidInterval,
                            ));
                        }
                        return Err(ConfigError::InvalidInterval);
                    },
                }
            } else {
                proof {
                    assert(directive(lv[i as int]) is Other);
                }
            }
            i = i + 1;
        }
        proof {
            assert(first_error_from(lv, n as int) is None);
        }

        if addrs.len() != ws.len() || addrs.len() != mc.len() {
            return Err(ConfigError::LengthMismatch);
        }
        let m = ws.len();
        let mut k: usize = 0;
        while k < m
            invariant
                k <= m,
                m == ws@.len(),
                forall|j: int| 0 <= j < k ==> #[trigger] ws@[j] != 0,
                first_error_from(lv, 0) is None,
                servers_fold(lv, 0, Seq::empty()) == addrs@.map_values(|t: String| t@),
                weights_fold(lv, 0, Seq::empty()) == ws@,
                maxc_fold(lv, 0, Seq::empty()) == mc@,
                addrs@.len() == ws@.len(),
                addrs@.len() == mc@.len(),
                *self == *old(self),
            decreases m - k,
        {
            if ws[k] == 0 {
                return Err(ConfigError::ZeroWeight);
            }
            k = k + 1;
        }
        let mut k: usize = 0;
        while k < m
            invariant
                k <= m,
                m == ws@.len(),
                forall|j: int| 0 <= j < ws@.len() ==> #[trigger] ws@[j] != 0,
                forall|j: int| 0 <= j < k ==> #[trigger] mc@[j] != 0,
                first_error_from(lv, 0) is None,
                servers_fold(lv, 0, Seq::empty()) == addrs@.map_values(|t: String| t@),
                weights_fold(lv, 0, Seq::empty()) == ws@,
                maxc_fold(lv, 0, Seq::empty()) == mc@,
                addrs@.len() == ws@.len(),
                addrs@.len() == mc@.len(),
                *self == *old(self),
            decreases m - k,
        {
            if mc[k] == 0 {
                return Err(ConfigError::ZeroMaxConnections);
            }
            k = k + 1;
        }
        let mut tw: u64 = 0;
        let mut k: usize = 0;
        while k < m
            invariant
                k <= m,
                m == ws@.len(),
                tw as int == weights_total(ws@, k as int),
                forall|j: int| 0 <= j < ws@.len() ==> #[trigger] ws@[j] != 0,
                forall|j: int| 0 <= j < mc@.len() ==> #[trigger] mc@[j] != 0,
                first_error_from(lv, 0) is None,
                servers_fold(lv, 0, Seq::empty()) == addrs@.map_values(|t: String| t@),
                weights_fold(lv, 0, Seq::empty()) == ws@,
                maxc_fold(lv, 0, Seq::empty()) == mc@,
                addrs@.len() == ws@.len(),
                addrs@.len() == mc@.len(),
                *self == *old(self),
            decreases m - k,
        {
            let w = ws[k];
            if w as u64 > u64::MAX - tw {
                proof {
                    lemma_weights_total_mono(ws@, k + 1, m as int);
                }
                return Err(ConfigError::WeightOverflow);
            }
            tw = tw + w as u64;
            k = k + 1;
        }
        let mut sv: Vec<Server> = Vec::new();
        let mut k: usize = 0;
        while k < addrs.len()
            invariant
                k <= addrs@.len(),
                addrs@.len() == ws@.len(),
                addrs@.len() == mc@.len(),
                sv@.len() == k,
                forall|j: int|
                    0 <= j < k ==> {
                        &&& (#[trigger] sv@[j]).addr@ == addrs@[j]@
                        &&& sv@[j].weight == ws@[j]
                        &&& sv@[j].max_connections == mc@[j]
                        &&& sv@[j].connections == 0
                        &&& sv@[j].response_time == 0
                    },
                tw as int == weights_total(ws@, ws@.len() as int),
                forall|j: int| 0 <= j < ws@.len() ==> #[trigger] ws@[j] != 0,
                forall|j: int| 0 <= j < mc@.len() ==> #[trigger] mc@[j] != 0,
                first_error_from(lv, 0) is None,
                servers_fold(lv, 0, Seq::empty()) == addrs@.map_values(|t: String| t@),
                weights_fold(lv, 0, Seq::empty()) == ws@,
                maxc_fold(lv, 0, Seq::empty()) == mc@,
                *self == *old(self),
            decreases addrs@.len() - k,
        {
            let a = addrs[k].clone();
            sv.push(Server::new(a, ws[k], mc[k]));
            k = k + 1;
        }
        proof {
            lemma_weights_sum_eq(sv@, ws@, sv@.len() as int);
        }

        self.load_balancer = lb;
        self.algo = algo;
        self.servers = sv;
        self.timeout = timeout;
        self.health_check_interval = interval;
        Ok(())
    }
}

/// Seed a registry from a snapshot's server list, validating what pool
/// well-formedness needs; a list that came out of a successful `update`
/// always passes.  Every server starts alive.
#[verifier::loop_isolation(false)]
pub fn build_pool(servers: Vec<Server>) -> (r: Result<Pool, ConfigError>)
    ensures
        (match r {
            Ok(p) => {
                &&& p.wf()
                &&& p.servers@ == servers@
                &&& forall|i: int| 0 <= i < p.alive@.len() ==> p.alive@[i]
            },
            Err(e) => {
                ||| (e == ConfigError::ZeroWeight && (exists|k: int|
                    0 <= k < servers@.len() && #[trigger] servers@[k].weight == 0))
                ||| (e == ConfigError::ZeroMaxConnections && (exists|k: int|
                    0 <= k < servers@.len() && #[trigger] servers@[k].max_connections == 0))
                ||| (e == ConfigError::WeightOverflow && total_weight(
                    servers@,
                    servers@.len() as int,
                ) > u64::MAX)
            },
        }),
{
    let n = servers.len();
    let mut k: usize = 0;
    let mut tw: u64 = 0;
    while k < n
        invariant
            k <= n,
            n == servers@.len(),
            tw as int == total_weight(servers@, k as int),
            forall|j: int| 0 <= j < k ==> #[trigger] servers@[j].weight >= 1,
            forall|j: int| 0 <= j < k ==> #[trigger] servers@[j].max_connections >= 1,
        decreases n - k,
    {
        let w = servers[k].weight;
        if w == 0 {
            return Err(ConfigError::ZeroWeight);
        }
        if servers[k].max_connections == 0 {
            return Err(ConfigError::ZeroMaxConnections);
        }
        if w as u64 > u64::MAX - tw {
            proof {
                lemma_total_weight_mono(servers@, k + 1, n as int);
            }
            return Err(ConfigError::WeightOverflow);
        }
        tw = tw + w as u64;
        k = k + 1;
    }
    Ok(Pool::new(servers))
}

proof fn lemma_total_weight_mono(sv: Seq<Server>, a: int, b: int)
    requires
        0 <= a <= b <= sv.len(),
    ensures
        total_weight(sv, a) <= total_weight(sv, b),
    decreases b,
{
    if b > a {
        lemma_total_weight_mono(sv, a, b - 1);
    }
}

} // verus!
