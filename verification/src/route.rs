//! Strategy-driven selection of one upstream proxy from the registry.
//!
//! Every strategy first restricts to selectable rows (positive latency
//! under the ceiling, non-empty identity), then orders ascending by
//! latency. `MinLatency` takes the fastest row; `Random` samples the
//! fastest thirty uniformly; `Country` takes the fastest row of the
//! requested country, matching case-insensitively on the input;
//! `Binance` samples the fastest twenty rows outside Japan uniformly.

use vstd::prelude::*;
use crate::registry::CandidateFilter;
use crate::registry::Registry;
use crate::registry::faster_passing;
use crate::registry::lemma_window_bound;
use crate::registry::passes_filter;
use crate::registry::sorted_by_latency;
use crate::registry::views_of;
use crate::structs::IpInfo;
use crate::structs::RecordV;
use crate::structs::selectable;
use crate::strutil::lemma_upper_seq_case_insensitive;
use crate::strutil::lower_seq;
use crate::strutil::str_eq;
use crate::strutil::to_upper;
use crate::strutil::upper_seq;
use crate::strutil::string_from;

verus! {

/// The named selection policies. An unrecognized strategy name falls back
/// to `MinLatency` silently.
#[derive(Clone, Copy, PartialEq, Eq, Structural, Debug)]
pub enum Strategy {
    MinLatency,
    Random,
    Country,
    Binance,
}

/// The characters of the strategy name `random`.
pub open spec fn name_random() -> Seq<char> {
    seq!['r', 'a', 'n', 'd', 'o', 'm']
}

/// The characters of the strategy name `country`.
pub open spec fn name_country() -> Seq<char> {
    seq!['c', 'o', 'u', 'n', 't', 'r', 'y']
}

/// The characters of the strategy name `binance`.
pub open spec fn name_binance() -> Seq<char> {
    seq!['b', 'i', 'n', 'a', 'n', 'c', 'e']
}

/// The country code excluded by the `Binance` strategy.
pub open spec fn jp_code() -> Seq<char> {
    seq!['J', 'P']
}

/// Which strategy a name denotes; every unknown name means `MinLatency`.
pub open spec fn strategy_of_name(name: Seq<char>) -> Strategy {
    if name == name_random() {
        Strategy::Random
    } else if name == name_country() {
        Strategy::Country
    } else if name == name_binance() {
        Strategy::Binance
    } else {
        Strategy::MinLatency
    }
}

/// The silent fallback: any name outside the three recognized ones is
/// treated exactly as `MinLatency`, so selection with such a name and
/// selection with `MinLatency` are the same function of the registry.
pub proof fn lemma_unknown_strategy_is_min_latency(name: Seq<char>)
    requires
        name != name_random(),
        name != name_country(),
        name != name_binance(),
    ensures
        strategy_of_name(name) == Strategy::MinLatency,
{
}

/// The `Country` strategy is case-insensitive on its input: it admits a
/// row by comparing the stored code to the upper-cased input alone, so
/// any two spellings of one code admit exactly the same rows.
pub proof fn lemma_country_matching_case_insensitive(code: Seq<char>, rv: RecordV, ceiling: int)
    ensures
        (selectable(rv, ceiling) && rv.code == upper_seq(code)) <==> (selectable(rv, ceiling)
            && rv.code == upper_seq(lower_seq(code))),
        (selectable(rv, ceiling) && rv.code == upper_seq(code)) <==> (selectable(rv, ceiling)
            && rv.code == upper_seq(upper_seq(code))),
{
    lemma_upper_seq_case_insensitive(code);
}

/// Map a strategy name to its policy.
pub fn parse_strategy(name: &str) -> (s: Strategy)
    ensures
        s == strategy_of_name(name@),
{
    proof {
        reveal_strlit("random");
        reveal_strlit("country");
        reveal_strlit("binance");
        assert("random"@ =~= name_random());
        assert("country"@ =~= name_country());
        assert("binance"@ =~= name_binance());
    }
    if str_eq(name, "random") {
        Strategy::Random
    } else if str_eq(name, "country") {
        Strategy::Country
    } else if str_eq(name, "binance") {
        Strategy::Binance
    } else {
        Strategy::MinLatency
    }
}

/// Relies on `rand::Rng::gen_range` over `0..n` (rand 0.8), drawn from
/// `rand::thread_rng`: it panics only on an empty range, which `n > 0`
/// rules out, and returns a value of the range. Nothing more is assumed
/// of the draw; callers hold for every value below `n`.
#[verifier::external_body]
fn random_below(n: usize) -> (r: usize)
    requires
        n > 0,
    ensures
        r < n,
{
    <rand::rngs::ThreadRng as rand::Rng>::gen_range(&mut rand::thread_rng(), 0..n)
}

/// How many of the fastest rows the `Random` strategy samples from.
pub const RANDOM_POOL: usize = 30;

/// How many of the fastest rows the `Binance` strategy samples from.
pub const BINANCE_POOL: usize = 20;

/// The selector. Its only configuration is the latency ceiling under
/// which a row counts as alive.
#[derive(Clone, Copy)]
pub struct Router {
    max_latency: i32,
}

impl Router {
    /// The ceiling: a row is selectable only under this latency.
    pub closed spec fn ceiling(&self) -> int {
        self.max_latency as int
    }

    /// A router with the default ceiling of 300 ms.
    pub fn new() -> (r: Self)
        ensures
            r.ceiling() == 300,
    {
        Router { max_latency: 300 }
    }

    /// The fastest selectable row, if any row is selectable.
    pub fn get_best_proxy(&self, reg: &Registry) -> (r: Option<IpInfo>)
        ensures
            match r {
                Some(p) => {
                    &&& selectable(p@, self.ceiling())
                    &&& reg@.contains(p@)
                    &&& forall|j: int|
                        0 <= j < reg@.len() && selectable(#[trigger] reg@[j], self.ceiling())
                            ==> p@.latency <= reg@[j].latency
                },
                None => forall|j: int|
                    0 <= j < reg@.len() ==> !selectable(#[trigger] reg@[j], self.ceiling()),
            },
    {
        let filter = CandidateFilter {
            max_latency: self.max_latency,
            required_code: None,
            exclude_code: None,
            limit: 1,
        };
        let mut v = reg.query_candidates(&filter);
        let ghost vv = v@;
        let r = v.pop();
        proof {
            if vv.len() > 0 {
                assert(vv.last() == vv[0]);
                assert(views_of(vv)[0] == vv[0]@);
                assert forall|j: int|
                    0 <= j < reg@.len() && selectable(#[trigger] reg@[j], self.ceiling()) implies
                vv[0]@.latency <= reg@[j].latency by {
                    assert(passes_filter(reg@[j], filter@));
                    if views_of(vv).contains(reg@[j]) {
                        let w = choose|w: int|
                            0 <= w < views_of(vv).len() && views_of(vv)[w] == reg@[j];
                        assert(views_of(vv)[w] == vv[w]@);
                    }
                }
            } else {
                assert forall|j: int|
                    0 <= j < reg@.len() implies !selectable(#[trigger] reg@[j], self.ceiling()) by {
                    if selectable(reg@[j], self.ceiling()) {
                        assert(passes_filter(reg@[j], filter@));
                        assert(views_of(vv).contains(reg@[j]) || vv.len() == 1);
                    }
                }
            }
        }
        r
    }

    /// A uniform pick among the thirty fastest selectable rows, if any
    /// row is selectable: fewer than thirty distinct selectable record
    /// values beat the pick.
    pub fn get_random_proxy(&self, reg: &Registry) -> (r: Option<IpInfo>)
        ensures
            match r {
                Some(p) => selectable(p@, self.ceiling()) && reg@.contains(p@),
                None => forall|j: int|
                    0 <= j < reg@.len() ==> !selectable(#[trigger] reg@[j], self.ceiling()),
            },
            r matches Some(p) ==> ({
                let faster = Set::new(
                    |rv: RecordV|
                        reg@.contains(rv) && selectable(rv, self.ceiling()) && rv.latency
                            < p@.latency,
                );
                faster.finite() && faster.len() < RANDOM_POOL as int
            }),
    {
        let filter = CandidateFilter {
            max_latency: self.max_latency,
            required_code: None,
            exclude_code: None,
            limit: RANDOM_POOL,
        };
        let v = reg.query_candidates(&filter);
        if v.len() == 0 {
            proof {
                assert forall|j: int|
                    0 <= j < reg@.len() implies !selectable(#[trigger] reg@[j], self.ceiling()) by {
                    if selectable(reg@[j], self.ceiling()) {
                        assert(passes_filter(reg@[j], filter@));
                    }
                }
            }
            return None;
        }
        let idx = random_below(v.len());
        let chosen = v[idx].clone();
        proof {
            let fv = views_of(v@);
            assert(fv[idx as int] == v@[idx as int]@);
            assert(fv.contains(chosen@));
            lemma_window_bound(reg@, fv, filter@, chosen@);
            assert(Set::new(
                |rv: RecordV|
                    reg@.contains(rv) && selectable(rv, self.ceiling()) && rv.latency
                        < chosen@.latency,
            ) =~= faster_passing(reg@, filter@, chosen@));
        }
        Some(chosen)
    }

    /// The fastest selectable row whose stored country code equals the
    /// upper-cased input exactly, if one exists.
    pub fn get_proxy_by_country(&self, reg: &Registry, country_code: &str) -> (r: Option<IpInfo>)
        ensures
            match r {
                Some(p) => {
                    &&& selectable(p@, self.ceiling())
                    &&& p@.code == upper_seq(country_code@)
                    &&& reg@.contains(p@)
                    &&& forall|j: int|
                        0 <= j < reg@.len() && selectable(#[trigger] reg@[j], self.ceiling())
                            && reg@[j].code == upper_seq(country_code@) ==> p@.latency
                            <= reg@[j].latency
                },
                None => forall|j: int|
                    0 <= j < reg@.len() ==> !(selectable(#[trigger] reg@[j], self.ceiling())
                        && reg@[j].code == upper_seq(country_code@)),
            },
    {
        let code = to_upper(country_code);
        let filter = CandidateFilter {
            max_latency: self.max_latency,
            required_code: Some(code),
            exclude_code: None,
            limit: 1,
        };
        let mut v = reg.query_candidates(&filter);
        let ghost vv = v@;
        let r = v.pop();
        proof {
            if vv.len() > 0 {
                assert(vv.last() == vv[0]);
                assert(views_of(vv)[0] == vv[0]@);
                assert forall|j: int|
                    0 <= j < reg@.len() && selectable(#[trigger] reg@[j], self.ceiling())
                        && reg@[j].code == upper_seq(country_code@) implies vv[0]@.latency
                    <= reg@[j].latency by {
                    assert(passes_filter(reg@[j], filter@));
                    if views_of(vv).contains(reg@[j]) {
                        let w = choose|w: int|
                            0 <= w < views_of(vv).len() && views_of(vv)[w] == reg@[j];
                        assert(views_of(vv)[w] == vv[w]@);
                    }
                }
            } else {
                assert forall|j: int|
                    0 <= j < reg@.len() implies !(selectable(#[trigger] reg@[j], self.ceiling())
                    && reg@[j].code == upper_seq(country_code@)) by {
                    if selectable(reg@[j], self.ceiling()) && reg@[j].code == upper_seq(
                        country_code@,
                    ) {
                        assert(passes_filter(reg@[j], filter@));
                        assert(views_of(vv).contains(reg@[j]) || vv.len() == 1);
                    }
                }
            }
        }
        r
    }

    /// A uniform pick among the twenty fastest selectable rows outside
    /// Japan, if one exists. The returned row never carries code `JP`,
    /// and fewer than twenty distinct admissible record values beat it.
    pub fn get_binance_proxy(&self, reg: &Registry) -> (r: Option<IpInfo>)
        ensures
            match r {
                Some(p) => {
                    &&& selectable(p@, self.ceiling())
                    &&& p@.code != jp_code()
                    &&& reg@.contains(p@)
                },
                None => forall|j: int|
                    0 <= j < reg@.len() ==> !(selectable(#[trigger] reg@[j], self.ceiling())
                        && reg@[j].code != jp_code()),
            },
            r matches Some(p) ==> ({
                let faster = Set::new(
                    |rv: RecordV|
                        reg@.contains(rv) && selectable(rv, self.ceiling()) && rv.code != jp_code()
                            && rv.latency < p@.latency,
                );
                faster.finite() && faster.len() < BINANCE_POOL as int
            }),
    {
        proof {
            reveal_strlit("JP");
            assert("JP"@ =~= jp_code());
        }
        let filter = CandidateFilter {
            max_latency: self.max_latency,
            required_code: None,
            exclude_code: Some(string_from("JP")),
            limit: BINANCE_POOL,
        };
        let v = reg.query_candidates(&filter);
        if v.len() == 0 {
            proof {
                assert forall|j: int|
                    0 <= j < reg@.len() implies !(selectable(#[trigger] reg@[j], self.ceiling())
                    && reg@[j].code != jp_code()) by {
                    if selectable(reg@[j], self.ceiling()) && reg@[j].code != jp_code() {
                        assert(passes_filter(reg@[j], filter@));
                    }
                }
            }
            return None;
        }
        let idx = random_below(v.len());
        let chosen = v[idx].clone();
        proof {
            let fv = views_of(v@);
            assert(fv[idx as int] == v@[idx as int]@);
            assert(fv.contains(chosen@));
            lemma_window_bound(reg@, fv, filter@, chosen@);
            assert(Set::new(
                |rv: RecordV|
                    reg@.contains(rv) && selectable(rv, self.ceiling()) && rv.code != jp_code()
                        && rv.latency < chosen@.latency,
            ) =~= faster_passing(reg@, filter@, chosen@));
        }
        Some(chosen)
    }

    /// Dispatch one selection request. The country parameter is read only
    /// by the `Country` strategy, which requires one.
    pub fn select(&self, reg: &Registry, strategy: Strategy, country: Option<&str>) -> (r: Option<
        IpInfo,
    >)
        requires
            strategy is Country ==> country is Some,
        ensures
            r matches Some(p) ==> selectable(p@, self.ceiling()) && reg@.contains(p@),
            strategy is Binance ==> (r matches Some(p) ==> p@.code != jp_code()),
            strategy is Country ==> (r matches Some(p) ==> p@.code == upper_seq(
                country->Some_0@,
            )),
            (strategy is MinLatency || strategy is Random) && r is None ==> forall|j: int|
                0 <= j < reg@.len() ==> !selectable(#[trigger] reg@[j], self.ceiling()),
            strategy is Country && r is None ==> forall|j: int|
                0 <= j < reg@.len() ==> !(selectable(#[trigger] reg@[j], self.ceiling())
                    && reg@[j].code == upper_seq(country->Some_0@)),
            strategy is Binance && r is None ==> forall|j: int|
                0 <= j < reg@.len() ==> !(selectable(#[trigger] reg@[j], self.ceiling())
                    && reg@[j].code != jp_code()),
            strategy is MinLatency ==> (r matches Some(p) ==> forall|j: int|
                0 <= j < reg@.len() && selectable(#[trigger] reg@[j], self.ceiling()) ==> p@.latency
                    <= reg@[j].latency),
            strategy is Random ==> (r matches Some(p) ==> ({
                let faster = Set::new(
                    |rv: RecordV|
                        reg@.contains(rv) && selectable(rv, self.ceiling()) && rv.latency
                            < p@.latency,
                );
                faster.finite() && faster.len() < RANDOM_POOL as int
            })),
            strategy is Binance ==> (r matches Some(p) ==> ({
                let faster = Set::new(
                    |rv: RecordV|
                        reg@.contains(rv) && selectable(rv, self.ceiling()) && rv.code != jp_code()
                            && rv.latency < p@.latency,
                );
                faster.finite() && faster.len() < BINANCE_POOL as int
            })),
    {
        match strategy {
            Strategy::MinLatency => self.get_best_proxy(reg),
            Strategy::Random => self.get_random_proxy(reg),
            Strategy::Country => {
                match country {
                    Some(c) => self.get_proxy_by_country(reg, c),
                    None => None,
                }
            },
            Strategy::Binance => self.get_binance_proxy(reg),
        }
    }
}

} // verus!

