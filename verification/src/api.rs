//! The gateway's verified core: strategy-intent derivation, target-URL
//! resolution with the forced-HTTPS policy, header relaying with the
//! strip-list, and the request-routing decision.
//!
//! The HTTP front door itself (listening, reading a body, sending the
//! outbound request) lives outside this crate; it hands the method class,
//! the raw target, the path and the header list here and performs the
//! action this module decides.

use vstd::prelude::*;
use crate::registry::Registry;
use crate::route::BINANCE_POOL;
use crate::route::RANDOM_POOL;
use crate::route::Router;
use crate::route::Strategy;
use crate::route::parse_strategy;
use crate::route::strategy_of_name;
use crate::route::jp_code;
use crate::structs::IpInfo;
use crate::structs::RecordV;
use crate::structs::selectable;
use crate::strutil::has_prefix;
use crate::strutil::find_char_from;
use crate::strutil::lower_seq;
use crate::strutil::str_eq;
use crate::strutil::string_from;
use crate::strutil::substr_string;
use crate::strutil::concat3;
use crate::strutil::to_lower;
use crate::strutil::upper_seq;
use vstd::string::StrSliceExecFns;

verus! {

/// One HTTP header field.
pub struct Header {
    pub name: String,
    pub value: String,
}

/// The mathematical value of a [`Header`].
#[verifier::ext_equal]
pub struct HeaderV {
    pub name: Seq<char>,
    pub value: Seq<char>,
}

impl View for Header {
    type V = HeaderV;

    open spec fn view(&self) -> HeaderV {
        HeaderV { name: self.name@, value: self.value@ }
    }
}

impl Clone for Header {
    fn clone(&self) -> (res: Self)
        ensures
            res@ == self@,
    {
        Header { name: self.name.clone(), value: self.value.clone() }
    }
}

/// The views of a header list, element by element.
pub open spec fn views_of_headers(s: Seq<Header>) -> Seq<HeaderV> {
    Seq::new(s.len(), |i: int| s[i]@)
}

/// `k` is the first header whose lower-cased name is `name`.
pub open spec fn is_first_header(hs: Seq<HeaderV>, name: Seq<char>, k: int) -> bool {
    &&& 0 <= k < hs.len()
    &&& lower_seq(hs[k].name) == name
    &&& forall|j: int| 0 <= j < k ==> lower_seq(hs[j].name) != name
}

/// The value of the first header named `name`, matching the name
/// case-insensitively, if one is present.
pub open spec fn lookup_spec(hs: Seq<HeaderV>, name: Seq<char>) -> Option<Seq<char>> {
    if exists|k: int| is_first_header(hs, name, k) {
        Some(hs[choose|k: int| is_first_header(hs, name, k)].value)
    } else {
        None
    }
}

/// The value of the first header of `headers` whose lower-cased name
/// equals `name` (give `name` in lower case).
fn header_lookup(headers: &Vec<Header>, name: &str) -> (r: Option<String>)
    ensures
        match r {
            Some(v) => lookup_spec(views_of_headers(headers@), name@) == Some(v@),
            None => lookup_spec(views_of_headers(headers@), name@) is None,
        },
{
    let n = headers.len();
    let mut i: usize = 0;
    while i < n
        invariant
            i <= n,
            n == headers@.len(),
            forall|j: int|
                0 <= j < i ==> lower_seq(#[trigger] views_of_headers(headers@)[j].name) != name@,
        decreases n - i,
    {
        let lowered = to_lower(headers[i].name.as_str());
        if str_eq(lowered.as_str(), name) {
            proof {
                assert(is_first_header(views_of_headers(headers@), name@, i as int));
            }
            let v = headers[i].value.clone();
            proof {
                let k = choose|k: int| is_first_header(views_of_headers(headers@), name@, k);
                if k < i as int {
                    assert(lower_seq(views_of_headers(headers@)[k].name) != name@);
                }
                if k > i as int {
                    assert(lower_seq(views_of_headers(headers@)[i as int].name) != name@);
                }
            }
            return Some(v);
        }
        proof {
            assert(lower_seq(views_of_headers(headers@)[i as int].name) != name@);
        }
        i = i + 1;
    }
    proof {
        assert forall|k: int| !is_first_header(views_of_headers(headers@), name@, k) by {}
    }
    None
}

/// `e` ends the path segment that starts at `from`: the first `/` at or
/// after `from`, or the end of the string.
pub open spec fn is_seg_end(s: Seq<char>, from: int, e: int) -> bool {
    &&& from <= e <= s.len()
    &&& (forall|j: int| from <= j < e ==> s[j] != '/')
    &&& (e == s.len() || s[e] == '/')
}

/// The strategy intent spelled by the legacy path form
/// `/proxy/{strategy}/{country?}`; empty segments count as absent.
pub open spec fn path_intent(path: Seq<char>) -> Option<(Seq<char>, Option<Seq<char>>)> {
    if path.len() >= 7 && path.subrange(0, 7) == "/proxy/"@ {
        let a = choose|a: int| #[trigger] is_seg_end(path, 7, a);
        if a == 7 {
            None
        } else {
            Some(
                (
                    path.subrange(7, a),
                    if a < path.len() {
                        let b = choose|b: int| #[trigger] is_seg_end(path, a + 1, b);
                        if b > a + 1 {
                            Some(path.subrange(a + 1, b))
                        } else {
                            None
                        }
                    } else {
                        None
                    },
                ),
            )
        }
    } else {
        None
    }
}

/// The strategy intent spelled by the request headers: `X-Proxy-Strategy`
/// holds `strategy` or `strategy/country`; failing that, `X-Proxy-Country`
/// alone forces the `country` strategy; failing both, the default is
/// `minlatency` with no country.
pub open spec fn headers_intent(hs: Seq<HeaderV>) -> (Seq<char>, Option<Seq<char>>) {
    match lookup_spec(hs, "x-proxy-strategy"@) {
        Some(v) => {
            if exists|c: int| #[trigger] is_seg_end(v, 0, c) && c < v.len() {
                let c = choose|c: int| #[trigger] is_seg_end(v, 0, c) && c < v.len();
                (v.subrange(0, c), Some(v.subrange(c + 1, v.len() as int)))
            } else {
                (v, None)
            }
        },
        None => match lookup_spec(hs, "x-proxy-country"@) {
            Some(c) => ("country"@, Some(c)),
            None => ("minlatency"@, None),
        },
    }
}

/// The derived intent of a request: the legacy path form wins; the
/// headers are read only when it is absent.
pub open spec fn request_intent(path: Seq<char>, hs: Seq<HeaderV>) -> (
    Seq<char>,
    Option<Seq<char>>,
) {
    match path_intent(path) {
        Some(t) => t,
        None => headers_intent(hs),
    }
}

/// Derive the strategy intent from the legacy path form, if present.
fn parse_strategy_from_path(path: &str) -> (r: Option<(String, Option<String>)>)
    ensures
        match r {
            Some(t) => path_intent(path@) matches Some(u) && t.0@ == u.0 && (match (t.1, u.1) {
                (Some(x), Some(y)) => x@ == y,
                (None, None) => true,
                _ => false,
            }),
            None => path_intent(path@) is None,
        },
{
    proof {
        reveal_strlit("/proxy/");
    }
    if !has_prefix(path, "/proxy/") {
        return None;
    }
    let n = path.unicode_len();
    let a = match find_char_from(path, '/', 7) {
        Some(a) => a,
        None => n,
    };
    proof {
        assert(is_seg_end(path@, 7, a as int));
        let a0 = choose|a0: int| #[trigger] is_seg_end(path@, 7, a0);
        seg_end_unique(path@, 7, a0, a as int);
    }
    if a == 7 {
        return None;
    }
    let strategy = substr_string(path, 7, a);
    if a < n {
        let b = match find_char_from(path, '/', a + 1) {
            Some(b) => b,
            None => n,
        };
        proof {
            assert(is_seg_end(path@, a as int + 1, b as int));
            let b0 = choose|b0: int| #[trigger] is_seg_end(path@, a as int + 1, b0);
            seg_end_unique(path@, a as int + 1, b0, b as int);
        }
        if b > a + 1 {
            let country = substr_string(path, a + 1, b);
            return Some((strategy, Some(country)));
        }
        return Some((strategy, None));
    }
    Some((strategy, None))
}

proof fn seg_end_unique(s: Seq<char>, from: int, e1: int, e2: int)
    requires
        is_seg_end(s, from, e1),
        is_seg_end(s, from, e2),
    ensures
        e1 == e2,
{
    if e1 < e2 {
        assert(s[e1] != '/');
    }
    if e2 < e1 {
        assert(s[e2] != '/');
    }
}

/// Derive the strategy intent from the request headers alone.
pub fn parse_strategy_from_headers(headers: &Vec<Header>) -> (r: (String, Option<String>))
    ensures
        ({
            let u = headers_intent(views_of_headers(headers@));
            r.0@ == u.0 && (match (r.1, u.1) {
                (Some(x), Some(y)) => x@ == y,
                (None, None) => true,
                _ => false,
            })
        }),
{
    match header_lookup(headers, "x-proxy-strategy") {
        Some(v) => {
            let n = v.as_str().unicode_len();
            match find_char_from(v.as_str(), '/', 0) {
                Some(c) => {
                    proof {
                        assert(is_seg_end(v@, 0, c as int) && c < v@.len());
                        let c0 = choose|c0: int|
                            #[trigger] is_seg_end(v@, 0, c0) && c0 < v@.len();
                        seg_end_unique(v@, 0, c0, c as int);
                    }
                    let strategy = substr_string(v.as_str(), 0, c);
                    let country = substr_string(v.as_str(), c + 1, n);
                    (strategy, Some(country))
                },
                None => {
                    proof {
                        assert forall|c: int|
                            !(#[trigger] is_seg_end(v@, 0, c) && c < v@.len()) by {
                            if is_seg_end(v@, 0, c) && c < v@.len() {
                                assert(v@[c] == '/');
                            }
                        }
                    }
                    (v, None)
                },
            }
        },
        None => match header_lookup(headers, "x-proxy-country") {
            Some(c) => (string_from("country"), Some(c)),
            None => (string_from("minlatency"), None),
        },
    }
}

/// Derive the strategy intent of a request: legacy path form first, then
/// the headers.
pub fn parse_strategy_from_request(headers: &Vec<Header>, path: &str) -> (r: (
    String,
    Option<String>,
))
    ensures
        ({
            let u = request_intent(path@, views_of_headers(headers@));
            r.0@ == u.0 && (match (r.1, u.1) {
                (Some(x), Some(y)) => x@ == y,
                (None, None) => true,
                _ => false,
            })
        }),
{
    match parse_strategy_from_path(path) {
        Some(t) => t,
        None => parse_strategy_from_headers(headers),
    }
}

/// The target spells out a scheme: its first `:` comes before any `/`
/// and is followed by `//`.
pub open spec fn scheme_present(t: Seq<char>) -> bool {
    exists|c: int|
        #![trigger t[c]]
        0 <= c && c + 2 < t.len() && t[c] == ':' && t[c + 1] == '/' && t[c + 2] == '/' && (forall|
            j: int,
        |
            0 <= j < c ==> t[j] != ':' && t[j] != '/')
}

/// The outbound target URL of a non-CONNECT request: an absolute-form
/// `http` or `https` target — the scheme matched case-insensitively,
/// as schemes are — keeps its authority and path but always goes to
/// the origin over HTTPS, spelled canonically; one bearing any other
/// scheme cannot be dispatched to an HTTPS origin and is rejected; a
/// relative target is synthesized from the `Host` header, without
/// which there is nothing to dispatch to.
pub open spec fn resolve_spec(target: Seq<char>, host: Option<Seq<char>>) -> Option<Seq<char>> {
    if target.len() >= 8 && lower_seq(target.subrange(0, 8)) == "https://"@ {
        Some("https://"@ + target.subrange(8, target.len() as int))
    } else if target.len() >= 7 && lower_seq(target.subrange(0, 7)) == "http://"@ {
        Some("https://"@ + target.subrange(7, target.len() as int))
    } else if scheme_present(target) {
        None
    } else {
        match host {
            Some(h) => Some("https://"@ + h + target),
            None => None,
        }
    }
}

/// Resolve the outbound target URL, forcing HTTPS to the origin.
pub fn resolve_target(target: &str, host: Option<&String>) -> (r: Option<String>)
    ensures
        ({
            let hv = match host {
                Some(h) => Some(h@),
                None => None,
            };
            match r {
                Some(u) => resolve_spec(target@, hv) == Some(u@),
                None => resolve_spec(target@, hv) is None,
            }
        }),
{
    let low = to_lower(target);
    proof {
        reveal_strlit("https://");
        reveal_strlit("http://");
        reveal_strlit("");
        if target@.len() >= 8 {
            assert(low@.subrange(0, 8) =~= lower_seq(target@.subrange(0, 8)));
        }
        if target@.len() >= 7 {
            assert(low@.subrange(0, 7) =~= lower_seq(target@.subrange(0, 7)));
        }
    }
    if has_prefix(low.as_str(), "https://") {
        let n = target.unicode_len();
        let rest = substr_string(target, 8, n);
        let out = concat3("https://", rest.as_str(), "");
        proof {
            assert(out@ =~= "https://"@ + target@.subrange(8, target@.len() as int));
        }
        return Some(out);
    }
    if has_prefix(low.as_str(), "http://") {
        let n = target.unicode_len();
        let rest = substr_string(target, 7, n);
        let out = concat3("https://", rest.as_str(), "");
        proof {
            assert(out@ =~= "https://"@ + target@.subrange(7, target@.len() as int));
        }
        return Some(out);
    }
    let n = target.unicode_len();
    let first_colon = find_char_from(target, ':', 0);
    let first_slash = find_char_from(target, '/', 0);
    let other_scheme = match first_colon {
        Some(c) => {
            let colon_first = match first_slash {
                Some(s) => c < s,
                None => true,
            };
            colon_first && n - c > 2 && target.get_char(c + 1) == '/' && target.get_char(c + 2)
                == '/'
        },
        None => false,
    };
    proof {
        assert(other_scheme == scheme_present(target@)) by {
            if other_scheme {
                let c = first_colon->Some_0 as int;
                assert(target@[c] == ':' && target@[c + 1] == '/' && target@[c + 2] == '/');
                assert(forall|j: int| 0 <= j < c ==> target@[j] != ':' && target@[j] != '/');
            } else if scheme_present(target@) {
                let c2 = choose|c2: int|
                    #![trigger target@[c2]]
                    0 <= c2 && c2 + 2 < target@.len() && target@[c2] == ':' && target@[c2 + 1]
                        == '/' && target@[c2 + 2] == '/' && (forall|j: int|
                        0 <= j < c2 ==> target@[j] != ':' && target@[j] != '/');
                match first_colon {
                    Some(c) => {
                        if (c as int) < c2 {
                            assert(target@[c as int] != ':');
                        }
                        if c2 < c as int {
                            assert(target@[c2] != ':');
                        }
                        assert(c2 == c as int);
                        match first_slash {
                            Some(s) => {
                                if s <= c {
                                    assert(target@[s as int] != '/');
                                }
                            },
                            None => {},
                        }
                        assert(false);
                    },
                    None => {
                        assert(target@[c2] != ':');
                        assert(false);
                    },
                }
            }
        }
    }
    if other_scheme {
        return None;
    }
    match host {
        Some(h) => {
            let out = concat3("https://", h.as_str(), target);
            Some(out)
        },
        None => None,
    }
}

/// Whether a header is withheld from the outbound request: the fixed
/// strip-list, matched on the lower-cased name.
pub open spec fn is_stripped(h: HeaderV) -> bool {
    ||| lower_seq(h.name) == "host"@
    ||| lower_seq(h.name) == "connection"@
    ||| lower_seq(h.name) == "proxy-connection"@
    ||| lower_seq(h.name) == "content-length"@
    ||| lower_seq(h.name) == "proxy-authorization"@
    ||| lower_seq(h.name) == "x-proxy-strategy"@
    ||| lower_seq(h.name) == "x-proxy-country"@
}

fn is_stripped_exec(h: &Header) -> (r: bool)
    ensures
        r == is_stripped(h@),
{
    let lowered = to_lower(h.name.as_str());
    let l = lowered.as_str();
    str_eq(l, "host") || str_eq(l, "connection") || str_eq(l, "proxy-connection") || str_eq(
        l,
        "content-length",
    ) || str_eq(l, "proxy-authorization") || str_eq(l, "x-proxy-strategy") || str_eq(
        l,
        "x-proxy-country",
    )
}

/// The inbound headers that go out: everything in order, except the
/// strip-list, whatever casing the client used.
pub fn build_outbound_headers(headers: &Vec<Header>) -> (out: Vec<Header>)
    ensures
        views_of_headers(out@) == views_of_headers(headers@).filter(
            |h: HeaderV| !is_stripped(h),
        ),
        forall|i: int| 0 <= i < out@.len() ==> !is_stripped(#[trigger] views_of_headers(out@)[i]),
{
    let n = headers.len();
    let mut out: Vec<Header> = Vec::new();
    let mut i: usize = 0;
    proof {
        assert(views_of_headers(headers@).subrange(0, 0) =~= Seq::<HeaderV>::empty());
        assert(views_of_headers(out@) =~= Seq::<HeaderV>::empty());
        reveal(Seq::filter);
    }
    while i < n
        invariant
            i <= n,
            n == headers@.len(),
            views_of_headers(out@) == views_of_headers(headers@).subrange(0, i as int).filter(
                |h: HeaderV| !is_stripped(h),
            ),
        decreases n - i,
    {
        let ghost prefix = views_of_headers(headers@).subrange(0, i as int);
        let ghost prefix2 = views_of_headers(headers@).subrange(0, i as int + 1);
        let keep = !is_stripped_exec(&headers[i]);
        if keep {
            let ghost out_pre = out@;
            out.push(headers[i].clone());
            proof {
                assert(views_of_headers(out@) =~= views_of_headers(out_pre).push(
                    headers@[i as int]@,
                ));
            }
        }
        proof {
            reveal(Seq::filter);
            assert(prefix2.drop_last() =~= prefix);
            assert(prefix2.last() == headers@[i as int]@);
            if keep {
                assert(prefix2.filter(|h: HeaderV| !is_stripped(h)) =~= prefix.filter(
                    |h: HeaderV| !is_stripped(h),
                ).push(headers@[i as int]@));
            } else {
                assert(prefix2.filter(|h: HeaderV| !is_stripped(h)) =~= prefix.filter(
                    |h: HeaderV| !is_stripped(h),
                ));
            }
        }
        i = i + 1;
    }
    proof {
        assert(views_of_headers(headers@).subrange(0, n as int) =~= views_of_headers(headers@));
        assert forall|i2: int|
            0 <= i2 < out@.len() implies !is_stripped(
            #[trigger] views_of_headers(out@)[i2],
        ) by {
            views_of_headers(headers@).lemma_filter_pred(|h: HeaderV| !is_stripped(h), i2);
        }
    }
    out
}

/// What the gateway decides for one inbound request. The unverified
/// front door performs it: build the proxied client and send, answer the
/// CONNECT with `200` (no byte tunnel is established), or answer with
/// the rejection status. An outbound send failure afterwards maps to
/// `502` there.
pub enum GatewayOutcome {
    /// Acknowledge the CONNECT through this upstream.
    ConnectEstablished { proxy: IpInfo },
    /// Relay the request to `url` through `proxy`, with exactly these
    /// outbound headers.
    Forward { proxy: IpInfo, url: String, headers: Vec<Header> },
    /// Answer with this status: `400` for an undispatchable request,
    /// `503` when no upstream is available.
    Reject { status: u16 },
}

/// Decide one inbound request: a CONNECT is acknowledged through the
/// fastest upstream; any other method is resolved to an HTTPS origin
/// target, routed by the derived strategy intent, and relayed with the
/// strip-list applied — or rejected with `400` (no way to dispatch) or
/// `503` (no upstream).
pub fn route_request(
    router: &Router,
    reg: &Registry,
    is_connect: bool,
    target: &str,
    path: &str,
    headers: &Vec<Header>,
) -> (r: GatewayOutcome)
    ensures
        is_connect ==> match r {
            GatewayOutcome::ConnectEstablished { proxy } => {
                &&& selectable(proxy@, router.ceiling())
                &&& reg@.contains(proxy@)
                &&& forall|j: int|
                    0 <= j < reg@.len() && selectable(#[trigger] reg@[j], router.ceiling())
                        ==> proxy@.latency <= reg@[j].latency
            },
            GatewayOutcome::Reject { status } => status == 503 && forall|j: int|
                0 <= j < reg@.len() ==> !selectable(#[trigger] reg@[j], router.ceiling()),
            GatewayOutcome::Forward { .. } => false,
        },
        !is_connect ==> ({
            let hs = views_of_headers(headers@);
            let resolved = resolve_spec(target@, lookup_spec(hs, "host"@));
            let intent = request_intent(path@, hs);
            let strat = strategy_of_name(intent.0);
            match r {
                GatewayOutcome::Reject { status } => {
                    &&& (status == 400 || status == 503)
                    &&& ((status == 400) <==> (resolved is None || (strat is Country
                        && intent.1 is None)))
                    &&& status == 503 ==> {
                        &&& (strat is MinLatency || strat is Random) ==> (forall|j: int|
                            0 <= j < reg@.len() ==> !selectable(
                                #[trigger] reg@[j],
                                router.ceiling(),
                            ))
                        &&& strat is Country ==> (forall|j: int|
                            0 <= j < reg@.len() ==> !(selectable(
                                #[trigger] reg@[j],
                                router.ceiling(),
                            ) && reg@[j].code == upper_seq(intent.1->Some_0)))
                        &&& strat is Binance ==> (forall|j: int|
                            0 <= j < reg@.len() ==> !(selectable(
                                #[trigger] reg@[j],
                                router.ceiling(),
                            ) && reg@[j].code != jp_code()))
                    }
                },
                GatewayOutcome::Forward { proxy, url, headers: out_h } => {
                    &&& resolved == Some(url@)
                    &&& !(strat is Country && intent.1 is None)
                    &&& views_of_headers(out_h@) == hs.filter(|h: HeaderV| !is_stripped(h))
                    &&& selectable(proxy@, router.ceiling())
                    &&& reg@.contains(proxy@)
                    &&& strat is Country ==> proxy@.code == upper_seq(intent.1->Some_0)
                    &&& strat is Binance ==> proxy@.code != jp_code()
                    &&& strat is MinLatency ==> (forall|j: int|
                        0 <= j < reg@.len() && selectable(#[trigger] reg@[j], router.ceiling())
                            ==> proxy@.latency <= reg@[j].latency)
                    &&& strat is Random ==> ({
                        let faster = Set::new(
                            |rv: RecordV|
                                reg@.contains(rv) && selectable(rv, router.ceiling())
                                    && rv.latency < proxy@.latency,
                        );
                        faster.finite() && faster.len() < RANDOM_POOL as int
                    })
                    &&& strat is Binance ==> ({
                        let faster = Set::new(
                            |rv: RecordV|
                                reg@.contains(rv) && selectable(rv, router.ceiling())
                                    && rv.code != jp_code() && rv.latency < proxy@.latency,
                        );
                        faster.finite() && faster.len() < BINANCE_POOL as int
                    })
                },
                GatewayOutcome::ConnectEstablished { .. } => false,
            }
        }),
{
    if is_connect {
        return match router.get_best_proxy(reg) {
            Some(p) => GatewayOutcome::ConnectEstablished { proxy: p },
            None => GatewayOutcome::Reject { status: 503 },
        };
    }
    let host = header_lookup(headers, "host");
    let url = match resolve_target(target, host.as_ref()) {
        Some(u) => u,
        None => {
            return GatewayOutcome::Reject { status: 400 };
        },
    };
    let (strategy_name, country) = parse_strategy_from_request(headers, path);
    let strategy = parse_strategy(strategy_name.as_str());
    if matches!(strategy, Strategy::Country) && country.is_none() {
        return GatewayOutcome::Reject { status: 400 };
    }
    let country_ref = match country {
        Some(ref c) => Some(c.as_str()),
        None => None,
    };
    match router.select(reg, strategy, country_ref) {
        Some(p) => {
            let out_h = build_outbound_headers(headers);
            GatewayOutcome::Forward { proxy: p, url, headers: out_h }
        },
        None => GatewayOutcome::Reject { status: 503 },
    }
}

} // verus!
