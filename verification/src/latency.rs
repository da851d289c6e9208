//! The probing engine's verified core: parsing a reachability check's
//! output into whole milliseconds, and planning a bounded sweep.
//!
//! The probe itself is network I/O and lives outside this crate; it hands
//! the raw output here. The output is read line by line: the token
//! directly after a line's first `time=` marker is parsed as a decimal
//! number and truncated to whole milliseconds; a line whose token is no
//! decimal is skipped whole, and the search goes on with the next line.

use vstd::prelude::*;
use vstd::string::StrSliceExecFns;
use crate::structs::IpList;
use crate::strutil::find_char_from;

verus! {

/// Why a single probe yielded no latency.
#[derive(Clone, Copy, PartialEq, Eq, Structural, Debug)]
pub enum ProbeError {
    /// No round-trip time could be read from the probe's output.
    Unreachable,
    /// The per-probe timeout elapsed before a reply.
    Timeout,
    /// A round-trip time was present but not representable.
    ParseFailure,
}

/// The cap on concurrently running probes in one sweep.
pub const MAX_CONCURRENT: usize = 50;

/// The per-probe timeout, in seconds.
pub const PROBE_TIMEOUT_SECS: u64 = 5;

/// The whole-sweep timeout, in seconds.
pub const SWEEP_TIMEOUT_SECS: u64 = 20;

/// The bounded wait of the reachability check itself, in milliseconds.
pub const PING_WAIT_MS: u64 = 3000;

/// An ASCII decimal digit.
pub open spec fn is_digit(c: char) -> bool {
    48 <= c as u32 <= 57
}

/// The value of one ASCII digit.
pub open spec fn digit_val(c: char) -> int {
    c as u32 - 48
}

/// The number the digit string `ds` spells in decimal.
pub open spec fn digits_val(ds: Seq<char>) -> int
    decreases ds.len(),
{
    if ds.len() == 0 {
        0
    } else {
        digits_val(ds.drop_last()) * 10 + digit_val(ds.last())
    }
}

/// The characters `time=` stand at position `i` of `s`.
pub open spec fn marker_at(s: Seq<char>, i: int) -> bool {
    &&& 0 <= i
    &&& i + 5 <= s.len()
    &&& s[i] == 't'
    &&& s[i + 1] == 'i'
    &&& s[i + 2] == 'm'
    &&& s[i + 3] == 'e'
    &&& s[i + 4] == '='
}

/// `i` is the first marker at or after `from`.
pub open spec fn is_first_marker_from(s: Seq<char>, from: int, i: int) -> bool {
    from <= i && marker_at(s, i) && (forall|j: int| from <= j < i ==> !marker_at(s, j))
}

/// Whitespace ends the token read after a marker; the line break counts.
pub open spec fn is_ws(c: char) -> bool {
    c == ' ' || c == '\t' || c == '\r' || c == '\n'
}

/// `e` ends the token beginning at `start`: the first whitespace at or
/// after `start`, or the end of the text.
pub open spec fn is_token_end(s: Seq<char>, start: int, e: int) -> bool {
    &&& start <= e <= s.len()
    &&& (forall|k: int| start <= k < e ==> !is_ws(s[k]))
    &&& (e == s.len() || is_ws(s[e]))
}

/// `d` ends the maximal digit run that begins the token `[start, e)`.
pub open spec fn is_run_end(s: Seq<char>, start: int, e: int, d: int) -> bool {
    &&& start <= d <= e
    &&& (forall|k: int| start <= k < d ==> is_digit(s[k]))
    &&& (d == e || !is_digit(s[d]))
}

/// The token `[start, e)` of `s` spells a decimal number: one or more
/// digits, optionally followed by a dot and further digits. Any other
/// spelling — an exponent, a leading dot, a stray letter — is not read
/// as a time: floating-point notations beyond this shape cannot be
/// modelled here, and a real reachability check never emits them.
pub open spec fn decimal_token(s: Seq<char>, start: int, e: int) -> bool {
    exists|d: int|
        #[trigger] is_run_end(s, start, e, d) && d > start && (d == e || (s[d] == '.' && (forall|
            k: int,
        |
            d < k < e ==> is_digit(s[k]))))
}

/// The integer part of the decimal token `[start, e)`: its leading
/// digits, the fraction truncated away.
pub open spec fn token_value(s: Seq<char>, start: int, e: int) -> int {
    digits_val(s.subrange(start, choose|d: int| #[trigger] is_run_end(s, start, e, d)))
}

/// `nl` is the first line break at or after `from`.
pub open spec fn is_first_nl_from(s: Seq<char>, from: int, nl: int) -> bool {
    from <= nl < s.len() && s[nl] == '\n' && (forall|j: int| from <= j < nl ==> s[j] != '\n')
}

/// The round-trip time spelled at or after `from`: the token directly
/// after the first `time=` marker is read as a decimal number and its
/// integer part returned; if it is no decimal, the rest of that line is
/// skipped — the same line is never rescanned — and the search goes on
/// with the next line.
pub open spec fn ping_latency_from(s: Seq<char>, from: int) -> Option<int>
    decreases s.len() - from,
{
    if 0 <= from <= s.len() && (exists|i: int| is_first_marker_from(s, from, i)) {
        let i = choose|i: int| is_first_marker_from(s, from, i);
        let e = choose|e: int| #[trigger] is_token_end(s, i + 5, e);
        if decimal_token(s, i + 5, e) {
            Some(token_value(s, i + 5, e))
        } else if exists|nl: int| #[trigger] is_first_nl_from(s, i + 5, nl) {
            let nl = choose|nl: int| #[trigger] is_first_nl_from(s, i + 5, nl);
            ping_latency_from(s, nl + 1)
        } else {
            None
        }
    } else {
        None
    }
}

/// The round-trip time spelled by a probe's raw output, truncated to
/// whole milliseconds, if any line spells one.
pub open spec fn ping_latency_spec(s: Seq<char>) -> Option<int> {
    ping_latency_from(s, 0)
}

proof fn lemma_first_marker_unique(s: Seq<char>, from: int, i1: int, i2: int)
    requires
        is_first_marker_from(s, from, i1),
        is_first_marker_from(s, from, i2),
    ensures
        i1 == i2,
{
    if i1 < i2 {
        assert(!marker_at(s, i1));
    }
    if i2 < i1 {
        assert(!marker_at(s, i2));
    }
}

proof fn lemma_token_end_unique(s: Seq<char>, start: int, e1: int, e2: int)
    requires
        is_token_end(s, start, e1),
        is_token_end(s, start, e2),
    ensures
        e1 == e2,
{
    if e1 < e2 {
        assert(!is_ws(s[e1]));
    }
    if e2 < e1 {
        assert(!is_ws(s[e2]));
    }
}

proof fn lemma_run_end_unique(s: Seq<char>, start: int, e: int, d1: int, d2: int)
    requires
        is_run_end(s, start, e, d1),
        is_run_end(s, start, e, d2),
    ensures
        d1 == d2,
{
    if d1 < d2 {
        assert(is_digit(s[d1]));
    }
    if d2 < d1 {
        assert(is_digit(s[d2]));
    }
}

proof fn lemma_first_nl_unique(s: Seq<char>, from: int, n1: int, n2: int)
    requires
        is_first_nl_from(s, from, n1),
        is_first_nl_from(s, from, n2),
    ensures
        n1 == n2,
{
    if n1 < n2 {
        assert(s[n1] != '\n');
    }
    if n2 < n1 {
        assert(s[n2] != '\n');
    }
}

/// One more digit multiplies the run's value by ten and adds it.
proof fn lemma_digits_step(s: Seq<char>, start: int, k: int)
    requires
        0 <= start <= k < s.len(),
    ensures
        digits_val(s.subrange(start, k + 1)) == digits_val(s.subrange(start, k)) * 10 + digit_val(
            s[k],
        ),
{
    let ds = s.subrange(start, k + 1);
    assert(ds.drop_last() =~= s.subrange(start, k));
    assert(ds.last() == s[k]);
}

fn is_digit_exec(c: char) -> (r: bool)
    ensures
        r == is_digit(c),
{
    let u = c as u32;
    48 <= u && u <= 57
}

/// The first `time=` marker at or after `from`, if any.
fn find_marker_from(s: &str, from: usize) -> (r: Option<usize>)
    requires
        from <= s@.len(),
    ensures
        match r {
            Some(i) => is_first_marker_from(s@, from as int, i as int),
            None => forall|i: int| !is_first_marker_from(s@, from as int, i),
        },
{
    let n = s.unicode_len();
    let mut i: usize = from;
    while i < n
        invariant
            from <= i <= n,
            n == s@.len(),
            forall|j: int| from <= j < i ==> !marker_at(s@, j),
        decreases n - i,
    {
        if n - i >= 5 && s.get_char(i) == 't' && s.get_char(i + 1) == 'i' && s.get_char(i + 2)
            == 'm' && s.get_char(i + 3) == 'e' && s.get_char(i + 4) == '=' {
            proof {
                assert(marker_at(s@, i as int));
            }
            return Some(i);
        }
        proof {
            assert(!marker_at(s@, i as int));
        }
        i = i + 1;
    }
    proof {
        assert forall|i2: int| !is_first_marker_from(s@, from as int, i2) by {
            if is_first_marker_from(s@, from as int, i2) {
                assert(marker_at(s@, i2));
                assert(from <= i2 < n);
            }
        }
    }
    None
}

/// The end of the token beginning at `from`: the first whitespace at or
/// after it, or the end of the text.
fn find_token_end(s: &str, from: usize) -> (e: usize)
    requires
        from <= s@.len(),
    ensures
        is_token_end(s@, from as int, e as int),
{
    let n = s.unicode_len();
    let mut e: usize = from;
    while e < n
        invariant
            from <= e <= n,
            n == s@.len(),
            forall|k: int| from <= k < e ==> !is_ws(s@[k]),
        decreases n - e,
    {
        let c = s.get_char(e);
        if c == ' ' || c == '\t' || c == '\r' || c == '\n' {
            return e;
        }
        e = e + 1;
    }
    e
}

/// Whether the token `[start, e)` spells a decimal number, with `d` the
/// end of its leading digit run.
fn token_is_decimal(s: &str, start: usize, e: usize, d: usize) -> (r: bool)
    requires
        start <= d <= e <= s@.len(),
        is_run_end(s@, start as int, e as int, d as int),
    ensures
        r == decimal_token(s@, start as int, e as int),
{
    let ghost st: int = start as int;
    let ghost en: int = e as int;
    let ghost dr: int = d as int;
    if d == start {
        proof {
            assert(!decimal_token(s@, st, en)) by {
                if decimal_token(s@, st, en) {
                    let d2 = choose|d2: int|
                        #[trigger] is_run_end(s@, st, en, d2) && d2 > st && (d2 == en || (s@[d2]
                            == '.' && (forall|k: int| d2 < k < en ==> is_digit(s@[k]))));
                    lemma_run_end_unique(s@, st, en, d2, dr);
                }
            }
        }
        return false;
    }
    if d == e {
        proof {
            assert(is_run_end(s@, st, en, dr) && dr > st && (dr == en || (s@[dr] == '.' && (forall|
                k: int,
            | dr < k < en ==> is_digit(s@[k])))));
        }
        return true;
    }
    if s.get_char(d) != '.' {
        proof {
            assert(!decimal_token(s@, st, en)) by {
                if decimal_token(s@, st, en) {
                    let d2 = choose|d2: int|
                        #[trigger] is_run_end(s@, st, en, d2) && d2 > st && (d2 == en || (s@[d2]
                            == '.' && (forall|k: int| d2 < k < en ==> is_digit(s@[k]))));
                    lemma_run_end_unique(s@, st, en, d2, dr);
                }
            }
        }
        return false;
    }
    let mut k: usize = d + 1;
    while k < e && is_digit_exec(s.get_char(k))
        invariant
            d < k <= e,
            e <= s@.len(),
            forall|m: int| d < m < k ==> is_digit(s@[m]),
        decreases e - k,
    {
        k = k + 1;
    }
    if k == e {
        proof {
            assert(is_run_end(s@, st, en, dr) && dr > st && (dr == en || (s@[dr] == '.' && (forall|
                m: int,
            | dr < m < en ==> is_digit(s@[m])))));
        }
        true
    } else {
        proof {
            let ghost kk: int = k as int;
            assert(!is_digit(s@[kk]));
            assert(!decimal_token(s@, st, en)) by {
                if decimal_token(s@, st, en) {
                    let d2 = choose|d2: int|
                        #[trigger] is_run_end(s@, st, en, d2) && d2 > st && (d2 == en || (s@[d2]
                            == '.' && (forall|m: int| d2 < m < en ==> is_digit(s@[m]))));
                    lemma_run_end_unique(s@, st, en, d2, dr);
                    assert(is_digit(s@[kk]));
                }
            }
        }
        false
    }
}

/// Read the round-trip time from a probe's raw output. `Unreachable`
/// when no line spells a time, `ParseFailure` when the spelled value
/// does not fit a 32-bit millisecond count.
pub fn parse_ping_latency(output: &str) -> (r: Result<i32, ProbeError>)
    ensures
        match ping_latency_spec(output@) {
            Some(v) => if v <= i32::MAX as int {
                r matches Ok(x) && x as int == v
            } else {
                r == Result::<i32, ProbeError>::Err(ProbeError::ParseFailure)
            },
            None => r == Result::<i32, ProbeError>::Err(ProbeError::Unreachable),
        },
{
    let n = output.unicode_len();
    let mut from: usize = 0;
    while from <= n
        invariant
            from <= n,
            n == output@.len(),
            ping_latency_spec(output@) == ping_latency_from(output@, from as int),
        decreases n - from,
    {
        let i = match find_marker_from(output, from) {
            Some(i) => i,
            None => {
                proof {
                    assert(ping_latency_from(output@, from as int) is None);
                }
                return Err(ProbeError::Unreachable);
            },
        };
        let start = i + 5;
        let e = find_token_end(output, start);
        // the leading digit run of the token
        let mut d = start;
        while d < e && is_digit_exec(output.get_char(d))
            invariant
                start <= d <= e,
                e <= n,
                n == output@.len(),
                forall|k: int| start <= k < d ==> is_digit(output@[k]),
            decreases e - d,
        {
            d = d + 1;
        }
        proof {
            assert(is_run_end(output@, start as int, e as int, d as int));
        }
        let ghost si = choose|i2: int| is_first_marker_from(output@, from as int, i2);
        let ghost se = choose|e2: int| #[trigger] is_token_end(output@, start as int, e2);
        proof {
            lemma_first_marker_unique(output@, from as int, si, i as int);
            lemma_token_end_unique(output@, start as int, se, e as int);
        }
        if token_is_decimal(output, start, e, d) {
            // the run's value, tracked exactly while it fits
            let mut k = start;
            let mut val: u32 = 0;
            let mut big = false;
            proof {
                assert(output@.subrange(start as int, start as int) =~= Seq::<char>::empty());
            }
            while k < d
                invariant
                    start <= k <= d <= n,
                    n == output@.len(),
                    forall|m: int| start <= m < d ==> is_digit(output@[m]),
                    !big ==> val <= i32::MAX as u32 && val as int == digits_val(
                        output@.subrange(start as int, k as int),
                    ),
                    big ==> digits_val(output@.subrange(start as int, k as int)) > i32::MAX as int,
                decreases d - k,
            {
                let c = output.get_char(k);
                let dv = (c as u32) - 48;
                proof {
                    lemma_digits_step(output@, start as int, k as int);
                }
                if !big {
                    let nv: u64 = (val as u64) * 10 + (dv as u64);
                    if nv > i32::MAX as u64 {
                        big = true;
                    } else {
                        val = nv as u32;
                    }
                } else {
                    proof {
                        let prev = digits_val(output@.subrange(start as int, k as int));
                        assert(prev > i32::MAX as int);
                        assert(prev * 10 + digit_val(output@[k as int]) >= prev * 10) by {
                            assert(digit_val(output@[k as int]) >= 0);
                        }
                        assert(prev * 10 > prev) by (nonlinear_arith)
                            requires
                                prev > 0,
                        ;
                    }
                }
                k = k + 1;
            }
            proof {
                let sd = choose|d2: int| #[trigger] is_run_end(output@, start as int, e as int, d2);
                lemma_run_end_unique(output@, start as int, e as int, sd, d as int);
                assert(token_value(output@, start as int, e as int) == digits_val(
                    output@.subrange(start as int, d as int),
                ));
                assert(ping_latency_from(output@, from as int) == Some(
                    token_value(output@, start as int, e as int),
                ));
            }
            if big {
                return Err(ProbeError::ParseFailure);
            }
            return Ok(val as i32);
        }
        match find_char_from(output, '\n', start) {
            Some(nl) => {
                proof {
                    assert(is_first_nl_from(output@, start as int, nl as int));
                    let snl = choose|nl2: int| is_first_nl_from(output@, start as int, nl2);
                    lemma_first_nl_unique(output@, start as int, snl, nl as int);
                    assert(ping_latency_from(output@, from as int) == ping_latency_from(
                        output@,
                        nl + 1,
                    ));
                }
                from = nl + 1;
            },
            None => {
                proof {
                    assert forall|nl2: int| !is_first_nl_from(output@, start as int, nl2) by {
                        if is_first_nl_from(output@, start as int, nl2) {
                            assert(output@[nl2] != '\n');
                        }
                    }
                    assert(ping_latency_from(output@, from as int) is None);
                }
                return Err(ProbeError::Unreachable);
            },
        }
    }
    proof {
        assert(false);
    }
    Err(ProbeError::Unreachable)
}

/// How many addresses the wave of a sweep starting at `start` holds:
/// what is left of the list, capped at [`MAX_CONCURRENT`].
pub open spec fn wave_len(total: int, start: int) -> int {
    if start >= total {
        0
    } else if total - start < MAX_CONCURRENT as int {
        total - start
    } else {
        MAX_CONCURRENT as int
    }
}

/// The probe targets of one wave of a sweep: up to [`MAX_CONCURRENT`]
/// tracked addresses beginning at `start`, in registry order. The sweep
/// runs the waves `start = 0, MAX_CONCURRENT, 2 * MAX_CONCURRENT, ...`
/// one after the other, so every tracked address is probed while never
/// more than [`MAX_CONCURRENT`] probes are in flight at once; an empty
/// wave ends the sweep.
pub fn plan_sweep(ips: &Vec<IpList>, start: usize) -> (out: Vec<String>)
    ensures
        out@.len() == wave_len(ips@.len() as int, start as int),
        forall|i: int| 0 <= i < out@.len() ==> out@[i]@ == ips@[start + i]@,
{
    let n = ips.len();
    if start >= n {
        return Vec::new();
    }
    let bound = if n - start < MAX_CONCURRENT {
        n - start
    } else {
        MAX_CONCURRENT
    };
    let end: usize = start + bound;
    let mut out: Vec<String> = Vec::new();
    let mut idx: usize = start;
    while idx < end
        invariant
            start <= idx <= end,
            end == start + bound,
            end <= n,
            n == ips@.len(),
            out@.len() == idx - start,
            forall|j: int| 0 <= j < out@.len() ==> out@[j]@ == ips@[start + j]@,
        decreases end - idx,
    {
        out.push(ips[idx].ip.clone());
        idx = idx + 1;
    }
    out
}

/// Consecutive waves tile the whole list: each wave begins where the
/// one before it ended, a wave is empty exactly when the list is
/// exhausted, so every tracked address belongs to exactly one wave.
pub proof fn lemma_waves_cover_all(total: int, j: int)
    requires
        0 <= j < total,
    ensures
        ({
            let start = (j / MAX_CONCURRENT as int) * MAX_CONCURRENT as int;
            start <= j < start + wave_len(total, start)
        }),
{
    let k = MAX_CONCURRENT as int;
    let start = (j / k) * k;
    assert(start <= j < start + k) by (nonlinear_arith)
        requires
            k > 0,
            0 <= j,
            start == (j / k) * k,
    ;
}

} // verus!
