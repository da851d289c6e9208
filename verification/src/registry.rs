//! The registry: the authoritative store of proxy endpoint records.
//!
//! Rows are keyed by `(url, ip)`; ingestion is idempotent on that key and
//! never rewrites the descriptive fields of an existing row. The prober
//! mutates nothing but `latency`, and strategies read through
//! [`Registry::query_candidates`], which filters, orders ascending by
//! latency and bounds the result size.

use vstd::prelude::*;
use crate::structs::IpInfo;
use crate::structs::IpList;
use crate::structs::RecordV;
use crate::structs::selectable;
use crate::strutil::str_eq;

verus! {

/// The views of a sequence of records, element by element.
pub open spec fn views_of(s: Seq<IpInfo>) -> Seq<RecordV> {
    Seq::new(s.len(), |i: int| s[i]@)
}

/// Whether some row of `s` carries the identity key `(url, ip)`.
pub open spec fn has_key(s: Seq<RecordV>, url: Seq<char>, ip: Seq<char>) -> bool {
    exists|i: int| 0 <= i < s.len() && s[i].url == url && s[i].ip == ip
}

/// Whether no two rows of `s` share an identity key.
pub open spec fn keys_unique(s: Seq<RecordV>) -> bool {
    forall|i: int, j: int|
        0 <= i < j < s.len() ==> !(s[i].url == s[j].url && s[i].ip == s[j].ip)
}

/// What one idempotent insert leaves behind: the store unchanged when the
/// key is already present, else the new row appended.
pub open spec fn upsert_spec(s: Seq<RecordV>, r: RecordV) -> Seq<RecordV> {
    if has_key(s, r.url, r.ip) {
        s
    } else {
        s.push(r)
    }
}

/// `k` is the position of the first row of `s` whose probe target is `ip`.
pub open spec fn is_first_with_ip(s: Seq<RecordV>, ip: Seq<char>, k: int) -> bool {
    0 <= k < s.len() && s[k].ip == ip && (forall|j: int| 0 <= j < k ==> s[j].ip != ip)
}

/// What one latency report leaves behind: the first row matching `ip`
/// carries the new measurement, every other row is untouched; with no
/// matching row the store is unchanged.
pub open spec fn update_latency_spec(s: Seq<RecordV>, ip: Seq<char>, ms: int) -> Seq<RecordV> {
    if exists|k: int| is_first_with_ip(s, ip, k) {
        let k = choose|k: int| is_first_with_ip(s, ip, k);
        s.update(k, RecordV { latency: ms, ..s[k] })
    } else {
        s
    }
}

/// The query's filter: base latency ceiling, an optional required country
/// code, an optional excluded country code, and the bound on the result.
pub struct CandidateFilter {
    pub max_latency: i32,
    pub required_code: Option<String>,
    pub exclude_code: Option<String>,
    pub limit: usize,
}

/// The mathematical value of a [`CandidateFilter`].
pub struct FilterV {
    pub max_latency: int,
    pub required_code: Option<Seq<char>>,
    pub exclude_code: Option<Seq<char>>,
    pub limit: nat,
}

impl View for CandidateFilter {
    type V = FilterV;

    open spec fn view(&self) -> FilterV {
        FilterV {
            max_latency: self.max_latency as int,
            required_code: match self.required_code {
                Some(ref c) => Some(c@),
                None => None,
            },
            exclude_code: match self.exclude_code {
                Some(ref c) => Some(c@),
                None => None,
            },
            limit: self.limit as nat,
        }
    }
}

/// Whether a row is a candidate under the filter: selectable under the
/// ceiling, and its country code obeys both optional constraints.
pub open spec fn passes_filter(r: RecordV, f: FilterV) -> bool {
    &&& selectable(r, f.max_latency)
    &&& match f.required_code {
        Some(c) => r.code == c,
        None => true,
    }
    &&& match f.exclude_code {
        Some(c) => r.code != c,
        None => true,
    }
}

/// The distinct record values among `s` that pass `f` and are strictly
/// faster than `p`.
pub open spec fn faster_passing(s: Seq<RecordV>, f: FilterV, p: RecordV) -> Set<RecordV> {
    Set::new(|rv: RecordV| s.contains(rv) && passes_filter(rv, f) && rv.latency < p.latency)
}

/// The query's window samples only the fastest: any member of a result
/// of [`Registry::query_candidates`] beats all but fewer than `limit`
/// distinct candidate values of the store.
pub proof fn lemma_window_bound(reg: Seq<RecordV>, fv: Seq<RecordV>, f: FilterV, p: RecordV)
    requires
        fv.len() <= f.limit,
        fv.contains(p),
        forall|j: int|
            0 <= j < reg.len() && passes_filter(#[trigger] reg[j], f) ==> (fv.contains(reg[j]) || (
            fv.len() == f.limit && forall|i: int|
                0 <= i < fv.len() ==> fv[i].latency <= reg[j].latency)),
    ensures
        faster_passing(reg, f, p).finite(),
        faster_passing(reg, f, p).len() < f.limit,
{
    broadcast use vstd::seq_lib::seq_to_set_is_finite;
    broadcast use vstd::set::group_set_axioms;

    let faster = faster_passing(reg, f, p);
    let base = fv.to_set();
    let sup = base.remove(p);
    assert forall|rv: RecordV| faster.contains(rv) implies sup.contains(rv) by {
        let j = choose|j: int| 0 <= j < reg.len() && reg[j] == rv;
        assert(passes_filter(reg[j], f));
        if !fv.contains(reg[j]) {
            let w = choose|w: int| 0 <= w < fv.len() && fv[w] == p;
            assert(fv[w].latency <= reg[j].latency);
        }
    }
    assert(faster.subset_of(sup));
    fv.lemma_cardinality_of_set();
    assert(base.contains(p));
    vstd::set::axiom_set_remove_len(base, p);
    vstd::set_lib::lemma_len_subset(faster, sup);
}

/// Ascending latency order.
pub open spec fn sorted_by_latency(s: Seq<RecordV>) -> bool {
    forall|i: int, j: int| 0 <= i < j < s.len() ==> s[i].latency <= s[j].latency
}

/// The durable store of proxy endpoint records.
pub struct Registry {
    records: Vec<IpInfo>,
}

impl View for Registry {
    type V = Seq<RecordV>;

    closed spec fn view(&self) -> Seq<RecordV> {
        views_of(self.records@)
    }
}

impl Registry {
    /// An empty registry.
    pub fn new() -> (r: Registry)
        ensures
            r@ == Seq::<RecordV>::empty(),
            keys_unique(r@),
    {
        let r = Registry { records: Vec::new() };
        proof {
            assert(r@ =~= Seq::<RecordV>::empty());
        }
        r
    }

    /// The number of rows.
    pub fn len(&self) -> (n: usize)
        ensures
            n == self@.len(),
    {
        self.records.len()
    }

    /// The row at `i`.
    pub fn get(&self, i: usize) -> (r: &IpInfo)
        requires
            i < self@.len(),
        ensures
            r@ == self@[i as int],
    {
        &self.records[i]
    }

    /// Insert a newly discovered record if its `(url, ip)` key is unseen;
    /// otherwise leave every row, the existing one included, untouched.
    pub fn upsert_discovered(&mut self, rec: IpInfo)
        ensures
            final(self)@ == upsert_spec(old(self)@, rec@),
            keys_unique(old(self)@) ==> keys_unique(final(self)@),
    {
        let n = self.records.len();
        let mut i: usize = 0;
        while i < n
            invariant
                i <= n,
                n == self@.len(),
                forall|j: int|
                    0 <= j < i ==> !(self@[j].url == rec@.url && self@[j].ip == rec@.ip),
            decreases n - i,
        {
            let row = &self.records[i];
            if str_eq(row.url.as_str(), rec.url.as_str()) && str_eq(
                row.ip.as_str(),
                rec.ip.as_str(),
            ) {
                proof {
                    assert(self@[i as int].url == rec@.url && self@[i as int].ip == rec@.ip);
                    assert(has_key(self@, rec@.url, rec@.ip));
                }
                return ;
            }
            i = i + 1;
        }
        proof {
            assert(!has_key(self@, rec@.url, rec@.ip)) by {
                if has_key(self@, rec@.url, rec@.ip) {
                    let w = choose|w: int|
                        0 <= w < self@.len() && self@[w].url == rec@.url && self@[w].ip == rec@.ip;
                    assert(self@[w].url != rec@.url || self@[w].ip != rec@.ip);
                }
            }
        }
        let ghost pre = self@;
        self.records.push(rec);
        proof {
            assert(self@ =~= pre.push(rec@));
        }
    }

    /// The minimal projection for the prober's sweep: every probe target.
    pub fn list_all(&self) -> (out: Vec<IpList>)
        ensures
            out@.len() == self@.len(),
            forall|i: int| 0 <= i < out@.len() ==> out@[i]@ == self@[i].ip,
    {
        let n = self.records.len();
        let mut out: Vec<IpList> = Vec::new();
        let mut i: usize = 0;
        while i < n
            invariant
                i <= n,
                n == self@.len(),
                out@.len() == i,
                forall|j: int| 0 <= j < i ==> out@[j]@ == self@[j].ip,
            decreases n - i,
        {
            let ip = self.records[i].ip.clone();
            out.push(IpList { ip });
            i = i + 1;
        }
        out
    }

    /// Fold one latency measurement into the first row probing `ip`; with
    /// no matching row this is silently a no-op. Nothing but that row's
    /// `latency` field changes.
    pub fn update_latency(&mut self, ip: &str, latency_ms: i32)
        ensures
            final(self)@ == update_latency_spec(old(self)@, ip@, latency_ms as int),
            final(self)@.len() == old(self)@.len(),
            forall|j: int|
                0 <= j < old(self)@.len() && old(self)@[j].ip != ip@ ==> final(self)@[j] == old(
                    self,
                )@[j],
            forall|j: int|
                0 <= j < old(self)@.len() ==> {
                    &&& final(self)@[j].url == old(self)@[j].url
                    &&& final(self)@[j].ip == old(self)@[j].ip
                    &&& final(self)@[j].isp == old(self)@[j].isp
                    &&& final(self)@[j].country == old(self)@[j].country
                    &&& final(self)@[j].code == old(self)@[j].code
                },
            keys_unique(old(self)@) ==> keys_unique(final(self)@),
    {
        let n = self.records.len();
        let mut i: usize = 0;
        while i < n
            invariant
                i <= n,
                n == self@.len(),
                self@ == old(self)@,
                forall|j: int| 0 <= j < i ==> self@[j].ip != ip@,
            decreases n - i,
        {
            if str_eq(self.records[i].ip.as_str(), ip) {
                proof {
                    assert(self@[i as int].ip == ip@);
                    assert(is_first_with_ip(self@, ip@, i as int));
                }
                let updated = IpInfo {
                    url: self.records[i].url.clone(),
                    ip: self.records[i].ip.clone(),
                    isp: self.records[i].isp.clone(),
                    country: self.records[i].country.clone(),
                    latency: latency_ms,
                    code: self.records[i].code.clone(),
                };
                let ghost pre = self@;
                proof {
                    assert(pre == old(self)@);
                    assert(updated@ == RecordV { latency: latency_ms as int, ..pre[i as int] });
                }
                self.records[i] = updated;
                proof {
                    assert(self@ =~= pre.update(
                        i as int,
                        RecordV { latency: latency_ms as int, ..pre[i as int] },
                    ));
                    assert(is_first_with_ip(pre, ip@, i as int));
                    let k = choose|k: int| is_first_with_ip(pre, ip@, k);
                    if k < i as int {
                        assert(pre[k].ip != ip@);
                        assert(false);
                    }
                    if k > i as int {
                        assert(pre[i as int].ip != ip@);
                        assert(false);
                    }
                    assert(self@ == update_latency_spec(pre, ip@, latency_ms as int));
                }
                return ;
            }
            proof {
                assert(self@[i as int].ip != ip@);
            }
            i = i + 1;
        }
        proof {
            assert(forall|k: int| !is_first_with_ip(self@, ip@, k));
        }
    }

    /// The candidates under `filter`, ascending by latency, at most
    /// `filter.limit` of them, and always the fastest ones: a candidate
    /// left out only loses to rows at least as fast filling the bound.
    pub fn query_candidates(&self, filter: &CandidateFilter) -> (out: Vec<IpInfo>)
        ensures
            out@.len() <= filter@.limit,
            forall|i: int|
                0 <= i < out@.len() ==> passes_filter(#[trigger] out@[i]@, filter@)
                    && self@.contains(out@[i]@),
            sorted_by_latency(views_of(out@)),
            forall|j: int|
                0 <= j < self@.len() && passes_filter(#[trigger] self@[j], filter@) ==> (views_of(
                    out@,
                ).contains(self@[j]) || (out@.len() == filter@.limit && forall|i: int|
                    0 <= i < out@.len() ==> out@[i]@.latency <= self@[j].latency)),
    {
        let n = self.records.len();
        let mut cands: Vec<IpInfo> = Vec::new();
        let mut i: usize = 0;
        while i < n
            invariant
                i <= n,
                n == self@.len(),
                forall|k: int|
                    0 <= k < cands@.len() ==> passes_filter(#[trigger] cands@[k]@, filter@)
                        && self@.contains(cands@[k]@),
                sorted_by_latency(views_of(cands@)),
                forall|j: int|
                    0 <= j < i && passes_filter(#[trigger] self@[j], filter@) ==> views_of(
                        cands@,
                    ).contains(self@[j]),
            decreases n - i,
        {
            if self.passes(i, filter) {
                let rec = self.records[i].clone();
                let m = cands.len();
                let mut pos: usize = 0;
                while pos < m && cands[pos].latency <= rec.latency
                    invariant
                        pos <= m,
                        m == cands@.len(),
                        rec@ == self@[i as int],
                        forall|k: int| 0 <= k < pos ==> cands@[k]@.latency <= rec@.latency,
                    decreases m - pos,
                {
                    pos = pos + 1;
                }
                proof {
                    lemma_sorted_insert_position(views_of(cands@), rec@, pos as int);
                }
                let ghost old_cands = cands@;
                cands.insert(pos, rec);
                proof {
                    assert(views_of(cands@) =~= views_of(old_cands).insert(
                        pos as int,
                        self@[i as int],
                    ));
                    views_of(old_cands).insert_ensures(pos as int, self@[i as int]);
                    lemma_insert_keeps_contains(views_of(old_cands), pos as int, self@[i as int]);
                    assert(views_of(cands@)[pos as int] == self@[i as int]);
                }
            }
            i = i + 1;
        }
        proof {
            assert(forall|j: int|
                0 <= j < self@.len() && passes_filter(#[trigger] self@[j], filter@) ==> views_of(
                    cands@,
                ).contains(self@[j]));
        }
        let ghost full = cands@;
        if cands.len() > filter.limit {
            cands.truncate(filter.limit);
            proof {
                assert(views_of(cands@) =~= views_of(full).subrange(0, filter@.limit as int));
                assert forall|j: int|
                    0 <= j < self@.len() && passes_filter(#[trigger] self@[j], filter@) implies (
                views_of(cands@).contains(self@[j]) || (cands@.len() == filter@.limit
                    && forall|i2: int|
                    0 <= i2 < cands@.len() ==> cands@[i2]@.latency <= self@[j].latency)) by {
                    if !views_of(cands@).contains(self@[j]) {
                        let w = choose|w: int|
                            0 <= w < views_of(full).len() && views_of(full)[w] == self@[j];
                        assert(views_of(full)[w] == self@[j]);
                        if w < filter@.limit {
                            assert(views_of(cands@)[w] == self@[j]);
                            assert(false);
                        }
                        assert forall|i2: int|
                            0 <= i2 < cands@.len() implies cands@[i2]@.latency
                            <= self@[j].latency by {
                            assert(views_of(full)[i2].latency <= views_of(full)[w].latency);
                        }
                    }
                }
            }
        }
        cands
    }

    /// Whether the row at `i` is a candidate under `filter`.
    fn passes(&self, i: usize, filter: &CandidateFilter) -> (r: bool)
        requires
            i < self@.len(),
        ensures
            r == passes_filter(self@[i as int], filter@),
    {
        let row = &self.records[i];
        if !(0 < row.latency && row.latency < filter.max_latency) {
            return false;
        }
        if row.url.as_str().is_empty() {
            return false;
        }
        if row.ip.as_str().is_empty() {
            return false;
        }
        match filter.required_code {
            Some(ref c) => {
                if !str_eq(row.code.as_str(), c.as_str()) {
                    return false;
                }
            },
            None => {},
        }
        match filter.exclude_code {
            Some(ref c) => {
                if str_eq(row.code.as_str(), c.as_str()) {
                    return false;
                }
            },
            None => {},
        }
        true
    }
}

/// Idempotent ingestion: a second insert of the same record is a no-op,
/// key uniqueness is kept, and no existing row is ever altered.
pub proof fn lemma_upsert_idempotent(s: Seq<RecordV>, r: RecordV)
    ensures
        upsert_spec(upsert_spec(s, r), r) == upsert_spec(s, r),
        keys_unique(s) ==> keys_unique(upsert_spec(s, r)),
        forall|i: int| 0 <= i < s.len() ==> upsert_spec(s, r)[i] == s[i],
{
    let once = upsert_spec(s, r);
    if has_key(s, r.url, r.ip) {
        assert(once == s);
    } else {
        assert(once == s.push(r));
        assert(once[s.len() as int] == r);
        assert(has_key(once, r.url, r.ip));
        if keys_unique(s) {
            assert forall|i: int, j: int|
                0 <= i < j < once.len() implies !(once[i].url == once[j].url && once[i].ip
                == once[j].ip) by {
                if j < s.len() {
                } else {
                    assert(once[j] == r);
                    assert(!(s[i].url == r.url && s[i].ip == r.ip)) by {
                        if s[i].url == r.url && s[i].ip == r.ip {
                            assert(has_key(s, r.url, r.ip));
                        }
                    }
                }
            }
        }
    }
}

/// One latency report never touches another row, and never touches any
/// row's descriptive fields.
pub proof fn lemma_update_latency_frame(s: Seq<RecordV>, ip: Seq<char>, ms: int)
    ensures
        update_latency_spec(s, ip, ms).len() == s.len(),
        forall|j: int|
            0 <= j < s.len() && s[j].ip != ip ==> update_latency_spec(s, ip, ms)[j] == s[j],
        forall|j: int|
            0 <= j < s.len() ==> {
                &&& (#[trigger] update_latency_spec(s, ip, ms)[j]).url == s[j].url
                &&& update_latency_spec(s, ip, ms)[j].ip == s[j].ip
                &&& update_latency_spec(s, ip, ms)[j].isp == s[j].isp
                &&& update_latency_spec(s, ip, ms)[j].country == s[j].country
                &&& update_latency_spec(s, ip, ms)[j].code == s[j].code
            },
{
    if exists|k: int| is_first_with_ip(s, ip, k) {
        // materialize the chosen first index so its bounds are visible
        let k = choose|k: int| is_first_with_ip(s, ip, k);
        assert(0 <= k < s.len());
    }
}

/// The latency reports of one sweep, folded into the store one by one,
/// each committed independently.
pub open spec fn apply_reports(s: Seq<RecordV>, rs: Seq<(Seq<char>, int)>) -> Seq<RecordV>
    decreases rs.len(),
{
    if rs.len() == 0 {
        s
    } else {
        apply_reports(update_latency_spec(s, rs[0].0, rs[0].1), rs.drop_first())
    }
}

/// Partial-completion semantics of a sweep: folding in any set of
/// completed reports keeps every row, alters no descriptive field, and
/// leaves the latency of every row whose target no completed report
/// names exactly as it was — an abandoned probe changes nothing.
pub proof fn lemma_sweep_partial(s: Seq<RecordV>, rs: Seq<(Seq<char>, int)>)
    ensures
        apply_reports(s, rs).len() == s.len(),
        forall|j: int|
            0 <= j < s.len() && (forall|k: int| 0 <= k < rs.len() ==> s[j].ip != rs[k].0)
                ==> apply_reports(s, rs)[j] == s[j],
        forall|j: int|
            0 <= j < s.len() ==> {
                &&& (#[trigger] apply_reports(s, rs)[j]).url == s[j].url
                &&& apply_reports(s, rs)[j].ip == s[j].ip
                &&& apply_reports(s, rs)[j].isp == s[j].isp
                &&& apply_reports(s, rs)[j].country == s[j].country
                &&& apply_reports(s, rs)[j].code == s[j].code
            },
    decreases rs.len(),
{
    if rs.len() == 0 {
    } else {
        let s1 = update_latency_spec(s, rs[0].0, rs[0].1);
        lemma_update_latency_frame(s, rs[0].0, rs[0].1);
        lemma_sweep_partial(s1, rs.drop_first());
        assert forall|j: int|
            0 <= j < s.len() && (forall|k: int| 0 <= k < rs.len() ==> s[j].ip != rs[k].0) implies
        apply_reports(s, rs)[j] == s[j] by {
            assert(s[j].ip != rs[0].0);
            assert(s1[j] == s[j]);
            assert forall|k: int| 0 <= k < rs.drop_first().len() implies s1[j].ip
                != rs.drop_first()[k].0 by {
                assert(rs.drop_first()[k] == rs[k + 1]);
            }
        }
    }
}

/// After an insert at `pos`, every element of the old sequence is still
/// present in the new one.
proof fn lemma_insert_keeps_contains(s: Seq<RecordV>, pos: int, v: RecordV)
    requires
        0 <= pos <= s.len(),
    ensures
        forall|x: RecordV| s.contains(x) ==> #[trigger] s.insert(pos, v).contains(x),
{
    s.insert_ensures(pos, v);
    assert forall|x: RecordV| s.contains(x) implies #[trigger] s.insert(pos, v).contains(x) by {
        let w = choose|w: int| 0 <= w < s.len() && s[w] == x;
        if w < pos {
            assert(s.insert(pos, v)[w] == x);
        } else {
            assert(s.insert(pos, v)[w + 1] == x);
        }
    }
}

/// Inserting `v` at the boundary found by the position search keeps the
/// sequence sorted.
proof fn lemma_sorted_insert_position(s: Seq<RecordV>, v: RecordV, pos: int)
    requires
        sorted_by_latency(s),
        0 <= pos <= s.len(),
        forall|k: int| 0 <= k < pos ==> s[k].latency <= v.latency,
        pos < s.len() ==> s[pos].latency > v.latency,
    ensures
        sorted_by_latency(s.insert(pos, v)),
{
    s.insert_ensures(pos, v);
    let t = s.insert(pos, v);
    assert forall|i: int, j: int| 0 <= i < j < t.len() implies t[i].latency <= t[j].latency by {
        if i < pos {
            assert(t[i] == s[i]);
        } else if i == pos {
            assert(t[i] == v);
        } else {
            assert(t[i] == s[i - 1]);
        }
        if j < pos {
            assert(t[j] == s[j]);
        } else if j == pos {
            assert(t[j] == v);
        } else {
            assert(t[j] == s[j - 1]);
        }
    }
}

} // verus!
