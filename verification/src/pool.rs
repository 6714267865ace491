//! The proxy pool manager: unfiltered accumulation, verified-map
//! construction from measured test outcomes, and the read-only selection
//! queries.
//!
//! The manager owns two regions of state.  The unfiltered list accumulates
//! every record ever parsed from any fetched source body.  The verified map
//! is a country-keyed association list, wholly replaced by each test cycle;
//! entries appear in first-insertion order and countries are distinct.  All
//! network traffic happens outside: fetch operations receive the already
//! retrieved source bodies, the test cycle receives the already measured
//! probe outcomes, and both are verified to transform the pool exactly as
//! specified.

use vstd::prelude::*;
use crate::record::{ProxyInfo, ProxyInfoV, views_of, TEST_TARGET_COUNT, success_rate_thousandths,
    passes_threshold, spec_passes_threshold, rate_thousandths, score_x10};
use crate::parse::{parse_proxy_list, fresh_records, lemma_views_push};

verus! {

/// A fetched source body together with the country code of its source.
pub struct TaggedText {
    pub country: String,
    pub body: String,
}

impl View for TaggedText {
    type V = (Seq<char>, Seq<char>);

    open spec fn view(&self) -> (Seq<char>, Seq<char>) {
        (self.country@, self.body@)
    }
}

/// The models of a sequence of tagged source bodies.
pub open spec fn tagged_views(s: Seq<TaggedText>) -> Seq<(Seq<char>, Seq<char>)> {
    s.map_values(|t: TaggedText| t@)
}

/// The models of a sequence of source bodies.
pub open spec fn body_views(s: Seq<String>) -> Seq<Seq<char>> {
    s.map_values(|b: String| b@)
}

/// `r` with its country overwritten by `c`.
pub open spec fn retag(r: ProxyInfoV, c: Seq<char>) -> ProxyInfoV {
    ProxyInfoV { country: c, ..r }
}

/// Every record of `rs` retagged with `c`.
pub open spec fn retag_all(rs: Seq<ProxyInfoV>, c: Seq<char>) -> Seq<ProxyInfoV> {
    rs.map_values(|r: ProxyInfoV| retag(r, c))
}

/// The records the general (untagged) source bodies contribute, in order.
pub open spec fn fresh_all(bodies: Seq<Seq<char>>) -> Seq<ProxyInfoV>
    decreases bodies.len(),
{
    if bodies.len() == 0 {
        Seq::empty()
    } else {
        fresh_all(bodies.drop_last()) + fresh_records(bodies.last())
    }
}

/// The records the country-tagged source bodies contribute, each one
/// retagged with its source's country code.
pub open spec fn tagged_all(srcs: Seq<(Seq<char>, Seq<char>)>) -> Seq<ProxyInfoV>
    decreases srcs.len(),
{
    if srcs.len() == 0 {
        Seq::empty()
    } else {
        tagged_all(srcs.drop_last()) + retag_all(fresh_records(srcs.last().1), srcs.last().0)
    }
}

/// Everything one fetch cycle appends to the unfiltered list.
pub open spec fn fetched_records(
    bodies: Seq<Seq<char>>,
    srcs: Seq<(Seq<char>, Seq<char>)>,
) -> Seq<ProxyInfoV> {
    fresh_all(bodies) + tagged_all(srcs)
}

/// The unfiltered list after one fetch cycle over the given source bodies.
pub open spec fn after_fetch(
    pool: Seq<ProxyInfoV>,
    bodies: Seq<Seq<char>>,
    srcs: Seq<(Seq<char>, Seq<char>)>,
) -> Seq<ProxyInfoV> {
    pool + fetched_records(bodies, srcs)
}

/// Error type of the pool operations.  No condition outside the per-item
/// loops currently exists, so no operation actually produces one.
#[derive(Debug)]
pub struct PoolError;

/// One entry of the verified map: a country and its verified records.
pub struct CountryEntry {
    pub country: String,
    pub list: Vec<ProxyInfo>,
}

impl View for CountryEntry {
    type V = (Seq<char>, Seq<ProxyInfoV>);

    open spec fn view(&self) -> (Seq<char>, Seq<ProxyInfoV>) {
        (self.country@, views_of(self.list@))
    }
}

/// The models of a sequence of verified-map entries.
pub open spec fn map_views(m: Seq<CountryEntry>) -> Seq<(Seq<char>, Seq<ProxyInfoV>)> {
    m.map_values(|e: CountryEntry| e@)
}

/// Well-formedness of a verified map: countries are distinct, and every
/// held record cleared the strict majority threshold when it was inserted.
pub open spec fn wf_map(m: Seq<(Seq<char>, Seq<ProxyInfoV>)>) -> bool {
    (forall|i: int, j: int| 0 <= i < j < m.len() ==> m[i].0 != m[j].0) && (forall|i: int, j: int|
        0 <= i < m.len() && 0 <= j < m[i].1.len() ==> (#[trigger] m[i].1[j]).success_rate > 500)
}

/// The proxy pool manager.
pub struct ProxyManager {
    proxies: Vec<ProxyInfo>,
    working: Vec<CountryEntry>,
}

impl ProxyManager {
    /// The unfiltered list: every record ever parsed from a fetched body.
    pub closed spec fn unfiltered(&self) -> Seq<ProxyInfoV> {
        views_of(self.proxies@)
    }

    /// The verified map: `(country, records)` pairs in first-insertion
    /// order, reflecting the most recent completed test cycle.
    pub closed spec fn verified_map(&self) -> Seq<(Seq<char>, Seq<ProxyInfoV>)> {
        map_views(self.working@)
    }

    /// The manager's invariant, over the verified map.
    pub open spec fn wf(&self) -> bool {
        wf_map(self.verified_map())
    }

    /// A manager with an empty pool.
    pub fn new() -> (r: ProxyManager)
        ensures
            r.unfiltered() == Seq::<ProxyInfoV>::empty(),
            r.verified_map() == Seq::<(Seq<char>, Seq<ProxyInfoV>)>::empty(),
            r.wf(),
    {
        let r = ProxyManager { proxies: Vec::new(), working: Vec::new() };
        proof {
            assert(views_of(r.proxies@) =~= Seq::<ProxyInfoV>::empty());
            assert(map_views(r.working@) =~= Seq::<(Seq<char>, Seq<ProxyInfoV>)>::empty());
        }
        r
    }

    /// A copy of the unfiltered list, for a caller that probes the
    /// endpoints outside.
    #[verifier::loop_isolation(false)]
    pub fn unfiltered_snapshot(&self) -> (r: Vec<ProxyInfo>)
        ensures
            views_of(r@) == self.unfiltered(),
    {
        let mut r: Vec<ProxyInfo> = Vec::new();
        let mut i: usize = 0;
        proof {
            assert(views_of(r@) =~= views_of(self.proxies@).take(0));
        }
        while i < self.proxies.len()
            invariant
                0 <= i <= self.proxies@.len(),
                views_of(r@) == views_of(self.proxies@).take(i as int),
            decreases self.proxies@.len() - i,
        {
            let p = &self.proxies[i];
            proof {
                lemma_views_push(r@, *p);
                assert(views_of(self.proxies@).take(i as int + 1) =~= views_of(
                    self.proxies@,
                ).take(i as int) + seq![self.proxies@[i as int]@]);
            }
            let d = p.duplicate();
            r.push(d);
            i = i + 1;
        }
        proof {
            assert(views_of(self.proxies@).take(self.proxies@.len() as int) =~= views_of(
                self.proxies@,
            ));
        }
        r
    }

    /// Parse each country-tagged source body and append its records, each
    /// one stamped with the source's country code, to `proxies`.
    #[verifier::loop_isolation(false)]
    pub fn fetch_country_proxies(proxies: &mut Vec<ProxyInfo>, sources: &Vec<TaggedText>)
        ensures
            views_of(final(proxies)@) == views_of(old(proxies)@) + tagged_all(
                tagged_views(sources@),
            ),
    {
        let ghost base = views_of(old(proxies)@);
        let ghost tv = tagged_views(sources@);
        let mut i: usize = 0;
        proof {
            assert(tagged_all(tv.take(0)) =~= Seq::<ProxyInfoV>::empty());
            assert(base + Seq::<ProxyInfoV>::empty() =~= base);
        }
    while i < sources.len()
            invariant
                0 <= i <= sources@.len(),
                views_of(proxies@) == base + tagged_all(tv.take(i as int)),
            decreases sources@.len() - i,
        {
            let src = &sources[i];
            let parsed = parse_proxy_list(src.body.as_str());
            let ghost mid = views_of(proxies@);
            let ghost c = src.country@;
            let ghost rs = views_of(parsed@);
            let mut j: usize = 0;
            proof {
                assert(retag_all(rs.take(0), c) =~= Seq::<ProxyInfoV>::empty());
                assert(mid + Seq::<ProxyInfoV>::empty() =~= mid);
            }
            while j < parsed.len()
                invariant
                    0 <= j <= parsed@.len(),
                    views_of(proxies@) == mid + retag_all(rs.take(j as int), c),
                decreases parsed@.len() - j,
            {
                let p = &parsed[j];
                let rec = ProxyInfo {
                    ip: p.ip.clone(),
                    port: p.port,
                    country: src.country.clone(),
                    protocol: p.protocol.clone(),
                    speed: p.speed,
                    success_rate: p.success_rate,
                    last_tested: p.last_tested,
                    failures: p.failures,
                };
                proof {
                    assert(rec@ == retag(rs[j as int], c));
                    lemma_views_push(proxies@, rec);
                    assert(retag_all(rs.take(j as int + 1), c) =~= retag_all(
                        rs.take(j as int),
                        c,
                    ).push(retag(rs[j as int], c)));
                    assert(mid + retag_all(rs.take(j as int), c).push(retag(rs[j as int], c)) =~= (
                    mid + retag_all(rs.take(j as int), c)).push(retag(rs[j as int], c)));
                }
                res_push(proxies, rec);
                j = j + 1;
            }
            proof {
                assert(rs.take(rs.len() as int) =~= rs);
                assert(tv.take(i as int + 1).drop_last() =~= tv.take(i as int));
                assert(tv.take(i as int + 1).last() == tv[i as int]);
                assert(tv[i as int].1 == src.body@);
                assert(tv[i as int].0 == c);
                assert(rs == fresh_records(src.body@));
                assert(tagged_all(tv.take(i as int + 1)) == tagged_all(tv.take(i as int))
                    + retag_all(fresh_records(tv[i as int].1), tv[i as int].0));
                assert(base + (tagged_all(tv.take(i as int)) + retag_all(rs, c)) =~= (base
                    + tagged_all(tv.take(i as int))) + retag_all(rs, c));
            }
            i = i + 1;
        }
        proof {
            assert(tv.take(tv.len() as int) =~= tv);
        }
    }

    /// One fetch cycle: parse every general source body into fresh records
    /// with country `"Unknown"`, then every country-tagged body with its
    /// country code, and append everything to the unfiltered list.  The
    /// verified map is untouched.  Per-source failures were already skipped
    /// by the caller that fetched the bodies, so the operation always
    /// succeeds.
    #[verifier::loop_isolation(false)]
    pub fn fetch_free_proxies(
        &mut self,
        bodies: &Vec<String>,
        country_sources: &Vec<TaggedText>,
    ) -> (r: Result<(), PoolError>)
        ensures
            r is Ok,
            final(self).unfiltered() == after_fetch(
                old(self).unfiltered(),
                body_views(bodies@),
                tagged_views(country_sources@),
            ),
            final(self).verified_map() == old(self).verified_map(),
            final(self).wf() == old(self).wf(),
    {
        let ghost base = views_of(old(self).proxies@);
        let ghost bv = body_views(bodies@);
        let mut i: usize = 0;
        proof {
            assert(fresh_all(bv.take(0)) =~= Seq::<ProxyInfoV>::empty());
            assert(base + Seq::<ProxyInfoV>::empty() =~= base);
        }
        while i < bodies.len()
            invariant
                0 <= i <= bodies@.len(),
                views_of(self.proxies@) == base + fresh_all(bv.take(i as int)),
                self.working@ == old(self).working@,
            decreases bodies@.len() - i,
        {
            let body = &bodies[i];
            let mut parsed = parse_proxy_list(body.as_str());
            let ghost rs = views_of(parsed@);
            self.proxies.append(&mut parsed);
            proof {
                assert(views_of(self.proxies@) =~= (base + fresh_all(bv.take(i as int))) + rs);
                assert(bv.take(i as int + 1).drop_last() =~= bv.take(i as int));
                assert(bv.take(i as int + 1).last() == bv[i as int]);
                assert(rs == fresh_records(bv[i as int]));
                assert(base + (fresh_all(bv.take(i as int)) + rs) =~= (base + fresh_all(
                    bv.take(i as int),
                )) + rs);
            }
            i = i + 1;
        }
        proof {
            assert(bv.take(bv.len() as int) =~= bv);
        }
        Self::fetch_country_proxies(&mut self.proxies, country_sources);
        proof {
            assert(base + (fresh_all(bv) + tagged_all(tagged_views(country_sources@))) =~= (base
                + fresh_all(bv)) + tagged_all(tagged_views(country_sources@)));
        }
        Ok(())
    }
}

/// One record's externally measured test round: whether an outbound client
/// could be built for the endpoint at all, how many of the fixed probe
/// targets answered successfully, the elapsed milliseconds of the whole
/// round, and the timestamp of the attempt.
#[derive(Clone, Copy)]
pub struct TestOutcome {
    pub client_ok: bool,
    pub successes: u8,
    pub elapsed_ms: u64,
    pub tested_at: u64,
}

/// The verified record a passing test round derives from candidate `r`.
pub open spec fn tested_record(r: ProxyInfoV, o: TestOutcome) -> ProxyInfoV {
    ProxyInfoV {
        speed: o.elapsed_ms,
        success_rate: rate_thousandths(o.successes as nat, TEST_TARGET_COUNT as nat) as u32,
        last_tested: o.tested_at,
        ..r
    }
}

/// Whether an outcome retains its record: the client could be built and the
/// success rate strictly exceeds one half.
pub open spec fn keeps(o: TestOutcome) -> bool {
    o.client_ok && spec_passes_threshold(o.successes as nat, TEST_TARGET_COUNT as nat)
}

/// The index of the entry of `m` keyed by `c`, or `m.len()` if none is.
pub open spec fn country_index(m: Seq<(Seq<char>, Seq<ProxyInfoV>)>, c: Seq<char>) -> nat
    decreases m.len(),
{
    if m.len() == 0 {
        0
    } else if m[0].0 == c {
        0
    } else {
        country_index(m.drop_first(), c) + 1
    }
}

/// `country_index` is determined by a witness position.
pub proof fn lemma_country_index_at(m: Seq<(Seq<char>, Seq<ProxyInfoV>)>, c: Seq<char>, k: int)
    requires
        0 <= k <= m.len(),
        forall|j: int| 0 <= j < k ==> m[j].0 != c,
        k == m.len() || m[k].0 == c,
    ensures
        country_index(m, c) == k,
    decreases k,
{
    if k == 0 {
    } else {
        assert(m[0].0 != c);
        assert forall|j: int| 0 <= j < k - 1 implies m.drop_first()[j].0 != c by {
            assert(m.drop_first()[j] == m[j + 1]);
        }
        if k < m.len() {
            assert(m.drop_first()[k - 1] == m[k]);
        }
        lemma_country_index_at(m.drop_first(), c, k - 1);
    }
}

/// What `country_index` guarantees of itself.
pub proof fn lemma_country_index_props(m: Seq<(Seq<char>, Seq<ProxyInfoV>)>, c: Seq<char>)
    ensures
        country_index(m, c) <= m.len(),
        country_index(m, c) < m.len() ==> m[country_index(m, c) as int].0 == c,
        forall|j: int| 0 <= j < country_index(m, c) ==> m[j].0 != c,
    decreases m.len(),
{
    if m.len() == 0 {
    } else if m[0].0 == c {
    } else {
        lemma_country_index_props(m.drop_first(), c);
        assert forall|j: int| 0 <= j < country_index(m, c) implies m[j].0 != c by {
            if j > 0 {
                assert(m.drop_first()[j - 1] == m[j]);
            }
        }
        if country_index(m, c) < m.len() {
            assert(m.drop_first()[country_index(m, c) as int - 1] == m[country_index(
                m,
                c,
            ) as int]);
        }
    }
}

/// Insert a verified record under its country key: append it to the
/// existing entry, or open a new entry at the end of the map.
pub open spec fn map_insert(
    m: Seq<(Seq<char>, Seq<ProxyInfoV>)>,
    r: ProxyInfoV,
) -> Seq<(Seq<char>, Seq<ProxyInfoV>)> {
    let k = country_index(m, r.country);
    if k < m.len() {
        m.update(k as int, (m[k as int].0, m[k as int].1.push(r)))
    } else {
        m.push((r.country, seq![r]))
    }
}

/// `map_insert` preserves well-formedness for an over-threshold record.
pub proof fn lemma_map_insert_wf(m: Seq<(Seq<char>, Seq<ProxyInfoV>)>, r: ProxyInfoV)
    requires
        wf_map(m),
        r.success_rate > 500,
    ensures
        wf_map(map_insert(m, r)),
{
    lemma_country_index_props(m, r.country);
    let k = country_index(m, r.country);
    let m2 = map_insert(m, r);
    if k < m.len() {
        assert forall|i: int, j: int|
            0 <= i < m2.len() && 0 <= j < m2[i].1.len() implies (#[trigger] m2[i].1[j]).success_rate
            > 500 by {
            if i == k && j == m2[i].1.len() - 1 {
            } else {
                assert(m2[i].1[j] == m[i].1[j]);
            }
        }
    } else {
        assert forall|i: int, j: int|
            0 <= i < m2.len() && 0 <= j < m2[i].1.len() implies (#[trigger] m2[i].1[j]).success_rate
            > 500 by {
            if i < m.len() {
                assert(m2[i].1[j] == m[i].1[j]);
            }
        }
    }
}

/// The verified map a test cycle builds from a snapshot of candidates and
/// their measured outcomes, in scan order.
pub open spec fn build_map(recs: Seq<ProxyInfoV>, outs: Seq<TestOutcome>) -> Seq<
    (Seq<char>, Seq<ProxyInfoV>),
>
    recommends
        recs.len() == outs.len(),
    decreases recs.len(),
{
    if recs.len() == 0 {
        Seq::empty()
    } else {
        let prev = build_map(recs.drop_last(), outs.drop_last());
        if keeps(outs.last()) {
            map_insert(prev, tested_record(recs.last(), outs.last()))
        } else {
            prev
        }
    }
}

/// Append `rec` to its country's entry of `working`, or open a new entry,
/// exactly as `map_insert` describes.
#[verifier::loop_isolation(false)]
fn insert_record(working: &mut Vec<CountryEntry>, rec: ProxyInfo)
    ensures
        map_views(final(working)@) == map_insert(map_views(old(working)@), rec@),
{
    let ghost m = map_views(old(working)@);
    let mut j: usize = 0;
    while j < working.len()
        invariant
            0 <= j <= working@.len(),
            working@ == old(working)@,
            forall|t: int| 0 <= t < j ==> m[t].0 != rec.country@,
        decreases working@.len() - j,
    {
        let e = &working[j];
        if rec.country.eq(&e.country) {
            proof {
                lemma_country_index_at(m, rec.country@, j as int);
            }
            let mut entry = working.remove(j);
            entry.list.push(rec);
            working.insert(j, entry);
            proof {
                assert(views_of(old(working)@[j as int].list@.push(rec)) =~= m[j as int].1.push(
                    rec@,
                ));
                assert(map_views(working@) =~= m.update(
                    j as int,
                    (m[j as int].0, m[j as int].1.push(rec@)),
                ));
            }
            return;
        }
        proof {
            assert(m[j as int].0 == e.country@);
        }
        j = j + 1;
    }
    proof {
        lemma_country_index_at(m, rec.country@, m.len() as int);
    }
    let c = rec.country.clone();
    let ghost rv = rec@;
    let mut l: Vec<ProxyInfo> = Vec::new();
    l.push(rec);
    let entry = CountryEntry { country: c, list: l };
    proof {
        assert(entry@ == (rv.country, seq![rv]));
    }
    working.push(entry);
    proof {
        assert(map_views(working@) =~= m.push((rv.country, seq![rv])));
    }
}

impl ProxyManager {
    /// One test cycle: derive a fresh verified map from a snapshot of the
    /// unfiltered list and the measured outcome of each candidate's test
    /// round, then replace the live map with it in one assignment.  A
    /// candidate is retained under its country key exactly when its client
    /// could be built and it answered a strict majority of the probe
    /// targets; retention never depends on the old map.  Per-endpoint
    /// failures are part of the outcomes, so the operation always succeeds.
    #[verifier::loop_isolation(false)]
    pub fn test_proxies(&mut self, snapshot: &Vec<ProxyInfo>, outcomes: &Vec<TestOutcome>) -> (r:
        Result<(), PoolError>)
        requires
            outcomes@.len() == snapshot@.len(),
            forall|i: int| 0 <= i < outcomes@.len() ==> (#[trigger] outcomes@[i]).successes
                <= TEST_TARGET_COUNT,
        ensures
            r is Ok,
            final(self).unfiltered() == old(self).unfiltered(),
            final(self).verified_map() == build_map(views_of(snapshot@), outcomes@),
            final(self).wf(),
    {
        let ghost rv = views_of(snapshot@);
        let ghost ov = outcomes@;
        let mut working: Vec<CountryEntry> = Vec::new();
        let mut i: usize = 0;
        proof {
            assert(map_views(working@) =~= Seq::<(Seq<char>, Seq<ProxyInfoV>)>::empty());
            assert(rv.take(0) =~= Seq::<ProxyInfoV>::empty());
            assert(ov.take(0) =~= Seq::<TestOutcome>::empty());
        }
        while i < snapshot.len()
            invariant
                0 <= i <= snapshot@.len(),
                map_views(working@) == build_map(rv.take(i as int), ov.take(i as int)),
                wf_map(map_views(working@)),
            decreases snapshot@.len() - i,
        {
            let o = outcomes[i];
            let p = &snapshot[i];
            proof {
                assert(rv.take(i as int + 1).drop_last() =~= rv.take(i as int));
                assert(ov.take(i as int + 1).drop_last() =~= ov.take(i as int));
                assert(rv.take(i as int + 1).last() == rv[i as int]);
                assert(ov.take(i as int + 1).last() == ov[i as int]);
            }
            if o.client_ok && passes_threshold(o.successes, TEST_TARGET_COUNT) {
                let sr = success_rate_thousandths(o.successes, TEST_TARGET_COUNT);
                proof {
                    if o.successes == 2 {
                        assert(rate_thousandths(2, 3) == 667);
                    } else {
                        assert(o.successes == 3);
                        assert(rate_thousandths(3, 3) == 1000);
                    }
                }
                let rec = ProxyInfo {
                    ip: p.ip.clone(),
                    port: p.port,
                    country: p.country.clone(),
                    protocol: p.protocol.clone(),
                    speed: o.elapsed_ms,
                    success_rate: sr,
                    last_tested: o.tested_at,
                    failures: p.failures,
                };
                proof {
                    assert(rec@ == tested_record(rv[i as int], ov[i as int]));
                    lemma_map_insert_wf(map_views(working@), rec@);
                }
                insert_record(&mut working, rec);
            }
            i = i + 1;
        }
        proof {
            assert(rv.take(rv.len() as int) =~= rv);
            assert(ov.take(ov.len() as int) =~= ov);
        }
        self.working = working;
        Ok(())
    }

    /// The number of verified records currently held for each country, in
    /// map order.
    #[verifier::loop_isolation(false)]
    pub fn get_proxy_stats(&self) -> (r: Vec<(String, usize)>)
        ensures
            r@.len() == self.verified_map().len(),
            forall|i: int| 0 <= i < r@.len() ==> (#[trigger] r@[i]).0@ == self.verified_map()[i].0
                && r@[i].1 == self.verified_map()[i].1.len(),
    {
        let mut r: Vec<(String, usize)> = Vec::new();
        let mut i: usize = 0;
        while i < self.working.len()
            invariant
                0 <= i <= self.working@.len(),
                r@.len() == i,
                forall|t: int| 0 <= t < i ==> (#[trigger] r@[t]).0@ == self.verified_map()[t].0
                    && r@[t].1 == self.verified_map()[t].1.len(),
            decreases self.working@.len() - i,
        {
            let e = &self.working[i];
            r.push((e.country.clone(), e.list.len()));
            i = i + 1;
        }
        r
    }
}

/// The index of the first entry of `m` with a non-empty record list, or
/// `m.len()` if every list is empty.
pub open spec fn first_nonempty(m: Seq<(Seq<char>, Seq<ProxyInfoV>)>) -> nat
    decreases m.len(),
{
    if m.len() == 0 {
        0
    } else if m[0].1.len() > 0 {
        0
    } else {
        first_nonempty(m.drop_first()) + 1
    }
}

/// `first_nonempty` is determined by a witness position.
pub proof fn lemma_first_nonempty_at(m: Seq<(Seq<char>, Seq<ProxyInfoV>)>, k: int)
    requires
        0 <= k <= m.len(),
        forall|j: int| 0 <= j < k ==> m[j].1.len() == 0,
        k == m.len() || m[k].1.len() > 0,
    ensures
        first_nonempty(m) == k,
    decreases k,
{
    if k == 0 {
    } else {
        assert(m[0].1.len() == 0);
        assert forall|j: int| 0 <= j < k - 1 implies m.drop_first()[j].1.len() == 0 by {
            assert(m.drop_first()[j] == m[j + 1]);
        }
        if k < m.len() {
            assert(m.drop_first()[k - 1] == m[k]);
        }
        lemma_first_nonempty_at(m.drop_first(), k - 1);
    }
}

/// The list a random selection for country `c` draws from: the country's
/// own entry when it exists and is non-empty, otherwise the first
/// non-empty entry in map order, otherwise nothing.
pub open spec fn selection_pool(m: Seq<(Seq<char>, Seq<ProxyInfoV>)>, c: Seq<char>) -> Seq<
    ProxyInfoV,
> {
    let k = country_index(m, c);
    if k < m.len() && m[k as int].1.len() > 0 {
        m[k as int].1
    } else {
        let f = first_nonempty(m);
        if f < m.len() {
            m[f as int].1
        } else {
            Seq::empty()
        }
    }
}

/// Every record of the verified map, in map order.
pub open spec fn all_records(m: Seq<(Seq<char>, Seq<ProxyInfoV>)>) -> Seq<ProxyInfoV>
    decreases m.len(),
{
    if m.len() == 0 {
        Seq::empty()
    } else {
        all_records(m.drop_last()) + m.last().1
    }
}

/// One step of the best-record scan: a candidate displaces the current
/// best only with a strictly greater score, and displaces the initial
/// "no best" sentinel only with a strictly positive score.
pub open spec fn best_step(prev: Option<ProxyInfoV>, x: ProxyInfoV) -> Option<ProxyInfoV> {
    match prev {
        None => if score_x10(x) > 0 {
            Some(x)
        } else {
            None
        },
        Some(b) => if score_x10(x) > score_x10(b) {
            Some(x)
        } else {
            Some(b)
        },
    }
}

/// The best-record scan of `s` started from `init`.
pub open spec fn best_fold(s: Seq<ProxyInfoV>, init: Option<ProxyInfoV>) -> Option<ProxyInfoV>
    decreases s.len(),
{
    if s.len() == 0 {
        init
    } else {
        best_step(best_fold(s.drop_last(), init), s.last())
    }
}

/// The record the best-proxy query selects from `s`: the strictly greatest
/// score in scan order, ties kept by the earliest record, and no record at
/// all when no score is strictly positive.
pub open spec fn best_of(s: Seq<ProxyInfoV>) -> Option<ProxyInfoV> {
    best_fold(s, None)
}

/// A scan of a concatenation is the scan of the second part started from
/// the scan of the first.
pub proof fn lemma_best_fold_concat(a: Seq<ProxyInfoV>, b: Seq<ProxyInfoV>, init: Option<
    ProxyInfoV,
>)
    ensures
        best_fold(a + b, init) == best_fold(b, best_fold(a, init)),
    decreases b.len(),
{
    if b.len() == 0 {
        assert(a + b =~= a);
    } else {
        lemma_best_fold_concat(a, b.drop_last(), init);
        assert((a + b).drop_last() =~= a + b.drop_last());
        assert((a + b).last() == b.last());
    }
}

/// The model of an optional record.
pub open spec fn opt_view(o: Option<ProxyInfo>) -> Option<ProxyInfoV> {
    match o {
        Some(p) => Some(p@),
        None => None,
    }
}

/// Relies on `rand::Rng::gen_range` over the range `0 .. n` with a
/// thread-local generator: the result lies in the range; the call panics
/// only when the range is empty, which the precondition rules out.
#[verifier::external_body]
fn random_below(n: usize) -> (r: usize)
    requires
        n > 0,
    ensures
        r < n,
{
    rand::Rng::gen_range(&mut rand::thread_rng(), 0..n)
}

/// Scan one list for the best record, continuing from `cur`.
#[verifier::loop_isolation(false)]
fn best_in_list(list: &Vec<ProxyInfo>, cur: Option<ProxyInfo>) -> (r: Option<ProxyInfo>)
    ensures
        opt_view(r) == best_fold(views_of(list@), opt_view(cur)),
{
    let ghost lv = views_of(list@);
    let ghost init = opt_view(cur);
    let mut best = cur;
    let mut j: usize = 0;
    proof {
        assert(lv.take(0) =~= Seq::<ProxyInfoV>::empty());
    }
    while j < list.len()
        invariant
            0 <= j <= list@.len(),
            opt_view(best) == best_fold(lv.take(j as int), init),
        decreases list@.len() - j,
    {
        let x = &list[j];
        proof {
            assert(lv.take(j as int + 1).drop_last() =~= lv.take(j as int));
            assert(lv.take(j as int + 1).last() == lv[j as int]);
        }
        let displace = match &best {
            None => (x.success_rate as u64) > x.speed,
            Some(b) => (x.success_rate as u128) + (b.speed as u128) > (b.success_rate as u128) + (
            x.speed as u128),
        };
        if displace {
            best = Some(x.duplicate());
        }
        j = j + 1;
    }
    proof {
        assert(lv.take(lv.len() as int) =~= lv);
    }
    best
}

impl ProxyManager {
    /// The best record over the whole verified map.
    #[verifier::loop_isolation(false)]
    fn best_overall(&self) -> (r: Option<ProxyInfo>)
        ensures
            opt_view(r) == best_of(all_records(self.verified_map())),
    {
        let ghost m = self.verified_map();
        let mut best: Option<ProxyInfo> = None;
        let mut i: usize = 0;
        proof {
            assert(m.take(0) =~= Seq::<(Seq<char>, Seq<ProxyInfoV>)>::empty());
        }
        while i < self.working.len()
            invariant
                0 <= i <= self.working@.len(),
                opt_view(best) == best_fold(all_records(m.take(i as int)), None),
            decreases self.working@.len() - i,
        {
            let e = &self.working[i];
            proof {
                assert(m.take(i as int + 1).drop_last() =~= m.take(i as int));
                assert(m.take(i as int + 1).last() == m[i as int]);
                assert(all_records(m.take(i as int + 1)) == all_records(m.take(i as int)) + m[
                i as int].1);
                assert(m[i as int].1 == views_of(e.list@));
                lemma_best_fold_concat(all_records(m.take(i as int)), m[i as int].1, None);
            }
            best = best_in_list(&e.list, best);
            i = i + 1;
        }
        proof {
            assert(m.take(m.len() as int) =~= m);
        }
        best
    }

    /// Find the entry keyed by `c`, if any.
    #[verifier::loop_isolation(false)]
    fn find_country(&self, c: &String) -> (r: Option<usize>)
        ensures
            match r {
                Some(j) => j == country_index(self.verified_map(), c@) && j
                    < self.verified_map().len(),
                None => country_index(self.verified_map(), c@) == self.verified_map().len(),
            },
    {
        let ghost m = self.verified_map();
        let mut j: usize = 0;
        while j < self.working.len()
            invariant
                0 <= j <= self.working@.len(),
                forall|t: int| 0 <= t < j ==> m[t].0 != c@,
            decreases self.working@.len() - j,
        {
            let e = &self.working[j];
            if c.eq(&e.country) {
                proof {
                    lemma_country_index_at(m, c@, j as int);
                }
                return Some(j);
            }
            proof {
                assert(m[j as int].0 == e.country@);
            }
            j = j + 1;
        }
        proof {
            lemma_country_index_at(m, c@, m.len() as int);
        }
        None
    }

    /// A record chosen uniformly at random from the requested country's
    /// verified list; when that country has none, from the first non-empty
    /// list in map order; `None` only when every list is empty.
    #[verifier::loop_isolation(false)]
    pub fn get_proxy_by_country(&self, country: &str) -> (r: Option<ProxyInfo>)
        ensures
            match r {
                Some(p) => selection_pool(self.verified_map(), country@).contains(p@),
                None => selection_pool(self.verified_map(), country@).len() == 0,
            },
            r is Some <==> exists|i: int|
                0 <= i < self.verified_map().len() && (#[trigger] self.verified_map()[i]).1.len()
                    > 0,
    {
        let ghost m = self.verified_map();
        let c = country.to_owned();
        match self.find_country(&c) {
            Some(j) => {
                let e = &self.working[j];
                if e.list.len() > 0 {
                    let idx = random_below(e.list.len());
                    let p = e.list[idx].duplicate();
                    proof {
                        assert(selection_pool(m, country@) == m[j as int].1);
                        assert(m[j as int].1[idx as int] == p@);
                    }
                    return Some(p);
                }
                self.fallback_any(Ghost(country@))
            },
            None => self.fallback_any(Ghost(country@)),
        }
    }

    /// A record from the first non-empty entry in map order, used when the
    /// requested country's own list is missing or empty.
    #[verifier::loop_isolation(false)]
    fn fallback_any(&self, c: Ghost<Seq<char>>) -> (r: Option<ProxyInfo>)
        requires
            ({
                let m = self.verified_map();
                let k = country_index(m, c@);
                !(k < m.len() && m[k as int].1.len() > 0)
            }),
        ensures
            match r {
                Some(p) => selection_pool(self.verified_map(), c@).contains(p@),
                None => selection_pool(self.verified_map(), c@).len() == 0,
            },
            r is Some <==> exists|i: int|
                0 <= i < self.verified_map().len() && (#[trigger] self.verified_map()[i]).1.len()
                    > 0,
    {
        let ghost m = self.verified_map();
        let mut f: usize = 0;
        while f < self.working.len()
            invariant
                0 <= f <= self.working@.len(),
                forall|t: int| 0 <= t < f ==> m[t].1.len() == 0,
            decreases self.working@.len() - f,
        {
            let e = &self.working[f];
            if e.list.len() > 0 {
                proof {
                    lemma_first_nonempty_at(m, f as int);
                }
                let idx = random_below(e.list.len());
                let p = e.list[idx].duplicate();
                proof {
                    assert(selection_pool(m, c@) == m[f as int].1);
                    assert(m[f as int].1[idx as int] == p@);
                }
                return Some(p);
            }
            proof {
                assert(m[f as int].1.len() == 0);
            }
            f = f + 1;
        }
        proof {
            lemma_first_nonempty_at(m, m.len() as int);
        }
        None
    }

    /// The single record with the strictly greatest score
    /// `success_rate * 100 - speed / 10`, scanning one country's list when
    /// the filter names a country the map holds, and every list otherwise;
    /// ties keep the earliest record scanned, and a pool whose scores are
    /// all zero or below yields `None`.
    pub fn get_best_proxy(&self, country: Option<&str>) -> (r: Option<ProxyInfo>)
        ensures
            ({
                let m = self.verified_map();
                let pool = match country {
                    Some(c) => {
                        let k = country_index(m, c@);
                        if k < m.len() {
                            m[k as int].1
                        } else {
                            all_records(m)
                        }
                    },
                    None => all_records(m),
                };
                opt_view(r) == best_of(pool)
            }),
    {
        let ghost m = self.verified_map();
        match country {
            Some(cs) => {
                let c = cs.to_owned();
                match self.find_country(&c) {
                    Some(j) => {
                        let e = &self.working[j];
                        best_in_list(&e.list, None)
                    },
                    None => self.best_overall(),
                }
            },
            None => self.best_overall(),
        }
    }
}

/// Append one record to a vector of records, tracking the model.
fn res_push(v: &mut Vec<ProxyInfo>, rec: ProxyInfo)
    ensures
        views_of(final(v)@) == views_of(old(v)@).push(rec@),
{
    proof {
        lemma_views_push(v@, rec);
        assert(views_of(v@) + seq![rec@] =~= views_of(v@).push(rec@));
    }
    v.push(rec);
}

} // verus!
