//! The route set an agent serves and registers: hostnames of labelled
//! containers, then configured static routes, which override Docker on the
//! same hostname.

use vstd::prelude::*;
use crate::agent::StaticRouteConfig;
use crate::api::{HeartbeatRouteRef, RouteEntry};
use crate::backend::{base_url_spec, parse_backend_spec, parse_backend_url, Backend};
use crate::docker::{backend_url, resolve_backend, resolve_spec, DiscoveredService};
use crate::hostname::{host_views, normalize_hostname, normalize_spec};
use crate::proxy::{BackendRoute, BackendRouteV, RouteTable};
use crate::store::{entry_v, sv, EntryV};

verus! {

// ---------------------------------------------------------------- views

pub open spec fn entries_view(v: Seq<RouteEntry>) -> Seq<EntryV> {
    v.map_values(|e: RouteEntry| entry_v(e))
}

pub open spec fn hb_v(r: HeartbeatRouteRef) -> (Seq<char>, Seq<char>) {
    (r.hostname@, r.backend_fingerprint@)
}

pub open spec fn hbs_view(v: Seq<HeartbeatRouteRef>) -> Seq<(Seq<char>, Seq<char>)> {
    v.map_values(|r: HeartbeatRouteRef| hb_v(r))
}

/// Keeps registration entries of hostnames other than `h`.
pub open spec fn other_entry(h: Seq<char>) -> spec_fn(EntryV) -> bool {
    |e: EntryV| e.hostname != h
}

/// Keeps heartbeat references of hostnames other than `h`.
pub open spec fn other_ref(h: Seq<char>) -> spec_fn((Seq<char>, Seq<char>)) -> bool {
    |x: (Seq<char>, Seq<char>)| x.0 != h
}

fn copy_opt(o: &Option<String>) -> (r: Option<String>)
    ensures
        sv(r) == sv(*o),
{
    match o {
        Some(s) => Some(s.clone()),
        None => None,
    }
}

fn copy_entry(e: &RouteEntry) -> (r: RouteEntry)
    ensures
        entry_v(r) == entry_v(*e),
{
    RouteEntry {
        hostname: e.hostname.clone(),
        backend: e.backend.clone(),
        container_id: copy_opt(&e.container_id),
        container_name: copy_opt(&e.container_name),
    }
}

fn str_eq(a: &String, b: &str) -> (r: bool)
    ensures
        r == (a@ == b@),
{
    let x = crate::text::to_chars(a.as_str());
    let y = crate::text::to_chars(b);
    crate::text::chars_eq(&x, &y)
}

/// Drops the entries of hostname `h`, keeping the order of the rest.
fn retain_other_entries(v: &mut Vec<RouteEntry>, h: &str)
    ensures
        entries_view(final(v)@) == entries_view(old(v)@).filter(other_entry(h@)),
{
    let ghost ov = entries_view(v@);
    let mut out: Vec<RouteEntry> = Vec::new();
    let mut i: usize = 0;
    while i < v.len()
        invariant
            i <= v.len(),
            ov == entries_view(v@),
            entries_view(out@) == ov.take(i as int).filter(other_entry(h@)),
        decreases v.len() - i,
    {
        assert(ov.take(i + 1).drop_last() == ov.take(i as int));
        assert(ov.take(i + 1).last() == entry_v(v@[i as int]));
        proof {
            reveal(Seq::filter);
        }
        let ghost x = entry_v(v@[i as int]);
        if !str_eq(&v[i].hostname, h) {
            let c = copy_entry(&v[i]);
            let ghost before = entries_view(out@);
            out.push(c);
            assert(entries_view(out@) =~= before.push(entry_v(c)));
            assert(other_entry(h@)(x));
            assert(ov.take(i + 1).filter(other_entry(h@)) == ov.take(i as int).filter(other_entry(h@)).push(x));
        } else {
            assert(!other_entry(h@)(x));
            assert(ov.take(i + 1).filter(other_entry(h@)) == ov.take(i as int).filter(other_entry(h@)));
        }
        i = i + 1;
    }
    assert(ov.take(v.len() as int) == ov);
    *v = out;
}

/// Drops the heartbeat references of hostname `h`, keeping the order of the rest.
fn retain_other_refs(v: &mut Vec<HeartbeatRouteRef>, h: &str)
    ensures
        hbs_view(final(v)@) == hbs_view(old(v)@).filter(other_ref(h@)),
{
    let ghost ov = hbs_view(v@);
    let mut out: Vec<HeartbeatRouteRef> = Vec::new();
    let mut i: usize = 0;
    while i < v.len()
        invariant
            i <= v.len(),
            ov == hbs_view(v@),
            hbs_view(out@) == ov.take(i as int).filter(other_ref(h@)),
        decreases v.len() - i,
    {
        assert(ov.take(i + 1).drop_last() == ov.take(i as int));
        assert(ov.take(i + 1).last() == hb_v(v@[i as int]));
        proof {
            reveal(Seq::filter);
        }
        let ghost x = hb_v(v@[i as int]);
        if !str_eq(&v[i].hostname, h) {
            let c = HeartbeatRouteRef {
                hostname: v[i].hostname.clone(),
                backend_fingerprint: v[i].backend_fingerprint.clone(),
            };
            let ghost before = hbs_view(out@);
            out.push(c);
            assert(hbs_view(out@) =~= before.push(hb_v(c)));
            assert(other_ref(h@)(x));
            assert(ov.take(i + 1).filter(other_ref(h@)) == ov.take(i as int).filter(other_ref(h@)).push(x));
        } else {
            assert(!other_ref(h@)(x));
            assert(ov.take(i + 1).filter(other_ref(h@)) == ov.take(i as int).filter(other_ref(h@)));
        }
        i = i + 1;
    }
    assert(ov.take(v.len() as int) == ov);
    *v = out;
}

// ---------------------------------------------------------------- static routes

/// A validated static route: normalized hostnames and a parsed backend.
#[derive(Debug, Clone)]
pub struct PreparedStaticRoute {
    pub hosts: Vec<String>,
    pub backend: Backend,
    pub backend_url: String,
}

pub struct PreparedV {
    pub hosts: Seq<Seq<char>>,
    pub host: Seq<char>,
    pub port: u16,
    pub backend_url: Seq<char>,
}

impl View for PreparedStaticRoute {
    type V = PreparedV;

    open spec fn view(&self) -> PreparedV {
        PreparedV {
            hosts: self.hosts@.map_values(|h: String| h@),
            host: self.backend.host@,
            port: self.backend.port,
            backend_url: self.backend_url@,
        }
    }
}

pub open spec fn prepared_view(v: Seq<PreparedStaticRoute>) -> Seq<PreparedV> {
    v.map_values(|p: PreparedStaticRoute| p@)
}

pub open spec fn config_view(c: StaticRouteConfig) -> (Seq<Seq<char>>, Seq<char>) {
    (c.hosts@.map_values(|h: String| h@), c.backend@)
}

/// The hostnames that normalize, normalized, in order.
pub open spec fn normalized_hosts(hs: Seq<Seq<char>>) -> Seq<Seq<char>>
    decreases hs.len(),
{
    if hs.len() == 0 {
        Seq::empty()
    } else {
        let prev = normalized_hosts(hs.drop_last());
        match normalize_spec(hs.last()) {
            Some(n) => prev.push(n),
            None => prev,
        }
    }
}

/// Config entries with a valid backend and at least one valid hostname, prepared.
pub open spec fn prepared_spec(cs: Seq<(Seq<Seq<char>>, Seq<char>)>) -> Seq<PreparedV>
    decreases cs.len(),
{
    if cs.len() == 0 {
        Seq::empty()
    } else {
        let prev = prepared_spec(cs.drop_last());
        let (hosts, backend) = cs.last();
        match parse_backend_spec(backend) {
            None => prev,
            Some(b) => {
                let n = normalized_hosts(hosts);
                if n.len() == 0 {
                    prev
                } else {
                    prev.push(PreparedV { hosts: n, host: b.0, port: b.1, backend_url: base_url_spec(b.0, b.1) })
                }
            },
        }
    }
}

fn normalize_all(hosts: &Vec<String>) -> (r: Vec<String>)
    ensures
        r@.map_values(|h: String| h@) == normalized_hosts(hosts@.map_values(|h: String| h@)),
{
    let ghost hv = hosts@.map_values(|h: String| h@);
    let mut out: Vec<String> = Vec::new();
    let mut i: usize = 0;
    while i < hosts.len()
        invariant
            i <= hosts.len(),
            hv == hosts@.map_values(|h: String| h@),
            out@.map_values(|h: String| h@) == normalized_hosts(hv.take(i as int)),
        decreases hosts.len() - i,
    {
        assert(hv.take(i + 1).drop_last() == hv.take(i as int));
        assert(hv.take(i + 1).last() == hosts@[i as int]@);
        match normalize_hostname(hosts[i].as_str()) {
            Ok(n) => {
                let ghost before = out@.map_values(|h: String| h@);
                let s = n.into_inner();
                out.push(s);
                assert(out@.map_values(|h: String| h@) =~= before.push(s@));
            },
            Err(_) => {},
        }
        i = i + 1;
    }
    assert(hv.take(hosts.len() as int) == hv);
    out
}

/// Validates static route entries, skipping bad backends and bad hostnames, and
/// entries left with no hostname.
pub fn prepare_static_routes(entries: &[StaticRouteConfig]) -> (r: Vec<PreparedStaticRoute>)
    ensures
        prepared_view(r@) == prepared_spec(entries@.map_values(|c: StaticRouteConfig| config_view(c))),
{
    let ghost cv = entries@.map_values(|c: StaticRouteConfig| config_view(c));
    let mut out: Vec<PreparedStaticRoute> = Vec::new();
    let mut i: usize = 0;
    while i < entries.len()
        invariant
            i <= entries.len(),
            cv == entries@.map_values(|c: StaticRouteConfig| config_view(c)),
            prepared_view(out@) == prepared_spec(cv.take(i as int)),
        decreases entries.len() - i,
    {
        assert(cv.take(i + 1).drop_last() == cv.take(i as int));
        assert(cv.take(i + 1).last() == config_view(entries@[i as int]));
        let e = &entries[i];
        match parse_backend_url(e.backend.as_str()) {
            Err(_) => {},
            Ok(backend) => {
                let hosts = normalize_all(&e.hosts);
                if hosts.len() > 0 {
                    let backend_url = backend.base_url();
                    let p = PreparedStaticRoute { hosts, backend, backend_url };
                    let ghost before = prepared_view(out@);
                    out.push(p);
                    assert(prepared_view(out@) =~= before.push(p@));
                }
            },
        }
        i = i + 1;
    }
    assert(cv.take(entries.len() as int) == cv);
    out
}

/// The state `apply_static_routes` works on.
pub struct StaticAcc {
    pub local: Map<Seq<char>, BackendRouteV>,
    pub api: Seq<EntryV>,
    pub hb: Seq<(Seq<char>, Seq<char>)>,
    pub written: nat,
    pub overridden: nat,
}

pub open spec fn static_route_v(p: PreparedV) -> BackendRouteV {
    BackendRouteV { host: p.host, port: p.port, container_id: None, container_name: Some("static"@) }
}

pub open spec fn static_entry(h: Seq<char>, p: PreparedV) -> EntryV {
    EntryV { hostname: h, backend: p.backend_url, container_id: None, container_name: Some("static"@) }
}

/// One static hostname applied: it replaces any route of that hostname, in the
/// local table and in the registration and heartbeat lists.
pub open spec fn apply_step(st: StaticAcc, h: Seq<char>, p: PreparedV) -> StaticAcc {
    let over = st.local.contains_key(h);
    StaticAcc {
        local: st.local.insert(h, static_route_v(p)),
        api: (if over {
            st.api.filter(other_entry(h))
        } else {
            st.api
        }).push(static_entry(h, p)),
        hb: (if over {
            st.hb.filter(other_ref(h))
        } else {
            st.hb
        }).push((h, base_url_spec(p.host, p.port))),
        written: st.written + 1,
        overridden: if over {
            st.overridden + 1
        } else {
            st.overridden
        },
    }
}

pub open spec fn pair_with(p: PreparedV) -> spec_fn(Seq<char>) -> (Seq<char>, PreparedV) {
    |h: Seq<char>| (h, p)
}

pub open spec fn pair_svc(s: DiscoveredService) -> spec_fn(Seq<char>) -> (Seq<char>, DiscoveredService) {
    |h: Seq<char>| (h, s)
}

/// Each hostname of each static route, with its route, in order.
pub open spec fn static_pairs(ps: Seq<PreparedV>) -> Seq<(Seq<char>, PreparedV)>
    decreases ps.len(),
{
    if ps.len() == 0 {
        Seq::empty()
    } else {
        static_pairs(ps.drop_last()) + ps.last().hosts.map_values(pair_with(ps.last()))
    }
}

pub open spec fn apply_pairs(st: StaticAcc, pairs: Seq<(Seq<char>, PreparedV)>) -> StaticAcc
    decreases pairs.len(),
{
    if pairs.len() == 0 {
        st
    } else {
        apply_step(apply_pairs(st, pairs.drop_last()), pairs.last().0, pairs.last().1)
    }
}

proof fn lemma_pairs_len_mono(s: Seq<PreparedV>, k: int)
    requires
        0 <= k <= s.len(),
    ensures
        static_pairs(s.take(k)).len() <= static_pairs(s).len(),
    decreases s.len() - k,
{
    if k < s.len() {
        lemma_pairs_len_mono(s, k + 1);
        assert(s.take(k + 1).drop_last() == s.take(k));
    } else {
        assert(s.take(k) == s);
    }
}

proof fn lemma_apply_counts(st: StaticAcc, pairs: Seq<(Seq<char>, PreparedV)>)
    ensures
        apply_pairs(st, pairs).written == st.written + pairs.len(),
        apply_pairs(st, pairs).overridden <= st.overridden + pairs.len(),
    decreases pairs.len(),
{
    if pairs.len() > 0 {
        lemma_apply_counts(st, pairs.drop_last());
    }
}

/// Applies static routes over the routes built from Docker. Returns
/// `(hostnames written, Docker hostnames overridden)`.
pub fn apply_static_routes(
    local: &mut RouteTable,
    api_routes: &mut Vec<RouteEntry>,
    hb_refs: &mut Vec<HeartbeatRouteRef>,
    static_routes: &[PreparedStaticRoute],
) -> (r: (usize, usize))
    requires
        old(local).wf(),
        static_pairs(prepared_view(static_routes@)).len() <= usize::MAX,
    ensures
        final(local).wf(),
        ({
            let out = apply_pairs(
                StaticAcc {
                    local: old(local).map(),
                    api: entries_view(old(api_routes)@),
                    hb: hbs_view(old(hb_refs)@),
                    written: 0,
                    overridden: 0,
                },
                static_pairs(prepared_view(static_routes@)),
            );
            &&& final(local).map() == out.local
            &&& entries_view(final(api_routes)@) == out.api
            &&& hbs_view(final(hb_refs)@) == out.hb
            &&& r.0 == out.written
            &&& r.1 == out.overridden
        }),
{
    let ghost sv = prepared_view(static_routes@);
    let ghost st0 = StaticAcc {
        local: local.map(),
        api: entries_view(api_routes@),
        hb: hbs_view(hb_refs@),
        written: 0,
        overridden: 0,
    };
    let mut written: usize = 0;
    let mut overridden: usize = 0;
    let mut i: usize = 0;
    assert(sv.take(0) =~= Seq::<PreparedV>::empty());
    while i < static_routes.len()
        invariant
            i <= static_routes.len(),
            sv == prepared_view(static_routes@),
            st0.written == 0,
            st0.overridden == 0,
            static_pairs(sv).len() <= usize::MAX,
            local.wf(),
            ({
                let out = apply_pairs(st0, static_pairs(sv.take(i as int)));
                &&& local.map() == out.local
                &&& entries_view(api_routes@) == out.api
                &&& hbs_view(hb_refs@) == out.hb
                &&& written == out.written
                &&& overridden == out.overridden
            }),
        decreases static_routes.len() - i,
    {
        let sr = &static_routes[i];
        let ghost p = sv[i as int];
        assert(p == sr@);
        let ghost base = static_pairs(sv.take(i as int));
        let ghost hs = p.hosts;
        proof {
            assert(sv.take(i + 1).drop_last() == sv.take(i as int));
            assert(sv.take(i + 1).last() == p);
            assert(static_pairs(sv.take(i + 1)) == base + hs.map_values(pair_with(p)));
            lemma_pairs_len_mono(sv, i + 1);
            assert(hs.take(0) =~= Seq::<Seq<char>>::empty());
            assert(base + hs.take(0).map_values(pair_with(p)) =~= base);
        }
        let mut j: usize = 0;
        while j < sr.hosts.len()
            invariant
                i < static_routes.len(),
                sr == &static_routes[i as int],
                p == sr@,
                hs == p.hosts,
                hs.len() == sr.hosts.len(),
                st0.written == 0,
                st0.overridden == 0,
                j <= sr.hosts.len(),
                local.wf(),
                (base + hs.map_values(pair_with(p))).len() <= usize::MAX,
                ({
                    let out = apply_pairs(st0, base + hs.take(j as int).map_values(pair_with(p)));
                    &&& local.map() == out.local
                    &&& entries_view(api_routes@) == out.api
                    &&& hbs_view(hb_refs@) == out.hb
                    &&& written == out.written
                    &&& overridden == out.overridden
                }),
            decreases sr.hosts.len() - j,
        {
            let host = &sr.hosts[j];
            let ghost h = host@;
            let ghost prev = base + hs.take(j as int).map_values(pair_with(p));
            let ghost next = base + hs.take(j + 1).map_values(pair_with(p));
            proof {
                assert(hs[j as int] == h);
                assert(next.drop_last() =~= prev);
                assert(next.last() == (h, p));
                lemma_apply_counts(st0, prev);
                assert(apply_pairs(st0, prev).written == written);
                assert(prev.len() == base.len() + j);
                assert(prev.len() < (base + hs.map_values(pair_with(p))).len());
                assert(written == prev.len());
                assert(overridden <= prev.len());
            }
            if local.contains_key(host.as_str()) {
                overridden = overridden + 1;
                retain_other_entries(api_routes, host.as_str());
                retain_other_refs(hb_refs, host.as_str());
            }
            local.insert(
                host.clone(),
                BackendRoute {
                    backend: sr.backend.duplicate(),
                    container_id: None,
                    container_name: Some("static".to_string()),
                },
            );
            let e = RouteEntry {
                hostname: host.clone(),
                backend: sr.backend_url.clone(),
                container_id: None,
                container_name: Some("static".to_string()),
            };
            let ghost before_api = entries_view(api_routes@);
            api_routes.push(e);
            assert(entries_view(api_routes@) =~= before_api.push(entry_v(e)));
            let f = HeartbeatRouteRef { hostname: host.clone(), backend_fingerprint: sr.backend.fingerprint() };
            let ghost before_hb = hbs_view(hb_refs@);
            hb_refs.push(f);
            assert(hbs_view(hb_refs@) =~= before_hb.push(hb_v(f)));
            written = written + 1;
            j = j + 1;
        }
        assert(hs.take(hs.len() as int) == hs);
        i = i + 1;
    }
    assert(sv.take(static_routes.len() as int) == sv);
    (written, overridden)
}

/// Registration entries of hostname `h`.
pub open spec fn same_entry(h: Seq<char>) -> spec_fn(EntryV) -> bool {
    |e: EntryV| e.hostname == h
}

/// Every registered hostname is also served locally.
pub open spec fn acc_consistent(st: StaticAcc) -> bool {
    forall|i: int| 0 <= i < st.api.len() ==> st.local.contains_key(#[trigger] st.api[i].hostname)
}

/// The route of the last static pair that names `h`.
pub open spec fn last_static(pairs: Seq<(Seq<char>, PreparedV)>, h: Seq<char>) -> Option<PreparedV>
    decreases pairs.len(),
{
    if pairs.len() == 0 {
        None
    } else if pairs.last().0 == h {
        Some(pairs.last().1)
    } else {
        last_static(pairs.drop_last(), h)
    }
}

proof fn lemma_filter_push(s: Seq<EntryV>, x: EntryV, p: spec_fn(EntryV) -> bool)
    ensures
        s.push(x).filter(p) == if p(x) {
            s.filter(p).push(x)
        } else {
            s.filter(p)
        },
{
    reveal(Seq::filter);
    assert(s.push(x).drop_last() =~= s);
}

proof fn lemma_filter_none(s: Seq<EntryV>, p: spec_fn(EntryV) -> bool)
    requires
        forall|i: int| 0 <= i < s.len() ==> !p(#[trigger] s[i]),
    ensures
        s.filter(p) == Seq::<EntryV>::empty(),
    decreases s.len(),
{
    reveal(Seq::filter);
    if s.len() > 0 {
        assert forall|i: int| 0 <= i < s.drop_last().len() implies !p(#[trigger] s.drop_last()[i]) by {
            assert(s.drop_last()[i] == s[i]);
        }
        lemma_filter_none(s.drop_last(), p);
    }
}

proof fn lemma_filter_other_then_same(s: Seq<EntryV>, h: Seq<char>, h2: Seq<char>)
    ensures
        s.filter(other_entry(h2)).filter(same_entry(h)) == if h == h2 {
            Seq::<EntryV>::empty()
        } else {
            s.filter(same_entry(h))
        },
    decreases s.len(),
{
    reveal(Seq::filter);
    if s.len() > 0 {
        lemma_filter_other_then_same(s.drop_last(), h, h2);
        let x = s.last();
        let t = s.drop_last().filter(other_entry(h2));
        if other_entry(h2)(x) {
            lemma_filter_push(t, x, same_entry(h));
        }
    }
}

proof fn lemma_filter_subset(s: Seq<EntryV>, p: spec_fn(EntryV) -> bool, i: int)
    requires
        0 <= i < s.filter(p).len(),
    ensures
        s.contains(s.filter(p)[i]),
    decreases s.len(),
{
    reveal(Seq::filter);
    if s.len() > 0 {
        let t = s.drop_last().filter(p);
        if p(s.last()) && i == t.len() {
            assert(s[s.len() - 1] == s.last());
        } else {
            lemma_filter_subset(s.drop_last(), p, i);
            let k = choose|k: int| 0 <= k < s.drop_last().len() && s.drop_last()[k] == s.filter(p)[i];
            assert(s[k] == s.drop_last()[k]);
        }
    }
}

proof fn lemma_apply_consistent(st: StaticAcc, pairs: Seq<(Seq<char>, PreparedV)>)
    requires
        acc_consistent(st),
    ensures
        acc_consistent(apply_pairs(st, pairs)),
    decreases pairs.len(),
{
    if pairs.len() > 0 {
        lemma_apply_consistent(st, pairs.drop_last());
        let mid = apply_pairs(st, pairs.drop_last());
        let (h, p) = pairs.last();
        let out = apply_step(mid, h, p);
        let kept = if mid.local.contains_key(h) {
            mid.api.filter(other_entry(h))
        } else {
            mid.api
        };
        assert forall|i: int| 0 <= i < out.api.len() implies out.local.contains_key(#[trigger] out.api[i].hostname) by {
            if i < kept.len() {
                assert(out.api[i] == kept[i]);
                if mid.local.contains_key(h) {
                    lemma_filter_subset(mid.api, other_entry(h), i);
                    let k = choose|k: int| 0 <= k < mid.api.len() && mid.api[k] == kept[i];
                    assert(mid.local.contains_key(mid.api[k].hostname));
                } else {
                    assert(mid.local.contains_key(mid.api[i].hostname));
                }
            }
        }
    }
}

/// Static routes override Docker on the same hostname: after they are applied,
/// a hostname that a static route names is served by the last static route
/// naming it, and registered exactly once, as that route. (The routes taken
/// from Docker are consistent: each registered hostname is served locally.)
pub proof fn lemma_static_overrides_docker(st: StaticAcc, pairs: Seq<(Seq<char>, PreparedV)>, h: Seq<char>)
    requires
        acc_consistent(st),
        last_static(pairs, h) is Some,
    ensures
        apply_pairs(st, pairs).local.contains_key(h),
        apply_pairs(st, pairs).local[h] == static_route_v(last_static(pairs, h)->Some_0),
        apply_pairs(st, pairs).api.filter(same_entry(h)) == seq![static_entry(h, last_static(pairs, h)->Some_0)],
    decreases pairs.len(),
{
    let mid = apply_pairs(st, pairs.drop_last());
    let (h2, p) = pairs.last();
    lemma_apply_consistent(st, pairs.drop_last());
    let kept = if mid.local.contains_key(h2) {
        mid.api.filter(other_entry(h2))
    } else {
        mid.api
    };
    lemma_filter_push(kept, static_entry(h2, p), same_entry(h));
    if h2 == h {
        if mid.local.contains_key(h2) {
            lemma_filter_other_then_same(mid.api, h, h2);
        } else {
            assert forall|i: int| 0 <= i < mid.api.len() implies !same_entry(h)(#[trigger] mid.api[i]) by {
                assert(mid.local.contains_key(mid.api[i].hostname));
            }
            lemma_filter_none(mid.api, same_entry(h));
        }
        assert(Seq::<EntryV>::empty().push(static_entry(h, p)) =~= seq![static_entry(h, p)]);
    } else {
        lemma_static_overrides_docker(st, pairs.drop_last(), h);
        if mid.local.contains_key(h2) {
            lemma_filter_other_then_same(mid.api, h, h2);
        }
    }
}

// ---------------------------------------------------------------- docker routes

/// Every hostname of every container whose backend resolves, with the container.
pub open spec fn docker_pairs(svcs: Seq<DiscoveredService>) -> Seq<(Seq<char>, DiscoveredService)>
    decreases svcs.len(),
{
    if svcs.len() == 0 {
        Seq::empty()
    } else {
        let prev = docker_pairs(svcs.drop_last());
        let s = svcs.last();
        if resolve_spec(s) is Some {
            prev + host_views(s.labels.hosts@).map_values(pair_svc(s))
        } else {
            prev
        }
    }
}

pub open spec fn docker_route_v(s: DiscoveredService) -> BackendRouteV {
    let b = resolve_spec(s)->Some_0;
    BackendRouteV {
        host: b.0,
        port: b.1,
        container_id: Some(s.container_id@),
        container_name: Some(s.container_name@),
    }
}

pub open spec fn docker_entry(h: Seq<char>, s: DiscoveredService) -> EntryV {
    let b = resolve_spec(s)->Some_0;
    EntryV {
        hostname: h,
        backend: base_url_spec(b.0, b.1),
        container_id: Some(s.container_id@),
        container_name: Some(s.container_name@),
    }
}

pub open spec fn docker_entry_fn() -> spec_fn((Seq<char>, DiscoveredService)) -> EntryV {
    |x: (Seq<char>, DiscoveredService)| docker_entry(x.0, x.1)
}

pub open spec fn docker_ref_fn() -> spec_fn((Seq<char>, DiscoveredService)) -> (Seq<char>, Seq<char>) {
    |x: (Seq<char>, DiscoveredService)|
        (x.0, base_url_spec(resolve_spec(x.1)->Some_0.0, resolve_spec(x.1)->Some_0.1))
}

pub open spec fn docker_local(pairs: Seq<(Seq<char>, DiscoveredService)>) -> Map<Seq<char>, BackendRouteV>
    decreases pairs.len(),
{
    if pairs.len() == 0 {
        Map::empty()
    } else {
        docker_local(pairs.drop_last()).insert(pairs.last().0, docker_route_v(pairs.last().1))
    }
}

proof fn lemma_docker_pairs_concat(a: Seq<DiscoveredService>, b: Seq<DiscoveredService>)
    ensures
        docker_pairs(a + b) == docker_pairs(a) + docker_pairs(b),
    decreases b.len(),
{
    if b.len() == 0 {
        assert(a + b =~= a);
        assert(docker_pairs(a) + docker_pairs(b) =~= docker_pairs(a));
    } else {
        lemma_docker_pairs_concat(a, b.drop_last());
        assert((a + b).drop_last() =~= a + b.drop_last());
        assert((a + b).last() == b.last());
        let s = b.last();
        let x = host_views(s.labels.hosts@).map_values(pair_svc(s));
        if resolve_spec(s) is Some {
            assert(docker_pairs(a) + docker_pairs(b.drop_last()) + x =~= docker_pairs(a) + (docker_pairs(
                b.drop_last(),
            ) + x));
        }
    }
}

/// `x` pairs a hostname with a container of `svcs` that lists it and resolves.
pub open spec fn pair_from(svcs: Seq<DiscoveredService>, x: (Seq<char>, DiscoveredService)) -> bool {
    exists|i: int|
        0 <= i < svcs.len() && x.1 == #[trigger] svcs[i] && resolve_spec(svcs[i]) is Some && host_views(
            svcs[i].labels.hosts@,
        ).contains(x.0)
}

proof fn lemma_docker_pairs_from(svcs: Seq<DiscoveredService>)
    ensures
        forall|k: int| 0 <= k < docker_pairs(svcs).len() ==> pair_from(svcs, #[trigger] docker_pairs(svcs)[k]),
    decreases svcs.len(),
{
    if svcs.len() > 0 {
        let t = svcs.drop_last();
        lemma_docker_pairs_from(t);
        let prev = docker_pairs(t);
        let s = svcs.last();
        let hv = host_views(s.labels.hosts@);
        let x = hv.map_values(pair_svc(s));
        assert forall|k: int| 0 <= k < docker_pairs(svcs).len() implies pair_from(svcs, #[trigger] docker_pairs(svcs)[k]) by {
            if k < prev.len() {
                if resolve_spec(s) is Some {
                    assert(docker_pairs(svcs)[k] == (prev + x)[k]);
                }
                assert(docker_pairs(svcs)[k] == prev[k]);
                assert(pair_from(t, prev[k]));
                let i = choose|i: int|
                    0 <= i < t.len() && prev[k].1 == #[trigger] t[i] && resolve_spec(t[i]) is Some
                        && host_views(t[i].labels.hosts@).contains(prev[k].0);
                assert(svcs[i] == t[i]);
            } else {
                assert(resolve_spec(s) is Some);
                let m = k - prev.len();
                assert(docker_pairs(svcs)[k] == x[m]);
                assert(x[m] == (hv[m], s));
                assert(svcs[svcs.len() - 1] == s);
                assert(hv.contains(hv[m]));
            }
        }
    } else {
        assert(docker_pairs(svcs) =~= Seq::<(Seq<char>, DiscoveredService)>::empty());
    }
}

proof fn lemma_docker_local_from(p: Seq<(Seq<char>, DiscoveredService)>, h: Seq<char>)
    requires
        docker_local(p).contains_key(h),
    ensures
        exists|k: int| 0 <= k < p.len() && (#[trigger] p[k]).0 == h && docker_local(p)[h] == docker_route_v(p[k].1),
    decreases p.len(),
{
    if p.len() > 0 {
        if p.last().0 == h {
            assert(p[p.len() - 1] == p.last());
        } else {
            lemma_docker_local_from(p.drop_last(), h);
            let k = choose|k: int|
                0 <= k < p.drop_last().len() && (#[trigger] p.drop_last()[k]).0 == h && docker_local(p.drop_last())[h]
                    == docker_route_v(p.drop_last()[k].1);
            assert(p[k] == p.drop_last()[k]);
        }
    }
}

/// Every hostname the local proxy serves from Docker is served at exactly the
/// backend that resolution gives for a container that lists the hostname
/// (host and port), tagged with that container; and the controller is told
/// the same backend, `http://host:port/`, for that hostname and container.
pub proof fn lemma_local_routes_resolve(svcs: Seq<DiscoveredService>, h: Seq<char>)
    requires
        docker_local(docker_pairs(svcs)).contains_key(h),
    ensures
        ({
            let r = docker_local(docker_pairs(svcs))[h];
            exists|i: int|
                0 <= i < svcs.len() && host_views(svcs[i].labels.hosts@).contains(h) && resolve_spec(#[trigger] svcs[i])
                    == Some((r.host, r.port)) && r.container_id == Some(svcs[i].container_id@) && r.container_name
                    == Some(svcs[i].container_name@)
        }),
        ({
            let r = docker_local(docker_pairs(svcs))[h];
            let es = docker_pairs(svcs).map_values(docker_entry_fn());
            exists|j: int|
                0 <= j < es.len() && (#[trigger] es[j]).hostname == h && es[j].backend == base_url_spec(r.host, r.port)
                    && es[j].container_id == r.container_id
        }),
{
    let p = docker_pairs(svcs);
    lemma_docker_local_from(p, h);
    lemma_docker_pairs_from(svcs);
    let k = choose|k: int| 0 <= k < p.len() && (#[trigger] p[k]).0 == h && docker_local(p)[h] == docker_route_v(p[k].1);
    assert(pair_from(svcs, p[k]));
    let i = choose|i: int|
        0 <= i < svcs.len() && p[k].1 == #[trigger] svcs[i] && resolve_spec(svcs[i]) is Some && host_views(
            svcs[i].labels.hosts@,
        ).contains(p[k].0);
    let es = p.map_values(docker_entry_fn());
    assert(es[k] == docker_entry(p[k].0, p[k].1));
    assert(es[k].hostname == h);
}

/// A container whose backend does not resolve takes nothing away from the
/// others: wherever it stands in the list, the routes built from the list are
/// those built without it.
pub proof fn lemma_unresolvable_service_ignored(
    before: Seq<DiscoveredService>,
    bad: DiscoveredService,
    after: Seq<DiscoveredService>,
)
    requires
        resolve_spec(bad) is None,
    ensures
        docker_pairs(before + seq![bad] + after) == docker_pairs(before + after),
        docker_local(docker_pairs(before + seq![bad] + after)) == docker_local(docker_pairs(before + after)),
{
    lemma_docker_pairs_concat(before + seq![bad], after);
    lemma_docker_pairs_concat(before, seq![bad]);
    lemma_docker_pairs_concat(before, after);
    assert(seq![bad].drop_last() =~= Seq::<DiscoveredService>::empty());
    assert(docker_pairs(Seq::<DiscoveredService>::empty()) =~= Seq::<(Seq<char>, DiscoveredService)>::empty());
    assert(seq![bad].last() == bad);
    assert(docker_pairs(seq![bad]) =~= Seq::<(Seq<char>, DiscoveredService)>::empty());
    assert(docker_pairs(before) + docker_pairs(seq![bad]) =~= docker_pairs(before));
}

/// The routes derived from discovered containers.
pub struct DesiredRoutes {
    /// What the local proxy serves.
    pub local: RouteTable,
    /// What is registered with the controller.
    pub api_routes: Vec<RouteEntry>,
    /// What heartbeats report.
    pub hb_refs: Vec<HeartbeatRouteRef>,
}

/// Builds the route set from discovered containers; containers whose backend
/// does not resolve are skipped. A hostname listed twice keeps the later
/// container in the local table.
pub fn desired_from_services(services: &[DiscoveredService]) -> (r: DesiredRoutes)
    ensures
        r.local.wf(),
        r.local.map() == docker_local(docker_pairs(services@)),
        entries_view(r.api_routes@) == docker_pairs(services@).map_values(docker_entry_fn()),
        hbs_view(r.hb_refs@) == docker_pairs(services@).map_values(docker_ref_fn()),
{
    let mut local = RouteTable::new();
    let mut api_routes: Vec<RouteEntry> = Vec::new();
    let mut hb_refs: Vec<HeartbeatRouteRef> = Vec::new();
    let ghost sv = services@;
    let mut i: usize = 0;
    assert(sv.take(0) =~= Seq::<DiscoveredService>::empty());
    assert(local.map() =~= docker_local(docker_pairs(sv.take(0))));
    while i < services.len()
        invariant
            i <= services.len(),
            sv == services@,
            local.wf(),
            local.map() == docker_local(docker_pairs(sv.take(i as int))),
            entries_view(api_routes@) == docker_pairs(sv.take(i as int)).map_values(docker_entry_fn()),
            hbs_view(hb_refs@) == docker_pairs(sv.take(i as int)).map_values(docker_ref_fn()),
        decreases services.len() - i,
    {
        let svc = &services[i];
        let ghost s = sv[i as int];
        let ghost base = docker_pairs(sv.take(i as int));
        proof {
            assert(sv.take(i + 1).drop_last() == sv.take(i as int));
            assert(sv.take(i + 1).last() == s);
        }
        match resolve_backend(svc) {
            Err(_) => {},
            Ok(backend) => {
                let url = backend_url(&backend);
                let fp = backend.fingerprint();
                let ghost hs = host_views(svc.labels.hosts@);
                assert(hs.take(0) =~= Seq::<Seq<char>>::empty());
                assert(base + hs.take(0).map_values(pair_svc(s)) =~= base);
                let mut j: usize = 0;
                while j < svc.labels.hosts.len()
                    invariant
                        i < services.len(),
                        svc == &services[i as int],
                        s == sv[i as int],
                        s == *svc,
                        hs == host_views(svc.labels.hosts@),
                        resolve_spec(s) == Some((backend.host@, backend.port)),
                        url@ == base_url_spec(backend.host@, backend.port),
                        fp@ == base_url_spec(backend.host@, backend.port),
                        j <= svc.labels.hosts.len(),
                        local.wf(),
                        local.map() == docker_local(base + hs.take(j as int).map_values(pair_svc(s))),
                        entries_view(api_routes@) == (base + hs.take(j as int).map_values(pair_svc(s))).map_values(docker_entry_fn()),
                        hbs_view(hb_refs@) == (base + hs.take(j as int).map_values(pair_svc(s))).map_values(docker_ref_fn()),
                    decreases svc.labels.hosts.len() - j,
                {
                    let key = svc.labels.hosts[j].to_string();
                    let ghost h = key@;
                    let ghost prev = base + hs.take(j as int).map_values(pair_svc(s));
                    let ghost next = base + hs.take(j + 1).map_values(pair_svc(s));
                    proof {
                        assert(hs[j as int] == h);
                        assert(next.drop_last() =~= prev);
                        assert(next.last() == (h, s));
                    }
                    local.insert(
                        key.clone(),
                        BackendRoute {
                            backend: backend.duplicate(),
                            container_id: Some(svc.container_id.clone()),
                            container_name: Some(svc.container_name.clone()),
                        },
                    );
                    let e = RouteEntry {
                        hostname: key.clone(),
                        backend: url.clone(),
                        container_id: Some(svc.container_id.clone()),
                        container_name: Some(svc.container_name.clone()),
                    };
                    let ghost before_api = entries_view(api_routes@);
                    api_routes.push(e);
                    proof {
                        assert(entries_view(api_routes@) =~= before_api.push(entry_v(e)));
                        assert(next.map_values(docker_entry_fn())
                            =~= prev.map_values(docker_entry_fn()).push(
                            docker_entry(h, s),
                        ));
                    }
                    let f = HeartbeatRouteRef { hostname: key, backend_fingerprint: fp.clone() };
                    let ghost before_hb = hbs_view(hb_refs@);
                    hb_refs.push(f);
                    proof {
                        assert(hbs_view(hb_refs@) =~= before_hb.push(hb_v(f)));
                        assert(next.map_values(docker_ref_fn()) =~= prev.map_values(docker_ref_fn()).push((h, base_url_spec(backend.host@, backend.port))));
                    }
                    j = j + 1;
                }
                assert(hs.take(hs.len() as int) == hs);
            },
        }
        i = i + 1;
    }
    assert(sv.take(services.len() as int) == sv);
    DesiredRoutes { local, api_routes, hb_refs }
}

} // verus!
