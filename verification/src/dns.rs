//! The controller's DNS: the registry of service hostnames, how each query is
//! answered, how per-query outcomes make the response code, loop protection,
//! and the capped cache of upstream answers.

use vstd::prelude::*;
pub use crate::net::parse_ipv4;
use crate::net::{ipv4_spec, Ipv4};
use crate::store::DnsRoute;
use crate::text::{chars_eq, from_chars, lower_chars, lower_seq, to_chars};

verus! {

// ---------------------------------------------------------------- registry

/// The map that a list of (hostname, address) pairs makes, later pairs winning.
pub open spec fn fold_map(s: Seq<(Seq<char>, Ipv4)>) -> Map<Seq<char>, Ipv4>
    decreases s.len(),
{
    if s.len() == 0 {
        Map::empty()
    } else {
        fold_map(s.drop_last()).insert(s.last().0, s.last().1)
    }
}

pub open spec fn pairs_view(v: Seq<(String, Ipv4)>) -> Seq<(Seq<char>, Ipv4)> {
    v.map_values(|p: (String, Ipv4)| (p.0@, p.1))
}

/// `name` without trailing dots, as `trim_end_matches('.')` leaves it.
pub open spec fn trim_dots(s: Seq<char>) -> Seq<char>
    decreases s.len(),
{
    if s.len() > 0 && s.last() == '.' {
        trim_dots(s.drop_last())
    } else {
        s
    }
}

/// The registry key of a query name: trailing dots dropped, lower case.
pub open spec fn registry_key(name: Seq<char>) -> Seq<char> {
    lower_seq(trim_dots(name))
}

/// Service hostnames and the Tailscale IPv4 that answers for each.
pub struct DnsRegistry {
    entries: Vec<(String, Ipv4)>,
}

impl DnsRegistry {
    /// The registered names and addresses.
    pub closed spec fn map(&self) -> Map<Seq<char>, Ipv4> {
        fold_map(pairs_view(self.entries@))
    }

    /// An empty registry.
    pub fn new() -> (r: DnsRegistry)
        ensures
            r.map() == Map::<Seq<char>, Ipv4>::empty(),
    {
        DnsRegistry { entries: Vec::new() }
    }

    /// Serves `routes` from now on (a later pair of the same name wins).
    pub fn replace(&mut self, routes: Vec<(String, Ipv4)>)
        ensures
            final(self).map() == fold_map(pairs_view(routes@)),
    {
        self.entries = routes;
    }

    /// The address of `hostname` (trailing dots and case ignored).
    pub fn lookup_a(&self, hostname: &str) -> (r: Option<Ipv4>)
        ensures
            match r {
                Some(ip) => self.map().contains_key(registry_key(hostname@)) && self.map()[registry_key(
                    hostname@,
                )] == ip,
                None => !self.map().contains_key(registry_key(hostname@)),
            },
    {
        let cs = to_chars(hostname);
        let mut k: usize = cs.len();
        assert(hostname@.subrange(0, k as int) =~= hostname@);
        while k > 0 && cs[k - 1] == '.'
            invariant
                cs@ == hostname@,
                k <= cs.len(),
                trim_dots(hostname@) == trim_dots(hostname@.subrange(0, k as int)),
            decreases k,
        {
            assert(hostname@.subrange(0, k as int).drop_last() =~= hostname@.subrange(0, k - 1));
            k = k - 1;
        }
        let t = crate::text::slice_range(&cs, 0, k);
        let key = lower_chars(&t);
        let ghost pv = pairs_view(self.entries@);
        let mut i: usize = self.entries.len();
        assert(pv.take(i as int) =~= pv);
        while i > 0
            invariant
                i <= self.entries.len(),
                pv == pairs_view(self.entries@),
                key@ == registry_key(hostname@),
                fold_map(pv).contains_key(key@) == fold_map(pv.take(i as int)).contains_key(key@),
                fold_map(pv).contains_key(key@) ==> fold_map(pv)[key@] == fold_map(pv.take(i as int))[key@],
            decreases i,
        {
            let ghost t = pv.take(i as int);
            assert(t.drop_last() =~= pv.take(i - 1));
            assert(t.last() == (self.entries@[i - 1].0@, self.entries@[i - 1].1));
            let n = to_chars(self.entries[i - 1].0.as_str());
            if chars_eq(&n, &key) {
                return Some(self.entries[i - 1].1);
            }
            i = i - 1;
        }
        None
    }

    pub fn contains(&self, hostname: &str) -> (r: bool)
        ensures
            r == self.map().contains_key(registry_key(hostname@)),
    {
        self.lookup_a(hostname).is_some()
    }

    /// The registered pairs, in the order given; the registry is the map they make.
    pub fn snapshot(&self) -> (r: Vec<(String, Ipv4)>)
        ensures
            fold_map(pairs_view(r@)) == self.map(),
    {
        let mut out: Vec<(String, Ipv4)> = Vec::new();
        let mut i: usize = 0;
        while i < self.entries.len()
            invariant
                i <= self.entries.len(),
                pairs_view(out@) == pairs_view(self.entries@).take(i as int),
            decreases self.entries.len() - i,
        {
            let p = (self.entries[i].0.clone(), self.entries[i].1);
            let ghost before = pairs_view(out@);
            out.push(p);
            assert(p.0@ == self.entries@[i as int].0@);
            assert(pairs_view(out@) =~= before.push((p.0@, p.1)));
            assert(pairs_view(self.entries@).take(i + 1) =~= pairs_view(self.entries@).take(i as int).push(
                (p.0@, p.1),
            ));
            i = i + 1;
        }
        assert(pairs_view(self.entries@).take(self.entries.len() as int) == pairs_view(self.entries@));
        out
    }
}

/// Registry pairs from the controller's DNS routes: routes whose address does
/// not parse as IPv4 are left out.
pub open spec fn registry_pairs_spec(routes: Seq<(Seq<char>, Seq<char>)>) -> Seq<(Seq<char>, Ipv4)>
    decreases routes.len(),
{
    if routes.len() == 0 {
        Seq::empty()
    } else {
        let prev = registry_pairs_spec(routes.drop_last());
        match ipv4_spec(routes.last().1) {
            Some(ip) => prev.push((routes.last().0, ip)),
            None => prev,
        }
    }
}

pub fn registry_pairs(routes: &[DnsRoute]) -> (r: Vec<(String, Ipv4)>)
    ensures
        pairs_view(r@) == registry_pairs_spec(routes@.map_values(|d: DnsRoute| crate::store::dns_route_v(d))),
{
    let ghost rv = routes@.map_values(|d: DnsRoute| crate::store::dns_route_v(d));
    let mut out: Vec<(String, Ipv4)> = Vec::new();
    let mut i: usize = 0;
    while i < routes.len()
        invariant
            i <= routes.len(),
            rv == routes@.map_values(|d: DnsRoute| crate::store::dns_route_v(d)),
            pairs_view(out@) == registry_pairs_spec(rv.take(i as int)),
        decreases routes.len() - i,
    {
        assert(rv.take(i + 1).drop_last() == rv.take(i as int));
        assert(rv.take(i + 1).last() == crate::store::dns_route_v(routes@[i as int]));
        match parse_ipv4(routes[i].tailscale_ipv4.as_str()) {
            Some(ip) => {
                let ghost before = pairs_view(out@);
                let p = (routes[i].hostname.clone(), ip);
                out.push(p);
                assert(pairs_view(out@) =~= before.push((p.0@, ip)));
            },
            None => {},
        }
        i = i + 1;
    }
    assert(rv.take(routes.len() as int) == rv);
    out
}

// ---------------------------------------------------------------- answering

pub const RTYPE_A: u16 = 1;
pub const RTYPE_AAAA: u16 = 28;
pub const RCODE_NOERROR: u16 = 0;
pub const RCODE_SERVFAIL: u16 = 2;
pub const RCODE_NXDOMAIN: u16 = 3;
pub const RCODE_REFUSED: u16 = 5;

/// How one question is answered.
pub enum QueryPlan {
    /// One A record with this address and TTL.
    Answer(Ipv4, u32),
    /// No records, no error (AAAA for a service name).
    NoData,
    /// Ask the upstream resolvers.
    Forward,
}

/// Service names are answered locally: A with the registered address, AAAA
/// with no data; other types and other names go upstream.
pub fn plan_query(registry: &DnsRegistry, name: &str, qtype: u16, service_ttl: u32) -> (r: QueryPlan)
    ensures
        registry.map().contains_key(registry_key(name@)) && qtype == RTYPE_A ==> r == QueryPlan::Answer(
            registry.map()[registry_key(name@)],
            service_ttl,
        ),
        registry.map().contains_key(registry_key(name@)) && qtype == RTYPE_AAAA ==> r is NoData,
        !(registry.map().contains_key(registry_key(name@)) && (qtype == RTYPE_A || qtype == RTYPE_AAAA))
            ==> r is Forward,
{
    match registry.lookup_a(name) {
        Some(ip) => {
            if qtype == RTYPE_A {
                QueryPlan::Answer(ip, service_ttl)
            } else if qtype == RTYPE_AAAA {
                QueryPlan::NoData
            } else {
                QueryPlan::Forward
            }
        },
        None => QueryPlan::Forward,
    }
}

/// What came of one question.
pub enum QueryOutcome {
    /// Answered with this many records and this response code.
    Records(usize, u16),
    /// The lookup failed or ran out of time.
    Failed,
}

/// The response code the outcomes make, and whether any record was answered.
pub open spec fn combine_spec(os: Seq<QueryOutcome>) -> (u16, bool, bool)
    decreases os.len(),
{
    if os.len() == 0 {
        (RCODE_NOERROR, false, false)
    } else {
        let (rc, fail, ans) = combine_spec(os.drop_last());
        match os.last() {
            QueryOutcome::Records(n, c) => (
                if c != RCODE_NOERROR && n == 0 {
                    c
                } else {
                    rc
                },
                fail,
                ans || n > 0,
            ),
            QueryOutcome::Failed => (rc, true, ans),
        }
    }
}

/// The response code of a reply: the code of the last empty non-success
/// answer, or SERVFAIL when a question failed and nothing was answered (an
/// upstream failure is never turned into NXDOMAIN).
pub open spec fn response_code_spec(os: Seq<QueryOutcome>) -> u16 {
    let (rc, fail, ans) = combine_spec(os);
    if fail && !ans {
        RCODE_SERVFAIL
    } else {
        rc
    }
}

pub fn response_code(outcomes: &[QueryOutcome]) -> (r: u16)
    ensures
        r == response_code_spec(outcomes@),
{
    let mut rcode: u16 = RCODE_NOERROR;
    let mut any_fail = false;
    let mut any_answer = false;
    let mut i: usize = 0;
    while i < outcomes.len()
        invariant
            i <= outcomes.len(),
            (rcode, any_fail, any_answer) == combine_spec(outcomes@.take(i as int)),
        decreases outcomes.len() - i,
    {
        assert(outcomes@.take(i + 1).drop_last() == outcomes@.take(i as int));
        assert(outcomes@.take(i + 1).last() == outcomes@[i as int]);
        match &outcomes[i] {
            QueryOutcome::Records(n, c) => {
                if *c != RCODE_NOERROR && *n == 0 {
                    rcode = *c;
                }
                if *n > 0 {
                    any_answer = true;
                }
            },
            QueryOutcome::Failed => {
                any_fail = true;
            },
        }
        i = i + 1;
    }
    assert(outcomes@.take(outcomes.len() as int) == outcomes@);
    if any_fail && !any_answer {
        RCODE_SERVFAIL
    } else {
        rcode
    }
}

/// A transport address, by its printed IP and port.
#[derive(Debug, Clone)]
pub struct Endpoint {
    pub ip: String,
    pub port: u16,
}

pub open spec fn same_endpoint(a: Endpoint, b: Endpoint) -> bool {
    a.ip@ == b.ip@ && a.port == b.port
}

fn endpoint_eq(a: &Endpoint, b: &Endpoint) -> (r: bool)
    ensures
        r == same_endpoint(*a, *b),
{
    let x = to_chars(a.ip.as_str());
    let y = to_chars(b.ip.as_str());
    a.port == b.port && chars_eq(&x, &y)
}

/// Loop protection: a query from the server's own address is refused; when an
/// upstream is the server itself, a query with a name it does not serve fails.
pub open spec fn loop_guard_spec(
    peer: Option<Endpoint>,
    listen: Endpoint,
    upstreams: Seq<Endpoint>,
    registry: Map<Seq<char>, Ipv4>,
    names: Seq<Seq<char>>,
) -> Option<u16> {
    match peer {
        None => None,
        Some(p) => if same_endpoint(p, listen) {
            Some(RCODE_REFUSED)
        } else if (exists|u: int| 0 <= u < upstreams.len() && same_endpoint(#[trigger] upstreams[u], listen))
            && (exists|q: int| 0 <= q < names.len() && !registry.contains_key(registry_key(#[trigger] names[q]))) {
            Some(RCODE_SERVFAIL)
        } else {
            None
        },
    }
}

pub fn loop_guard(
    peer: Option<&Endpoint>,
    listen: &Endpoint,
    upstreams: &[Endpoint],
    registry: &DnsRegistry,
    names: &[String],
) -> (r: Option<u16>)
    ensures
        r == loop_guard_spec(
            match peer {
                Some(p) => Some(*p),
                None => None,
            },
            *listen,
            upstreams@,
            registry.map(),
            names@.map_values(|s: String| s@),
        ),
{
    let ghost nv = names@.map_values(|s: String| s@);
    let p = match peer {
        None => {
            return None;
        },
        Some(p) => p,
    };
    if endpoint_eq(p, listen) {
        return Some(RCODE_REFUSED);
    }
    let mut self_upstream = false;
    let mut u: usize = 0;
    while u < upstreams.len()
        invariant
            u <= upstreams.len(),
            self_upstream == exists|k: int| 0 <= k < u && same_endpoint(#[trigger] upstreams@[k], *listen),
        decreases upstreams.len() - u,
    {
        if endpoint_eq(&upstreams[u], listen) {
            self_upstream = true;
        }
        u = u + 1;
    }
    if !self_upstream {
        return None;
    }
    let mut q: usize = 0;
    while q < names.len()
        invariant
            q <= names.len(),
            nv == names@.map_values(|s: String| s@),
            !same_endpoint(*p, *listen),
            peer == Some(p),
            exists|k: int| 0 <= k < upstreams@.len() && same_endpoint(#[trigger] upstreams@[k], *listen),
            forall|k: int| 0 <= k < q ==> registry.map().contains_key(registry_key(#[trigger] nv[k])),
        decreases names.len() - q,
    {
        assert(nv[q as int] == names@[q as int]@);
        if !registry.contains(names[q].as_str()) {
            assert(!registry.map().contains_key(registry_key(nv[q as int])));
            return Some(RCODE_SERVFAIL);
        }
        q = q + 1;
    }
    None
}

// ---------------------------------------------------------------- cache

/// The cache lifetime of a positive upstream answer: its smallest record TTL,
/// capped; the cap when there are no records.
pub open spec fn positive_ttl_spec(ttls: Seq<u32>, cap_secs: u64) -> u64
    decreases ttls.len(),
{
    if ttls.len() == 0 {
        cap_secs
    } else {
        let prev = positive_ttl_spec(ttls.drop_last(), cap_secs);
        if (ttls.last() as u64) < prev {
            ttls.last() as u64
        } else {
            prev
        }
    }
}

pub fn positive_cache_ttl(ttls: &[u32], cap_secs: u64) -> (r: u64)
    ensures
        r == positive_ttl_spec(ttls@, cap_secs),
        r <= cap_secs,
        forall|i: int| 0 <= i < ttls@.len() ==> r <= ttls@[i],
{
    let mut m: u64 = cap_secs;
    let mut i: usize = 0;
    while i < ttls.len()
        invariant
            i <= ttls.len(),
            m == positive_ttl_spec(ttls@.take(i as int), cap_secs),
            m <= cap_secs,
            forall|k: int| 0 <= k < i ==> m <= ttls@[k],
        decreases ttls.len() - i,
    {
        assert(ttls@.take(i + 1).drop_last() == ttls@.take(i as int));
        assert(ttls@.take(i + 1).last() == ttls@[i as int]);
        if (ttls[i] as u64) < m {
            m = ttls[i] as u64;
        }
        i = i + 1;
    }
    assert(ttls@.take(ttls.len() as int) == ttls@);
    m
}

/// A cached answer and when it expires (milliseconds on a monotonic clock).
pub struct CacheEntry<R> {
    pub records: Vec<R>,
    pub rcode: u16,
    pub expires_ms: u64,
}

/// Upstream answers by (lower-cased name, record type).
pub struct ResponseCache<R> {
    entries: Vec<(Vec<char>, u16, CacheEntry<R>)>,
}

impl<R> ResponseCache<R> {
    pub closed spec fn keys_unique(&self) -> bool {
        forall|i: int, j: int|
            0 <= i < j < self.entries@.len() ==> (self.entries@[i].0@, self.entries@[i].1) != (
                self.entries@[j].0@,
                self.entries@[j].1,
            )
    }

    /// The entry of a key, if cached.
    pub closed spec fn lookup(&self, name: Seq<char>, qtype: u16) -> Option<(Seq<R>, u16, u64)> {
        if exists|i: int|
            0 <= i < self.entries@.len() && self.entries@[i].0@ == name && self.entries@[i].1 == qtype {
            let i = choose|i: int|
                0 <= i < self.entries@.len() && self.entries@[i].0@ == name && self.entries@[i].1 == qtype;
            Some((self.entries@[i].2.records@, self.entries@[i].2.rcode, self.entries@[i].2.expires_ms))
        } else {
            None
        }
    }

    #[verifier::type_invariant]
    closed spec fn inv(&self) -> bool {
        self.keys_unique()
    }

    proof fn lemma_lookup_at(&self, i: int)
        requires
            self.keys_unique(),
            0 <= i < self.entries@.len(),
        ensures
            self.lookup(self.entries@[i].0@, self.entries@[i].1) == Some(
                (self.entries@[i].2.records@, self.entries@[i].2.rcode, self.entries@[i].2.expires_ms),
            ),
    {
        let name = self.entries@[i].0@;
        let qtype = self.entries@[i].1;
        let j = choose|j: int|
            0 <= j < self.entries@.len() && self.entries@[j].0@ == name && self.entries@[j].1 == qtype;
        if j != i {
            if j < i {
                assert((self.entries@[j].0@, self.entries@[j].1) != (self.entries@[i].0@, self.entries@[i].1));
            } else {
                assert((self.entries@[i].0@, self.entries@[i].1) != (self.entries@[j].0@, self.entries@[j].1));
            }
        }
    }

    /// An empty cache.
    pub fn new() -> (r: ResponseCache<R>)
        ensures
            forall|n: Seq<char>, t: u16| #[trigger] r.lookup(n, t) is None,
    {
        ResponseCache { entries: Vec::new() }
    }

    fn index_of(&self, name: &[char], qtype: u16) -> (r: Option<usize>)
        ensures
            match r {
                Some(i) => i < self.entries@.len() && self.entries@[i as int].0@ == name@ && self.entries@[i as int].1
                    == qtype,
                None => forall|j: int|
                    0 <= j < self.entries@.len() ==> !(self.entries@[j].0@ == name@ && self.entries@[j].1 == qtype),
            },
    {
        let mut i: usize = 0;
        while i < self.entries.len()
            invariant
                i <= self.entries.len(),
                forall|j: int| 0 <= j < i ==> !(self.entries@[j].0@ == name@ && self.entries@[j].1 == qtype),
            decreases self.entries.len() - i,
        {
            if self.entries[i].1 == qtype && chars_eq(self.entries[i].0.as_slice(), name) {
                return Some(i);
            }
            i = i + 1;
        }
        None
    }
}

impl<R: Clone> ResponseCache<R> {
    /// The cached answer for `name` (any case) and `qtype`, if it has not
    /// expired at `now_ms`; an expired entry is dropped.
    pub fn get(&mut self, name: &str, qtype: u16, now_ms: u64) -> (r: Option<(Vec<R>, u16)>)
        ensures
            match old(self).lookup(lower_seq(name@), qtype) {
                None => r is None && forall|n: Seq<char>, t: u16| #[trigger] final(self).lookup(n, t) == old(self).lookup(n, t),
                Some((recs, rc, exp)) => if now_ms >= exp {
                    r is None && final(self).lookup(lower_seq(name@), qtype) is None && forall|n: Seq<char>, t: u16|
                        !(n == lower_seq(name@) && t == qtype) ==> #[trigger] final(self).lookup(n, t) == old(self).lookup(n, t)
                } else {
                    &&& r matches Some((v, c)) && c == rc && v@.len() == recs.len() && forall|i: int|
                        0 <= i < recs.len() ==> cloned::<R>(recs[i], #[trigger] v@[i])
                    &&& forall|n: Seq<char>, t: u16| #[trigger] final(self).lookup(n, t) == old(self).lookup(n, t)
                },
            },
    {
        proof {
            use_type_invariant(&*self);
        }
        let nc = to_chars(name);
        let key = lower_chars(&nc);
        match self.index_of(&key, qtype) {
            None => {
                proof {
                    if old(self).lookup(key@, qtype) is Some {
                        let j = choose|j: int|
                            0 <= j < self.entries@.len() && self.entries@[j].0@ == key@ && self.entries@[j].1 == qtype;
                        assert(!(self.entries@[j].0@ == key@ && self.entries@[j].1 == qtype));
                    }
                }
                None
            },
            Some(i) => {
                proof {
                    self.lemma_lookup_at(i as int);
                }
                if now_ms >= self.entries[i].2.expires_ms {
                    let ghost before = *self;
                    let mut entries: Vec<(Vec<char>, u16, CacheEntry<R>)> = Vec::new();
                    std::mem::swap(&mut entries, &mut self.entries);
                    let _ = entries.remove(i);
                    proof {
                        let e = entries@;
                        let b = before.entries@;
                        assert(e =~= b.remove(i as int));
                        assert forall|a: int, c: int|
                            0 <= a < c < e.len() implies (e[a].0@, e[a].1) != (e[c].0@, e[c].1) by {
                            let a2 = if a < i { a } else { a + 1 };
                            let c2 = if c < i { c } else { c + 1 };
                            assert(e[a] == b[a2]);
                            assert(e[c] == b[c2]);
                        }
                    }
                    self.entries = entries;
                    proof {
                        let e = self.entries@;
                        let b = before.entries@;
                        assert forall|n: Seq<char>, t: u16| !(n == key@ && t == qtype) implies #[trigger] self.lookup(n, t)
                            == before.lookup(n, t) by {
                            if before.lookup(n, t) is Some {
                                let j = choose|j: int| 0 <= j < b.len() && b[j].0@ == n && b[j].1 == t;
                                before.lemma_lookup_at(j);
                                let j2 = if j < i { j } else { j - 1 };
                                assert(j != i);
                                assert(e[j2] == b[j]);
                                self.lemma_lookup_at(j2);
                            } else {
                                if self.lookup(n, t) is Some {
                                    let j = choose|j: int| 0 <= j < e.len() && e[j].0@ == n && e[j].1 == t;
                                    let j2 = if j < i { j } else { j + 1 };
                                    assert(e[j] == b[j2]);
                                }
                            }
                        }
                        if self.lookup(key@, qtype) is Some {
                            let j = choose|j: int| 0 <= j < e.len() && e[j].0@ == key@ && e[j].1 == qtype;
                            let j2 = if j < i { j } else { j + 1 };
                            assert(e[j] == b[j2]);
                            assert(j2 != i);
                            if j2 < i {
                                assert((b[j2].0@, b[j2].1) != (b[i as int].0@, b[i as int].1));
                            } else {
                                assert((b[i as int].0@, b[i as int].1) != (b[j2].0@, b[j2].1));
                            }
                        }
                    }
                    return None;
                }
                let recs = self.entries[i].2.records.clone();
                Some((recs, self.entries[i].2.rcode))
            },
        }
    }
}

impl<R> ResponseCache<R> {
    /// Caches an answer for `ttl_ms` from `now_ms`, replacing any entry of the
    /// same key; a zero TTL caches nothing.
    pub fn put(&mut self, name: &str, qtype: u16, records: Vec<R>, rcode: u16, ttl_ms: u64, now_ms: u64)
        requires
            now_ms + ttl_ms <= u64::MAX,
        ensures
            ttl_ms == 0 ==> forall|n: Seq<char>, t: u16| #[trigger] final(self).lookup(n, t) == old(self).lookup(n, t),
            ttl_ms > 0 ==> final(self).lookup(lower_seq(name@), qtype) == Some((records@, rcode, (now_ms + ttl_ms) as u64)),
            ttl_ms > 0 ==> forall|n: Seq<char>, t: u16|
                !(n == lower_seq(name@) && t == qtype) ==> #[trigger] final(self).lookup(n, t) == old(self).lookup(n, t),
    {
        proof {
            use_type_invariant(&*self);
        }
        if ttl_ms == 0 {
            return;
        }
        let nc = to_chars(name);
        let key = lower_chars(&nc);
        let ghost kv = key@;
        let ghost rv = records@;
        let entry = CacheEntry { records, rcode, expires_ms: now_ms + ttl_ms };
        let ghost before = *self;
        let idx = self.index_of(&key, qtype);
        let mut entries: Vec<(Vec<char>, u16, CacheEntry<R>)> = Vec::new();
        std::mem::swap(&mut entries, &mut self.entries);
        match idx {
            Some(i) => {
                entries.set(i, (key, qtype, entry));
            },
            None => {
                entries.push((key, qtype, entry));
            },
        }
        proof {
            let e = entries@;
            let b = before.entries@;
            assert forall|a: int, c: int| 0 <= a < c < e.len() implies (e[a].0@, e[a].1) != (e[c].0@, e[c].1) by {
                match idx {
                    Some(i) => {
                        assert(e[a].0@ == b[a].0@ && e[a].1 == b[a].1);
                        assert(e[c].0@ == b[c].0@ && e[c].1 == b[c].1);
                    },
                    None => {
                        assert(e[a] == b[a]);
                        if c < b.len() {
                            assert(e[c] == b[c]);
                        }
                    },
                }
            }
        }
        self.entries = entries;
        proof {
            let e = self.entries@;
            let b = before.entries@;
            let last = match idx {
                Some(i) => i as int,
                None => b.len() as int,
            };
            assert(e[last].0@ == kv && e[last].1 == qtype);
            self.lemma_lookup_at(last);
            assert forall|n: Seq<char>, t: u16| !(n == kv && t == qtype) implies #[trigger] self.lookup(n, t)
                == before.lookup(n, t) by {
                if before.lookup(n, t) is Some {
                    let j = choose|j: int| 0 <= j < b.len() && b[j].0@ == n && b[j].1 == t;
                    before.lemma_lookup_at(j);
                    assert(j != last);
                    assert(e[j] == b[j]);
                    self.lemma_lookup_at(j);
                } else {
                    if self.lookup(n, t) is Some {
                        let j = choose|j: int| 0 <= j < e.len() && e[j].0@ == n && e[j].1 == t;
                        if j != last {
                            assert(e[j] == b[j]);
                        }
                    }
                }
            }
        }
    }
}

// ---------------------------------------------------------------- server settings

/// DNS server settings (durations in milliseconds).
pub struct DnsServerConfig {
    pub listen: Endpoint,
    pub upstreams: Vec<Endpoint>,
    pub service_ttl: u32,
    pub upstream_timeout_ms: u64,
    /// Cap for positive upstream TTLs.
    pub positive_cache_max_ms: u64,
    /// Cap for negative upstream caching.
    pub negative_cache_max_ms: u64,
    /// Overall per-query budget.
    pub query_timeout_ms: u64,
}

impl DnsServerConfig {
    /// Settings with the default cache caps (300 s positive, 30 s negative) and
    /// a 5 s per-query budget.
    pub fn with_defaults(listen: Endpoint, upstreams: Vec<Endpoint>, service_ttl: u32, upstream_timeout_ms: u64) -> (r:
        DnsServerConfig)
        ensures
            r.listen == listen,
            r.upstreams == upstreams,
            r.service_ttl == service_ttl,
            r.upstream_timeout_ms == upstream_timeout_ms,
            r.positive_cache_max_ms == 300000,
            r.negative_cache_max_ms == 30000,
            r.query_timeout_ms == 5000,
    {
        DnsServerConfig {
            listen,
            upstreams,
            service_ttl,
            upstream_timeout_ms,
            positive_cache_max_ms: 300000,
            negative_cache_max_ms: 30000,
            query_timeout_ms: 5000,
        }
    }
}


/// What an upstream lookup gave.
pub enum UpstreamLookup {
    /// Records with these TTLs (seconds).
    Records(Vec<u32>),
    /// The name has no records.
    NoRecords,
    /// The upstreams failed.
    Failed,
}

/// The response code of a forwarded answer and how long (seconds) to cache it:
/// records are cached for their smallest TTL up to the positive cap; a name
/// without records is NXDOMAIN, cached for the negative cap; a failure is
/// neither answered nor cached.
pub fn upstream_plan(outcome: &UpstreamLookup, positive_cap_secs: u64, negative_cap_secs: u64) -> (r: Option<(u16, u64)>)
    ensures
        match outcome {
            UpstreamLookup::Records(ttls) => r == Some((RCODE_NOERROR, positive_ttl_spec(ttls@, positive_cap_secs))),
            UpstreamLookup::NoRecords => r == Some((RCODE_NXDOMAIN, negative_cap_secs)),
            UpstreamLookup::Failed => r is None,
        },
{
    match outcome {
        UpstreamLookup::Records(ttls) => Some((RCODE_NOERROR, positive_cache_ttl(ttls.as_slice(), positive_cap_secs))),
        UpstreamLookup::NoRecords => Some((RCODE_NXDOMAIN, negative_cap_secs)),
        UpstreamLookup::Failed => None,
    }
}
} // verus!
