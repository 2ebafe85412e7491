//! Controller state: agents, their credentials, enrollment tokens and route
//! ownership with leases. Times are milliseconds
//! since the Unix epoch; `now` is an argument of every decision.

use vstd::prelude::*;
use crate::api::{RouteConflict, RouteEntry};
use crate::auth::{generate_token, hash_token, hash_token_spec, verify_token};
use crate::text::{chars_eq, from_chars, lower_chars, lower_seq, push_str, to_chars};

verus! {

/// Largest timestamp or duration magnitude kept (2^60 ms, far beyond any clock).
pub const TIME_BOUND: i64 = 1152921504606846976;

pub open spec fn time_ok(t: i64) -> bool {
    -TIME_BOUND <= t <= TIME_BOUND
}

pub open spec fn opt_time_ok(t: Option<i64>) -> bool {
    match t {
        Some(x) => time_ok(x),
        None => true,
    }
}

pub open spec fn sv(o: Option<String>) -> Option<Seq<char>> {
    match o {
        Some(s) => Some(s@),
        None => None,
    }
}

/// An enrolled agent.
#[derive(Debug, Clone)]
pub struct AgentRow {
    pub agent_id: String,
    pub display_name: String,
    pub tailscale_ipv4: String,
    pub docker_engine_id: String,
    pub credential_hash: String,
    pub created_at: i64,
    pub last_seen_at: Option<i64>,
    pub revoked_at: Option<i64>,
}

pub struct AgentV {
    pub agent_id: Seq<char>,
    pub display_name: Seq<char>,
    pub tailscale_ipv4: Seq<char>,
    pub docker_engine_id: Seq<char>,
    pub credential_hash: Seq<char>,
    pub created_at: i64,
    pub last_seen_at: Option<i64>,
    pub revoked_at: Option<i64>,
}

impl View for AgentRow {
    type V = AgentV;

    open spec fn view(&self) -> AgentV {
        AgentV {
            agent_id: self.agent_id@,
            display_name: self.display_name@,
            tailscale_ipv4: self.tailscale_ipv4@,
            docker_engine_id: self.docker_engine_id@,
            credential_hash: self.credential_hash@,
            created_at: self.created_at,
            last_seen_at: self.last_seen_at,
            revoked_at: self.revoked_at,
        }
    }
}

/// A registered hostname and its owner.
#[derive(Debug, Clone)]
pub struct RouteRow {
    pub hostname: String,
    pub agent_id: String,
    pub backend: String,
    pub container_id: Option<String>,
    pub container_name: Option<String>,
    pub updated_at: i64,
}

pub struct RouteV {
    pub hostname: Seq<char>,
    pub agent_id: Seq<char>,
    pub backend: Seq<char>,
    pub container_id: Option<Seq<char>>,
    pub container_name: Option<Seq<char>>,
    pub updated_at: i64,
}

impl View for RouteRow {
    type V = RouteV;

    open spec fn view(&self) -> RouteV {
        RouteV {
            hostname: self.hostname@,
            agent_id: self.agent_id@,
            backend: self.backend@,
            container_id: sv(self.container_id),
            container_name: sv(self.container_name),
            updated_at: self.updated_at,
        }
    }
}

/// A one-time enrollment token, stored hashed.
#[derive(Debug, Clone)]
pub struct TokenRow {
    pub token_hash: String,
    pub created_at: i64,
    pub used_at: Option<i64>,
}

pub struct TokenV {
    pub token_hash: Seq<char>,
    pub created_at: i64,
    pub used_at: Option<i64>,
}

impl View for TokenRow {
    type V = TokenV;

    open spec fn view(&self) -> TokenV {
        TokenV { token_hash: self.token_hash@, created_at: self.created_at, used_at: self.used_at }
    }
}

/// Storage failures.
#[derive(Debug, Clone)]
pub enum StorageError {
    NotFound,
    Conflict,
    Other(String),
}

/// Agent as listed to administrators.
#[derive(Debug, Clone)]
pub struct AgentRecord {
    pub agent_id: String,
    pub display_name: String,
    pub tailscale_ipv4: String,
    pub docker_engine_id: String,
    pub created_at: i64,
    pub last_seen_at: Option<i64>,
}

/// A hostname that DNS answers, with the owner's Tailscale IPv4.
#[derive(Debug, Clone)]
pub struct DnsRoute {
    pub hostname: String,
    pub tailscale_ipv4: String,
}

/// Outcome of replacing an agent's route set.
#[derive(Debug, Clone)]
pub struct PutRoutesOutcome {
    pub accepted: Vec<String>,
    pub conflicts: Vec<RouteConflict>,
}

/// A freshly created enrollment token (only its hash is kept).
#[derive(Debug, Clone)]
pub struct EnrollmentTokenRecord {
    pub token_plain: String,
}

/// The controller's tables.
pub struct Storage {
    agents: Vec<AgentRow>,
    routes: Vec<RouteRow>,
    tokens: Vec<TokenRow>,
    agent_ttl_ms: i64,
    sqlite_path: String,
}

// ---------------------------------------------------------------- lookups

pub open spec fn seq_agents(s: Seq<AgentRow>) -> Seq<AgentV> {
    s.map_values(|a: AgentRow| a@)
}

pub open spec fn seq_routes(s: Seq<RouteRow>) -> Seq<RouteV> {
    s.map_values(|r: RouteRow| r@)
}

pub open spec fn seq_tokens(s: Seq<TokenRow>) -> Seq<TokenV> {
    s.map_values(|t: TokenRow| t@)
}

/// The agent with id `id`.
pub open spec fn find_agent(s: Seq<AgentV>, id: Seq<char>) -> Option<AgentV>
    decreases s.len(),
{
    if s.len() == 0 {
        None
    } else if s[0].agent_id == id {
        Some(s[0])
    } else {
        find_agent(s.drop_first(), id)
    }
}

/// The route of hostname `h`.
pub open spec fn find_route(s: Seq<RouteV>, h: Seq<char>) -> Option<RouteV>
    decreases s.len(),
{
    if s.len() == 0 {
        None
    } else if s[0].hostname == h {
        Some(s[0])
    } else {
        find_route(s.drop_first(), h)
    }
}

pub open spec fn unique_agents(s: Seq<AgentV>) -> bool {
    forall|i: int, j: int| 0 <= i < j < s.len() ==> s[i].agent_id != s[j].agent_id
}

pub open spec fn unique_routes(s: Seq<RouteV>) -> bool {
    forall|i: int, j: int| 0 <= i < j < s.len() ==> s[i].hostname != s[j].hostname
}

pub open spec fn unique_tokens(s: Seq<TokenV>) -> bool {
    forall|i: int, j: int| 0 <= i < j < s.len() ==> s[i].token_hash != s[j].token_hash
}

pub proof fn lemma_find_agent_at(s: Seq<AgentV>, id: Seq<char>, k: int)
    requires
        unique_agents(s),
        0 <= k < s.len(),
        s[k].agent_id == id,
    ensures
        find_agent(s, id) == Some(s[k]),
    decreases s.len(),
{
    if k > 0 {
        assert(s[0].agent_id != s[k].agent_id);
        assert(s.drop_first()[k - 1] == s[k]);
        lemma_find_agent_at(s.drop_first(), id, k - 1);
    }
}

pub proof fn lemma_find_agent_none(s: Seq<AgentV>, id: Seq<char>)
    requires
        forall|i: int| 0 <= i < s.len() ==> (#[trigger] s[i]).agent_id != id,
    ensures
        find_agent(s, id) is None,
    decreases s.len(),
{
    if s.len() > 0 {
        assert forall|i: int| 0 <= i < s.drop_first().len() implies (#[trigger] s.drop_first()[i]).agent_id
            != id by {
            assert(s.drop_first()[i] == s[i + 1]);
        }
        lemma_find_agent_none(s.drop_first(), id);
    }
}

pub proof fn lemma_find_route_at(s: Seq<RouteV>, h: Seq<char>, k: int)
    requires
        unique_routes(s),
        0 <= k < s.len(),
        s[k].hostname == h,
    ensures
        find_route(s, h) == Some(s[k]),
    decreases s.len(),
{
    if k > 0 {
        assert(s[0].hostname != s[k].hostname);
        assert(s.drop_first()[k - 1] == s[k]);
        lemma_find_route_at(s.drop_first(), h, k - 1);
    }
}

pub proof fn lemma_find_route_none(s: Seq<RouteV>, h: Seq<char>)
    requires
        forall|i: int| 0 <= i < s.len() ==> (#[trigger] s[i]).hostname != h,
    ensures
        find_route(s, h) is None,
    decreases s.len(),
{
    if s.len() > 0 {
        assert forall|i: int| 0 <= i < s.drop_first().len() implies (#[trigger] s.drop_first()[i]).hostname
            != h by {
            assert(s.drop_first()[i] == s[i + 1]);
        }
        lemma_find_route_none(s.drop_first(), h);
    }
}

/// `find_route` of a table with unique hostnames, pointwise.
pub proof fn lemma_find_route_cases(s: Seq<RouteV>, h: Seq<char>)
    requires
        unique_routes(s),
    ensures
        find_route(s, h) is None <==> (forall|i: int| 0 <= i < s.len() ==> (#[trigger] s[i]).hostname != h),
        find_route(s, h) matches Some(r) ==> r.hostname == h && exists|i: int| 0 <= i < s.len() && s[i] == r,
{
    if exists|i: int| 0 <= i < s.len() && (#[trigger] s[i]).hostname == h {
        let k = choose|i: int| 0 <= i < s.len() && (#[trigger] s[i]).hostname == h;
        lemma_find_route_at(s, h, k);
    } else {
        lemma_find_route_none(s, h);
    }
}

pub proof fn lemma_find_agent_cases(s: Seq<AgentV>, id: Seq<char>)
    requires
        unique_agents(s),
    ensures
        find_agent(s, id) is None <==> (forall|i: int| 0 <= i < s.len() ==> (#[trigger] s[i]).agent_id != id),
        find_agent(s, id) matches Some(a) ==> a.agent_id == id && exists|i: int| 0 <= i < s.len() && s[i] == a,
{
    if exists|i: int| 0 <= i < s.len() && (#[trigger] s[i]).agent_id == id {
        let k = choose|i: int| 0 <= i < s.len() && (#[trigger] s[i]).agent_id == id;
        lemma_find_agent_at(s, id, k);
    } else {
        lemma_find_agent_none(s, id);
    }
}

// ---------------------------------------------------------------- leases

/// Lease check: seen within `ttl` of `now`.
pub open spec fn alive(a: AgentV, now: i64, ttl: i64) -> bool {
    match a.last_seen_at {
        Some(t) => now - t < ttl,
        None => false,
    }
}

/// An active agent: enrolled and not revoked.
pub open spec fn active_agent(s: Seq<AgentV>, id: Seq<char>) -> Option<AgentV> {
    match find_agent(s, id) {
        Some(a) => if a.revoked_at is None {
            Some(a)
        } else {
            None
        },
        None => None,
    }
}

impl Storage {
    pub closed spec fn agents_v(&self) -> Seq<AgentV> {
        seq_agents(self.agents@)
    }

    pub closed spec fn routes_v(&self) -> Seq<RouteV> {
        seq_routes(self.routes@)
    }

    pub closed spec fn tokens_v(&self) -> Seq<TokenV> {
        seq_tokens(self.tokens@)
    }

    pub closed spec fn ttl_v(&self) -> i64 {
        self.agent_ttl_ms
    }

    pub closed spec fn path_v(&self) -> Seq<char> {
        self.sqlite_path@
    }

    /// Table invariants: primary keys unique, times in range.
    pub open spec fn wf(&self) -> bool {
        &&& unique_agents(self.agents_v())
        &&& unique_routes(self.routes_v())
        &&& unique_tokens(self.tokens_v())
        &&& forall|i: int|
            0 <= i < self.agents_v().len() ==> {
                &&& time_ok((#[trigger] self.agents_v()[i]).created_at)
                &&& opt_time_ok(self.agents_v()[i].last_seen_at)
                &&& opt_time_ok(self.agents_v()[i].revoked_at)
            }
        &&& forall|i: int| 0 <= i < self.routes_v().len() ==> time_ok((#[trigger] self.routes_v()[i]).updated_at)
        &&& forall|i: int|
            0 <= i < self.tokens_v().len() ==> {
                &&& time_ok((#[trigger] self.tokens_v()[i]).created_at)
                &&& opt_time_ok(self.tokens_v()[i].used_at)
            }
        &&& 0 <= self.ttl_v() <= TIME_BOUND
    }
}


pub open spec fn record_matches(r: AgentRecord, a: AgentV) -> bool {
    &&& r.agent_id@ == a.agent_id
    &&& r.display_name@ == a.display_name
    &&& r.tailscale_ipv4@ == a.tailscale_ipv4
    &&& r.docker_engine_id@ == a.docker_engine_id
    &&& r.created_at == a.created_at
    &&& r.last_seen_at == a.last_seen_at
}

/// Active agents in table order.
pub open spec fn active_agents(s: Seq<AgentV>) -> Seq<AgentV>
    decreases s.len(),
{
    if s.len() == 0 {
        Seq::empty()
    } else if s.last().revoked_at is None {
        active_agents(s.drop_last()).push(s.last())
    } else {
        active_agents(s.drop_last())
    }
}

fn record_of(a: &AgentRow) -> (r: AgentRecord)
    ensures
        record_matches(r, a@),
{
    AgentRecord {
        agent_id: a.agent_id.clone(),
        display_name: a.display_name.clone(),
        tailscale_ipv4: a.tailscale_ipv4.clone(),
        docker_engine_id: a.docker_engine_id.clone(),
        created_at: a.created_at,
        last_seen_at: a.last_seen_at,
    }
}

impl Storage {
    /// An empty store for the database at `sqlite_path`, with the agent lease TTL.
    pub fn connect(sqlite_path: &str, agent_ttl_seconds: u64) -> (r: Storage)
        requires
            agent_ttl_seconds * 1000 <= TIME_BOUND,
        ensures
            r.wf(),
            r.agents_v().len() == 0,
            r.routes_v().len() == 0,
            r.tokens_v().len() == 0,
            r.ttl_v() == agent_ttl_seconds * 1000,
            r.path_v() == sqlite_path@,
    {
        let st = Storage {
            agents: Vec::new(),
            routes: Vec::new(),
            tokens: Vec::new(),
            agent_ttl_ms: (agent_ttl_seconds * 1000) as i64,
            sqlite_path: sqlite_path.to_string(),
        };
        assert(st.agents_v() =~= Seq::<AgentV>::empty());
        assert(st.routes_v() =~= Seq::<RouteV>::empty());
        assert(st.tokens_v() =~= Seq::<TokenV>::empty());
        st
    }

    /// The agent lease TTL in milliseconds.
    pub fn agent_ttl(&self) -> (r: i64)
        ensures
            r == self.ttl_v(),
    {
        self.agent_ttl_ms
    }

    pub fn sqlite_path(&self) -> (r: &str)
        ensures
            r@ == self.path_v(),
    {
        self.sqlite_path.as_str()
    }

    pub fn agent_rows(&self) -> (r: &Vec<AgentRow>)
        ensures
            seq_agents(r@) == self.agents_v(),
    {
        &self.agents
    }

    pub fn route_rows(&self) -> (r: &Vec<RouteRow>)
        ensures
            seq_routes(r@) == self.routes_v(),
    {
        &self.routes
    }

    pub fn token_rows(&self) -> (r: &Vec<TokenRow>)
        ensures
            seq_tokens(r@) == self.tokens_v(),
    {
        &self.tokens
    }

    fn agent_index(&self, id: &[char]) -> (r: Option<usize>)
        requires
            self.wf(),
        ensures
            match r {
                Some(k) => k < self.agents@.len() && self.agents_v()[k as int].agent_id == id@
                    && find_agent(self.agents_v(), id@) == Some(self.agents_v()[k as int]),
                None => find_agent(self.agents_v(), id@) is None,
            },
    {
        let ghost v = self.agents_v();
        let mut i: usize = 0;
        while i < self.agents.len()
            invariant
                i <= self.agents.len(),
                v == self.agents_v(),
                unique_agents(v),
                forall|j: int| 0 <= j < i ==> (#[trigger] v[j]).agent_id != id@,
            decreases self.agents.len() - i,
        {
            assert(v[i as int] == self.agents@[i as int]@);
            let k = to_chars(self.agents[i].agent_id.as_str());
            if chars_eq(&k, id) {
                proof {
                    lemma_find_agent_at(v, id@, i as int);
                }
                return Some(i);
            }
            i = i + 1;
        }
        proof {
            lemma_find_agent_none(v, id@);
        }
        None
    }

    fn route_index(&self, h: &[char]) -> (r: Option<usize>)
        requires
            self.wf(),
        ensures
            match r {
                Some(k) => k < self.routes@.len() && self.routes_v()[k as int].hostname == h@
                    && find_route(self.routes_v(), h@) == Some(self.routes_v()[k as int]),
                None => find_route(self.routes_v(), h@) is None,
            },
    {
        let ghost v = self.routes_v();
        let mut i: usize = 0;
        while i < self.routes.len()
            invariant
                i <= self.routes.len(),
                v == self.routes_v(),
                unique_routes(v),
                forall|j: int| 0 <= j < i ==> (#[trigger] v[j]).hostname != h@,
            decreases self.routes.len() - i,
        {
            assert(v[i as int] == self.routes@[i as int]@);
            let k = to_chars(self.routes[i].hostname.as_str());
            if chars_eq(&k, h) {
                proof {
                    lemma_find_route_at(v, h@, i as int);
                }
                return Some(i);
            }
            i = i + 1;
        }
        proof {
            lemma_find_route_none(v, h@);
        }
        None
    }

    /// The active (not revoked) agent with this id.
    pub fn get_agent(&self, agent_id: &str) -> (r: Result<AgentRecord, StorageError>)
        requires
            self.wf(),
        ensures
            match r {
                Ok(rec) => active_agent(self.agents_v(), agent_id@) matches Some(a) && record_matches(rec, a),
                Err(e) => active_agent(self.agents_v(), agent_id@) is None && e is NotFound,
            },
    {
        let id = to_chars(agent_id);
        match self.agent_index(&id) {
            None => Err(StorageError::NotFound),
            Some(k) => {
                assert(self.agents_v()[k as int] == self.agents@[k as int]@);
                if self.agents[k].revoked_at.is_some() {
                    Err(StorageError::NotFound)
                } else {
                    Ok(record_of(&self.agents[k]))
                }
            },
        }
    }

    /// Active agents, in table order.
    pub fn list_agents(&self) -> (r: Vec<AgentRecord>)
        ensures
            r@.len() == active_agents(self.agents_v()).len(),
            forall|i: int| 0 <= i < r@.len() ==> record_matches(#[trigger] r@[i], active_agents(self.agents_v())[i]),
    {
        let ghost v = self.agents_v();
        let mut out: Vec<AgentRecord> = Vec::new();
        let mut i: usize = 0;
        while i < self.agents.len()
            invariant
                i <= self.agents.len(),
                v == self.agents_v(),
                out@.len() == active_agents(v.take(i as int)).len(),
                forall|j: int| 0 <= j < out@.len() ==> record_matches(#[trigger] out@[j], active_agents(v.take(i as int))[j]),
            decreases self.agents.len() - i,
        {
            assert(v.take(i + 1).drop_last() == v.take(i as int));
            assert(v.take(i + 1).last() == self.agents@[i as int]@);
            if self.agents[i].revoked_at.is_none() {
                let rec = record_of(&self.agents[i]);
                out.push(rec);
            }
            i = i + 1;
        }
        assert(v.take(self.agents.len() as int) == v);
        out
    }
}

// ---------------------------------------------------------------- route table edits

/// Rows of `s` that `keep` accepts, in order.
pub open spec fn filter_routes(s: Seq<RouteV>, keep: spec_fn(RouteV) -> bool) -> Seq<RouteV>
    decreases s.len(),
{
    if s.len() == 0 {
        Seq::empty()
    } else if keep(s.last()) {
        filter_routes(s.drop_last(), keep).push(s.last())
    } else {
        filter_routes(s.drop_last(), keep)
    }
}

pub proof fn lemma_find_route_push(t: Seq<RouteV>, x: RouteV, h: Seq<char>)
    ensures
        find_route(t.push(x), h) == match find_route(t, h) {
            Some(y) => Some(y),
            None => if x.hostname == h {
                Some(x)
            } else {
                None
            },
        },
    decreases t.len(),
{
    if t.len() == 0 {
        assert(t.push(x).drop_first() =~= Seq::<RouteV>::empty());
        assert(t.push(x)[0] == x);
    } else {
        assert(t.push(x)[0] == t[0]);
        assert(t.push(x).drop_first() =~= t.drop_first().push(x));
        lemma_find_route_push(t.drop_first(), x, h);
    }
}

pub proof fn lemma_filter_routes(s: Seq<RouteV>, keep: spec_fn(RouteV) -> bool)
    requires
        unique_routes(s),
    ensures
        unique_routes(filter_routes(s, keep)),
        forall|x: RouteV| #[trigger] filter_routes(s, keep).contains(x) ==> s.contains(x) && keep(x),
        forall|h: Seq<char>| #[trigger] find_route(filter_routes(s, keep), h) == match find_route(s, h) {
            Some(r) => if keep(r) {
                Some(r)
            } else {
                None
            },
            None => None,
        },
    decreases s.len(),
{
    if s.len() > 0 {
        let t = s.drop_last();
        let x = s.last();
        assert(unique_routes(t));
        lemma_filter_routes(t, keep);
        let ft = filter_routes(t, keep);
        assert forall|y: RouteV| #[trigger] filter_routes(s, keep).contains(y) implies s.contains(y) && keep(y) by {
            if keep(x) && y == x {
                assert(s[s.len() - 1] == y);
            } else {
                if keep(x) {
                    let k = choose|k: int| 0 <= k < ft.push(x).len() && ft.push(x)[k] == y;
                    if k < ft.len() {
                        assert(ft[k] == y);
                    }
                }
                assert(ft.contains(y));
                assert(t.contains(y));
                let k = choose|k: int| 0 <= k < t.len() && t[k] == y;
                assert(s[k] == y);
            }
        }
        if keep(x) {
            let fs = ft.push(x);
            assert forall|a: int, b: int| 0 <= a < b < fs.len() implies fs[a].hostname != fs[b].hostname by {
                if b == fs.len() - 1 {
                    assert(ft.contains(fs[a]));
                    assert(t.contains(fs[a]));
                    let k = choose|k: int| 0 <= k < t.len() && t[k] == fs[a];
                    assert(s[k] == fs[a]);
                    assert(s[s.len() - 1] == x);
                }
            }
        }
        assert forall|h: Seq<char>| #[trigger] find_route(filter_routes(s, keep), h) == match find_route(s, h) {
            Some(r) => if keep(r) {
                Some(r)
            } else {
                None
            },
            None => None,
        } by {
            lemma_find_route_push(t, x, h);
            lemma_find_route_push(ft, x, h);
            assert(s == t.push(x));
            if x.hostname == h {
                lemma_find_route_cases(t, h);
                if find_route(t, h) is Some {
                    let r = find_route(t, h)->Some_0;
                    let k = choose|k: int| 0 <= k < t.len() && t[k] == r;
                    assert(s[k].hostname == s[s.len() - 1].hostname);
                }
                assert(find_route(t, h) is None);
                assert(find_route(ft, h) is None);
            }
        }
    }
}

/// Drops rows of agent `id`.
pub open spec fn keep_not_agent(id: Seq<char>) -> spec_fn(RouteV) -> bool {
    |r: RouteV| r.agent_id != id
}

/// Drops the row of hostname `h`.
pub open spec fn keep_not_host(h: Seq<char>) -> spec_fn(RouteV) -> bool {
    |r: RouteV| r.hostname != h
}

/// Drops rows whose agent exists and was last seen before `now - ttl` or never.
pub open spec fn keep_unexpired(agents: Seq<AgentV>, now: i64, ttl: i64) -> spec_fn(RouteV) -> bool {
    |r: RouteV|
        !(find_agent(agents, r.agent_id) matches Some(a) && (a.last_seen_at is None
            || a.last_seen_at->Some_0 < now - ttl))
}

/// The agents table after a heartbeat of `id` from `ip` at `now`.
pub open spec fn heartbeat_agents(s: Seq<AgentV>, id: Seq<char>, ip: Seq<char>, now: i64) -> Seq<AgentV> {
    s.map_values(
        |a: AgentV|
            if a.agent_id == id && a.revoked_at is None {
                AgentV {
                    agent_id: a.agent_id,
                    display_name: a.display_name,
                    tailscale_ipv4: ip,
                    docker_engine_id: a.docker_engine_id,
                    credential_hash: a.credential_hash,
                    created_at: a.created_at,
                    last_seen_at: Some(now),
                    revoked_at: a.revoked_at,
                }
            } else {
                a
            },
    )
}

/// The agents table after revoking `id` at `now`.
pub open spec fn revoke_agents(s: Seq<AgentV>, id: Seq<char>, now: i64) -> Seq<AgentV> {
    s.map_values(
        |a: AgentV|
            if a.agent_id == id {
                AgentV {
                    agent_id: a.agent_id,
                    display_name: a.display_name,
                    tailscale_ipv4: a.tailscale_ipv4,
                    docker_engine_id: a.docker_engine_id,
                    credential_hash: a.credential_hash,
                    created_at: a.created_at,
                    last_seen_at: a.last_seen_at,
                    revoked_at: Some(now),
                }
            } else {
                a
            },
    )
}

fn clone_opt(o: &Option<String>) -> (r: Option<String>)
    ensures
        sv(r) == sv(*o),
{
    match o {
        Some(s) => Some(s.clone()),
        None => None,
    }
}

fn copy_route(r: &RouteRow) -> (c: RouteRow)
    ensures
        c@ == r@,
{
    RouteRow {
        hostname: r.hostname.clone(),
        agent_id: r.agent_id.clone(),
        backend: r.backend.clone(),
        container_id: clone_opt(&r.container_id),
        container_name: clone_opt(&r.container_name),
        updated_at: r.updated_at,
    }
}

impl Storage {
    /// Records a heartbeat: last-seen time and current Tailscale IPv4.
    pub fn heartbeat_at(&mut self, agent_id: &str, tailscale_ipv4: &str, now: i64) -> (r: Result<(), StorageError>)
        requires
            old(self).wf(),
            time_ok(now),
        ensures
            final(self).wf(),
            final(self).routes_v() == old(self).routes_v(),
            final(self).tokens_v() == old(self).tokens_v(),
            final(self).ttl_v() == old(self).ttl_v(),
            final(self).path_v() == old(self).path_v(),
            match r {
                Ok(()) => active_agent(old(self).agents_v(), agent_id@) is Some
                    && final(self).agents_v() == heartbeat_agents(old(self).agents_v(), agent_id@, tailscale_ipv4@, now),
                Err(e) => active_agent(old(self).agents_v(), agent_id@) is None && e is NotFound
                    && final(self).agents_v() == old(self).agents_v(),
            },
    {
        let id = to_chars(agent_id);
        let ghost v = self.agents_v();
        match self.agent_index(&id) {
            None => Err(StorageError::NotFound),
            Some(k) => {
                assert(v[k as int] == self.agents@[k as int]@);
                if self.agents[k].revoked_at.is_some() {
                    return Err(StorageError::NotFound);
                }
                let old_row = &self.agents[k];
                let row = AgentRow {
                    agent_id: old_row.agent_id.clone(),
                    display_name: old_row.display_name.clone(),
                    tailscale_ipv4: tailscale_ipv4.to_string(),
                    docker_engine_id: old_row.docker_engine_id.clone(),
                    credential_hash: old_row.credential_hash.clone(),
                    created_at: old_row.created_at,
                    last_seen_at: Some(now),
                    revoked_at: None,
                };
                self.agents.set(k, row);
                proof {
                    let nv = self.agents_v();
                    let hv = heartbeat_agents(v, agent_id@, tailscale_ipv4@, now);
                    assert forall|j: int| 0 <= j < nv.len() implies nv[j] == hv[j] by {
                        if j != k {
                            assert(nv[j] == v[j]);
                            if j < k {
                                assert(v[j].agent_id != v[k as int].agent_id);
                            } else {
                                assert(v[k as int].agent_id != v[j].agent_id);
                            }
                        }
                    }
                    assert(nv =~= hv);
                    assert forall|a: int, b: int| 0 <= a < b < nv.len() implies nv[a].agent_id != nv[b].agent_id by {
                        assert(nv[a].agent_id == v[a].agent_id);
                        assert(nv[b].agent_id == v[b].agent_id);
                    }
                    assert forall|j: int| 0 <= j < nv.len() implies {
                        &&& time_ok((#[trigger] nv[j]).created_at)
                        &&& opt_time_ok(nv[j].last_seen_at)
                        &&& opt_time_ok(nv[j].revoked_at)
                    } by {
                        assert(time_ok(v[j].created_at));
                    }
                }
                Ok(())
            },
        }
    }

    /// Checks an agent's bearer token against its stored hash.
    pub fn verify_agent_token(&self, agent_id: &str, token: &str) -> (r: Result<(), StorageError>)
        requires
            self.wf(),
        ensures
            match find_agent(self.agents_v(), agent_id@) {
                None => r matches Err(e) && e is NotFound,
                Some(a) => if a.revoked_at is Some {
                    r matches Err(e) && e is Other
                } else if a.credential_hash == hash_token_spec(token@) {
                    r is Ok
                } else {
                    r matches Err(e) && e is Other
                },
            },
    {
        let id = to_chars(agent_id);
        match self.agent_index(&id) {
            None => Err(StorageError::NotFound),
            Some(k) => {
                assert(self.agents_v()[k as int] == self.agents@[k as int]@);
                if self.agents[k].revoked_at.is_some() {
                    return Err(StorageError::Other("revoked".to_string()));
                }
                if verify_token(self.agents[k].credential_hash.as_str(), token) {
                    Ok(())
                } else {
                    Err(StorageError::Other("bad token".to_string()))
                }
            },
        }
    }

    /// Revokes an agent and drops its routes.
    pub fn revoke_agent_at(&mut self, agent_id: &str, now: i64) -> (r: Result<(), StorageError>)
        requires
            old(self).wf(),
            time_ok(now),
        ensures
            r is Ok,
            final(self).wf(),
            final(self).agents_v() == revoke_agents(old(self).agents_v(), agent_id@, now),
            final(self).routes_v() == filter_routes(old(self).routes_v(), keep_not_agent(agent_id@)),
            final(self).tokens_v() == old(self).tokens_v(),
            final(self).ttl_v() == old(self).ttl_v(),
            final(self).path_v() == old(self).path_v(),
    {
        let id = to_chars(agent_id);
        let ghost v = self.agents_v();
        match self.agent_index(&id) {
            None => {
                proof {
                    lemma_find_agent_cases(v, agent_id@);
                    assert(v =~= revoke_agents(v, agent_id@, now));
                }
            },
            Some(k) => {
                assert(v[k as int] == self.agents@[k as int]@);
                let old_row = &self.agents[k];
                let row = AgentRow {
                    agent_id: old_row.agent_id.clone(),
                    display_name: old_row.display_name.clone(),
                    tailscale_ipv4: old_row.tailscale_ipv4.clone(),
                    docker_engine_id: old_row.docker_engine_id.clone(),
                    credential_hash: old_row.credential_hash.clone(),
                    created_at: old_row.created_at,
                    last_seen_at: old_row.last_seen_at,
                    revoked_at: Some(now),
                };
                self.agents.set(k, row);
                proof {
                    let nv = self.agents_v();
                    let hv = revoke_agents(v, agent_id@, now);
                    assert forall|j: int| 0 <= j < nv.len() implies nv[j] == hv[j] by {
                        if j != k {
                            assert(nv[j] == v[j]);
                            if j < k {
                                assert(v[j].agent_id != v[k as int].agent_id);
                            } else {
                                assert(v[k as int].agent_id != v[j].agent_id);
                            }
                        }
                    }
                    assert(nv =~= hv);
                    assert forall|a: int, b: int| 0 <= a < b < nv.len() implies nv[a].agent_id != nv[b].agent_id by {
                        assert(nv[a].agent_id == v[a].agent_id);
                        assert(nv[b].agent_id == v[b].agent_id);
                    }
                    assert forall|j: int| 0 <= j < nv.len() implies {
                        &&& time_ok((#[trigger] nv[j]).created_at)
                        &&& opt_time_ok(nv[j].last_seen_at)
                        &&& opt_time_ok(nv[j].revoked_at)
                    } by {
                        assert(time_ok(v[j].created_at));
                    }
                }
            },
        }
        let ghost rv = self.routes_v();
        let mut kept: Vec<RouteRow> = Vec::new();
        let mut i: usize = 0;
        while i < self.routes.len()
            invariant
                i <= self.routes.len(),
                rv == self.routes_v(),
                id@ == agent_id@,
                seq_routes(kept@) == filter_routes(rv.take(i as int), keep_not_agent(agent_id@)),
            decreases self.routes.len() - i,
        {
            assert(rv.take(i + 1).drop_last() == rv.take(i as int));
            assert(rv.take(i + 1).last() == self.routes@[i as int]@);
            let a = to_chars(self.routes[i].agent_id.as_str());
            if !chars_eq(&a, &id) {
                let c = copy_route(&self.routes[i]);
                let ghost before = seq_routes(kept@);
                kept.push(c);
                assert(seq_routes(kept@) =~= before.push(c@));
            }
            i = i + 1;
        }
        assert(rv.take(self.routes.len() as int) == rv);
        proof {
            lemma_filter_routes(rv, keep_not_agent(agent_id@));
            let f = filter_routes(rv, keep_not_agent(agent_id@));
            assert forall|j: int| 0 <= j < f.len() implies time_ok((#[trigger] f[j]).updated_at) by {
                assert(f.contains(f[j]));
                let k = choose|k: int| 0 <= k < rv.len() && rv[k] == f[j];
                assert(time_ok(rv[k].updated_at));
            }
        }
        self.routes = kept;
        Ok(())
    }

    /// Deletes the route of a hostname (matched in lower case).
    pub fn delete_route(&mut self, hostname: &str) -> (r: Result<(), StorageError>)
        requires
            old(self).wf(),
        ensures
            r is Ok,
            final(self).wf(),
            final(self).agents_v() == old(self).agents_v(),
            final(self).routes_v() == filter_routes(old(self).routes_v(), keep_not_host(lower_seq(hostname@))),
            final(self).tokens_v() == old(self).tokens_v(),
            final(self).ttl_v() == old(self).ttl_v(),
            final(self).path_v() == old(self).path_v(),
    {
        let hc = to_chars(hostname);
        let h = lower_chars(&hc);
        let ghost rv = self.routes_v();
        let mut kept: Vec<RouteRow> = Vec::new();
        let mut i: usize = 0;
        while i < self.routes.len()
            invariant
                i <= self.routes.len(),
                rv == self.routes_v(),
                h@ == lower_seq(hostname@),
                seq_routes(kept@) == filter_routes(rv.take(i as int), keep_not_host(h@)),
            decreases self.routes.len() - i,
        {
            assert(rv.take(i + 1).drop_last() == rv.take(i as int));
            assert(rv.take(i + 1).last() == self.routes@[i as int]@);
            let a = to_chars(self.routes[i].hostname.as_str());
            if !chars_eq(&a, &h) {
                let c = copy_route(&self.routes[i]);
                let ghost before = seq_routes(kept@);
                kept.push(c);
                assert(seq_routes(kept@) =~= before.push(c@));
            }
            i = i + 1;
        }
        assert(rv.take(self.routes.len() as int) == rv);
        proof {
            lemma_filter_routes(rv, keep_not_host(h@));
            let f = filter_routes(rv, keep_not_host(h@));
            assert forall|j: int| 0 <= j < f.len() implies time_ok((#[trigger] f[j]).updated_at) by {
                assert(f.contains(f[j]));
                let k = choose|k: int| 0 <= k < rv.len() && rv[k] == f[j];
                assert(time_ok(rv[k].updated_at));
            }
        }
        self.routes = kept;
        Ok(())
    }
}

// ---------------------------------------------------------------- route sets

/// A route entry by its values.
pub struct EntryV {
    pub hostname: Seq<char>,
    pub backend: Seq<char>,
    pub container_id: Option<Seq<char>>,
    pub container_name: Option<Seq<char>>,
}

pub open spec fn entry_v(e: RouteEntry) -> EntryV {
    EntryV {
        hostname: e.hostname@,
        backend: e.backend@,
        container_id: sv(e.container_id),
        container_name: sv(e.container_name),
    }
}

pub open spec fn entries_v(s: Seq<RouteEntry>) -> Seq<EntryV> {
    s.map_values(|e: RouteEntry| entry_v(e))
}

/// The last entry whose lower-cased hostname is `h`.
pub open spec fn last_entry(es: Seq<EntryV>, h: Seq<char>) -> Option<EntryV>
    decreases es.len(),
{
    if es.len() == 0 {
        None
    } else if lower_seq(es.last().hostname) == h {
        Some(es.last())
    } else {
        last_entry(es.drop_last(), h)
    }
}

/// Hostname `h` is registered to another agent whose lease is live at `now`.
pub open spec fn route_blocked(
    agents: Seq<AgentV>,
    routes: Seq<RouteV>,
    agent_id: Seq<char>,
    h: Seq<char>,
    now: i64,
    ttl: i64,
) -> bool {
    match find_route(routes, h) {
        Some(r) => r.agent_id != agent_id && (find_agent(agents, r.agent_id) matches Some(a) && alive(
            a,
            now,
            ttl,
        )),
        None => false,
    }
}

/// The row an accepted entry is stored as.
pub open spec fn new_route(h: Seq<char>, agent_id: Seq<char>, e: EntryV, now: i64) -> RouteV {
    RouteV {
        hostname: h,
        agent_id: agent_id,
        backend: e.backend,
        container_id: e.container_id,
        container_name: e.container_name,
        updated_at: now,
    }
}

/// The route of `h` after agent `agent_id` replaces its route set by `es` at `now`:
/// an entry registers `h` unless another live agent holds it; hostnames the agent
/// held and no longer lists are released; everything else is unchanged.
pub open spec fn put_routes_result(
    agents: Seq<AgentV>,
    routes: Seq<RouteV>,
    agent_id: Seq<char>,
    es: Seq<EntryV>,
    now: i64,
    ttl: i64,
    h: Seq<char>,
) -> Option<RouteV> {
    match last_entry(es, h) {
        Some(e) => if route_blocked(agents, routes, agent_id, h, now, ttl) {
            find_route(routes, h)
        } else {
            Some(new_route(h, agent_id, e, now))
        },
        None => match find_route(routes, h) {
            Some(r) => if r.agent_id == agent_id {
                None
            } else {
                Some(r)
            },
            None => None,
        },
    }
}

/// Accepted hostnames (lower case), in entry order.
pub open spec fn put_accepted(
    agents: Seq<AgentV>,
    routes: Seq<RouteV>,
    agent_id: Seq<char>,
    es: Seq<EntryV>,
    now: i64,
    ttl: i64,
) -> Seq<Seq<char>>
    decreases es.len(),
{
    if es.len() == 0 {
        Seq::empty()
    } else {
        let prev = put_accepted(agents, routes, agent_id, es.drop_last(), now, ttl);
        let h = lower_seq(es.last().hostname);
        if route_blocked(agents, routes, agent_id, h, now, ttl) {
            prev
        } else {
            prev.push(h)
        }
    }
}

/// The conflict reported for a blocked hostname: its owner and when the owner's lease ends.
pub open spec fn conflict_of(agents: Seq<AgentV>, routes: Seq<RouteV>, h: Seq<char>, ttl: i64) -> (
    Seq<char>,
    Seq<char>,
    int,
) {
    let r = find_route(routes, h)->Some_0;
    let a = find_agent(agents, r.agent_id)->Some_0;
    (h, r.agent_id, a.last_seen_at->Some_0 + ttl)
}

/// Conflicts, in entry order.
pub open spec fn put_conflicts(
    agents: Seq<AgentV>,
    routes: Seq<RouteV>,
    agent_id: Seq<char>,
    es: Seq<EntryV>,
    now: i64,
    ttl: i64,
) -> Seq<(Seq<char>, Seq<char>, int)>
    decreases es.len(),
{
    if es.len() == 0 {
        Seq::empty()
    } else {
        let prev = put_conflicts(agents, routes, agent_id, es.drop_last(), now, ttl);
        let h = lower_seq(es.last().hostname);
        if route_blocked(agents, routes, agent_id, h, now, ttl) {
            prev.push(conflict_of(agents, routes, h, ttl))
        } else {
            prev
        }
    }
}

pub open spec fn conflict_v(c: RouteConflict) -> (Seq<char>, Seq<char>, int) {
    (c.hostname@, c.owner_agent_id@, c.lease_expires_at as int)
}

pub proof fn lemma_last_entry_some(es: Seq<EntryV>, h: Seq<char>)
    ensures
        last_entry(es, h) is Some <==> exists|j: int|
            0 <= j < es.len() && lower_seq(#[trigger] es[j].hostname) == h,
    decreases es.len(),
{
    if es.len() > 0 {
        let t = es.drop_last();
        lemma_last_entry_some(t, h);
        if exists|j: int| 0 <= j < es.len() && lower_seq(#[trigger] es[j].hostname) == h {
            let j = choose|j: int| 0 <= j < es.len() && lower_seq(#[trigger] es[j].hostname) == h;
            if j < es.len() - 1 {
                assert(t[j] == es[j]);
            }
        }
        if exists|j: int| 0 <= j < t.len() && lower_seq(#[trigger] t[j].hostname) == h {
            let j = choose|j: int| 0 <= j < t.len() && lower_seq(#[trigger] t[j].hostname) == h;
            assert(es[j] == t[j]);
        }
    }
}

/// The route table while the entries `es` are being stored, before released rows go.
pub open spec fn put_stage(
    agents: Seq<AgentV>,
    routes: Seq<RouteV>,
    agent_id: Seq<char>,
    es: Seq<EntryV>,
    now: i64,
    ttl: i64,
    h: Seq<char>,
) -> Option<RouteV> {
    match last_entry(es, h) {
        Some(e) => if route_blocked(agents, routes, agent_id, h, now, ttl) {
            find_route(routes, h)
        } else {
            Some(new_route(h, agent_id, e, now))
        },
        None => find_route(routes, h),
    }
}

/// Keeps rows unless they belong to `agent_id` and no entry of `es` names them.
pub open spec fn keep_listed(agent_id: Seq<char>, es: Seq<EntryV>) -> spec_fn(RouteV) -> bool {
    |r: RouteV| !(r.agent_id == agent_id && last_entry(es, r.hostname) is None)
}


impl Storage {
    /// Inserts `row`, replacing the row of the same hostname.
    fn upsert_route(&mut self, row: RouteRow)
        requires
            old(self).wf(),
            time_ok(row.updated_at),
        ensures
            final(self).wf(),
            final(self).agents_v() == old(self).agents_v(),
            final(self).tokens_v() == old(self).tokens_v(),
            final(self).ttl_v() == old(self).ttl_v(),
            final(self).path_v() == old(self).path_v(),
            forall|h: Seq<char>|
                #[trigger] find_route(final(self).routes_v(), h) == if h == row@.hostname {
                    Some(row@)
                } else {
                    find_route(old(self).routes_v(), h)
                },
    {
        let ghost rv = self.routes_v();
        let ghost x = row@;
        let hc = to_chars(row.hostname.as_str());
        match self.route_index(&hc) {
            Some(j) => {
                self.routes.set(j, row);
                proof {
                    let nv = self.routes_v();
                    assert(nv =~= rv.update(j as int, x));
                    assert forall|a: int, b: int| 0 <= a < b < nv.len() implies nv[a].hostname
                        != nv[b].hostname by {
                        assert(nv[a].hostname == rv[a].hostname);
                        assert(nv[b].hostname == rv[b].hostname);
                    }
                    assert forall|i: int| 0 <= i < nv.len() implies time_ok((#[trigger] nv[i]).updated_at) by {
                        if i != j {
                            assert(time_ok(rv[i].updated_at));
                        }
                    }
                    assert forall|h: Seq<char>| #[trigger] find_route(nv, h) == if h == x.hostname {
                        Some(x)
                    } else {
                        find_route(rv, h)
                    } by {
                        if h == x.hostname {
                            lemma_find_route_at(nv, h, j as int);
                        } else {
                            lemma_find_route_cases(rv, h);
                            if find_route(rv, h) is Some {
                                let k = choose|k: int| 0 <= k < rv.len() && rv[k] == find_route(rv, h)->Some_0;
                                assert(nv[k] == rv[k]);
                                lemma_find_route_at(nv, h, k);
                            } else {
                                assert forall|i: int| 0 <= i < nv.len() implies (#[trigger] nv[i]).hostname
                                    != h by {
                                    if i != j {
                                        assert(nv[i] == rv[i]);
                                    }
                                }
                                lemma_find_route_none(nv, h);
                            }
                        }
                    }
                }
            },
            None => {
                self.routes.push(row);
                proof {
                    let nv = self.routes_v();
                    assert(nv =~= rv.push(x));
                    lemma_find_route_cases(rv, x.hostname);
                    assert forall|a: int, b: int| 0 <= a < b < nv.len() implies nv[a].hostname
                        != nv[b].hostname by {
                        assert(nv[a] == rv[a]);
                        if b < rv.len() {
                            assert(nv[b] == rv[b]);
                        }
                    }
                    assert forall|i: int| 0 <= i < nv.len() implies time_ok((#[trigger] nv[i]).updated_at) by {
                        if i < rv.len() {
                            assert(nv[i] == rv[i]);
                        }
                    }
                    assert forall|h: Seq<char>| #[trigger] find_route(nv, h) == if h == x.hostname {
                        Some(x)
                    } else {
                        find_route(rv, h)
                    } by {
                        lemma_find_route_push(rv, x, h);
                    }
                }
            },
        }
    }

    /// The blocking owner of hostname `h` (its route row and agent row), if any.
    fn blocking_owner(&self, agent_id: &[char], h: &[char], now: i64, ttl: i64) -> (r: Option<(usize, usize)>)
        requires
            self.wf(),
            time_ok(now),
            0 <= ttl <= TIME_BOUND,
        ensures
            r is Some <==> route_blocked(self.agents_v(), self.routes_v(), agent_id@, h@, now, ttl),
            r matches Some((ri, ai)) ==> {
                &&& ri < self.routes_v().len()
                &&& ai < self.agents_v().len()
                &&& find_route(self.routes_v(), h@) == Some(self.routes_v()[ri as int])
                &&& find_agent(self.agents_v(), self.routes_v()[ri as int].agent_id) == Some(
                    self.agents_v()[ai as int],
                )
            },
    {
        match self.route_index(h) {
            None => None,
            Some(ri) => {
                assert(self.routes_v()[ri as int] == self.routes@[ri as int]@);
                let owner = to_chars(self.routes[ri].agent_id.as_str());
                if chars_eq(&owner, agent_id) {
                    return None;
                }
                match self.agent_index(&owner) {
                    None => None,
                    Some(ai) => {
                        assert(self.agents_v()[ai as int] == self.agents@[ai as int]@);
                        assert(opt_time_ok(self.agents_v()[ai as int].last_seen_at));
                        match self.agents[ai].last_seen_at {
                            Some(t) => if now - t < ttl {
                                Some((ri, ai))
                            } else {
                                None
                            },
                            None => None,
                        }
                    },
                }
            },
        }
    }
}

/// Whether some host of `hosts` equals `h`.
fn contains_host(hosts: &Vec<Vec<char>>, h: &[char]) -> (r: bool)
    ensures
        r == exists|j: int| 0 <= j < hosts@.len() && (#[trigger] hosts@[j])@ == h@,
{
    let mut i: usize = 0;
    while i < hosts.len()
        invariant
            i <= hosts.len(),
            forall|j: int| 0 <= j < i ==> (#[trigger] hosts@[j])@ != h@,
        decreases hosts.len() - i,
    {
        if chars_eq(hosts[i].as_slice(), h) {
            return true;
        }
        i = i + 1;
    }
    false
}

impl Storage {
    /// Replaces the route set of agent `agent_id` by `routes`, at time `now`, with lease
    /// TTL `ttl_ms`. Each entry's hostname is taken in lower case. An entry whose
    /// hostname another agent holds with a live lease is reported as a conflict (with
    /// that lease's end) and leaves the row alone; every other entry is stored for the
    /// agent (the last entry of a hostname wins) and reported as accepted. Rows of the
    /// agent that no entry names are released. Unknown or revoked agents get `NotFound`.
    pub fn put_routes_at(&mut self, agent_id: &str, routes: &[RouteEntry], ttl_ms: i64, now: i64) -> (r: Result<
        PutRoutesOutcome,
        StorageError,
    >)
        requires
            old(self).wf(),
            time_ok(now),
            0 <= ttl_ms <= TIME_BOUND,
        ensures
            final(self).wf(),
            final(self).agents_v() == old(self).agents_v(),
            final(self).tokens_v() == old(self).tokens_v(),
            final(self).ttl_v() == old(self).ttl_v(),
            final(self).path_v() == old(self).path_v(),
            match r {
                Err(e) => e is NotFound && active_agent(old(self).agents_v(), agent_id@) is None
                    && final(self).routes_v() == old(self).routes_v(),
                Ok(out) => {
                    &&& active_agent(old(self).agents_v(), agent_id@) is Some
                    &&& out.accepted@.map_values(|s: String| s@) == put_accepted(
                        old(self).agents_v(),
                        old(self).routes_v(),
                        agent_id@,
                        entries_v(routes@),
                        now,
                        ttl_ms,
                    )
                    &&& out.conflicts@.map_values(|c: RouteConflict| conflict_v(c)) == put_conflicts(
                        old(self).agents_v(),
                        old(self).routes_v(),
                        agent_id@,
                        entries_v(routes@),
                        now,
                        ttl_ms,
                    )
                    &&& forall|h: Seq<char>|
                        #[trigger] find_route(final(self).routes_v(), h) == put_routes_result(
                            old(self).agents_v(),
                            old(self).routes_v(),
                            agent_id@,
                            entries_v(routes@),
                            now,
                            ttl_ms,
                            h,
                        )
                },
            },
    {
        let id = to_chars(agent_id);
        match self.agent_index(&id) {
            None => {
                return Err(StorageError::NotFound);
            },
            Some(k) => {
                assert(self.agents_v()[k as int] == self.agents@[k as int]@);
                if self.agents[k].revoked_at.is_some() {
                    return Err(StorageError::NotFound);
                }
            },
        }
        let ghost av = self.agents_v();
        let ghost rv = self.routes_v();
        let ghost tv = self.tokens_v();
        let ghost es = entries_v(routes@);
        // Decide every entry against the table as it was.
        let mut hosts: Vec<Vec<char>> = Vec::new();
        let mut blocked: Vec<bool> = Vec::new();
        let mut accepted: Vec<String> = Vec::new();
        let mut conflicts: Vec<RouteConflict> = Vec::new();
        let mut i: usize = 0;
        while i < routes.len()
            invariant
                self.wf(),
                av == self.agents_v(),
                rv == self.routes_v(),
                es == entries_v(routes@),
                id@ == agent_id@,
                time_ok(now),
                0 <= ttl_ms <= TIME_BOUND,
                i <= routes.len(),
                hosts@.len() == i,
                blocked@.len() == i,
                forall|j: int| 0 <= j < i ==> (#[trigger] hosts@[j])@ == lower_seq(es[j].hostname),
                forall|j: int|
                    0 <= j < i ==> (#[trigger] blocked@[j]) == route_blocked(
                        av,
                        rv,
                        agent_id@,
                        lower_seq(es[j].hostname),
                        now,
                        ttl_ms,
                    ),
                accepted@.map_values(|s: String| s@) == put_accepted(
                    av,
                    rv,
                    agent_id@,
                    es.take(i as int),
                    now,
                    ttl_ms,
                ),
                conflicts@.map_values(|c: RouteConflict| conflict_v(c)) == put_conflicts(
                    av,
                    rv,
                    agent_id@,
                    es.take(i as int),
                    now,
                    ttl_ms,
                ),
            decreases routes.len() - i,
        {
            assert(es.take(i + 1).drop_last() == es.take(i as int));
            assert(es.take(i + 1).last() == es[i as int]);
            assert(es[i as int] == entry_v(routes@[i as int]));
            let hc = to_chars(routes[i].hostname.as_str());
            let h = lower_chars(&hc);
            match self.blocking_owner(&id, &h, now, ttl_ms) {
                Some((ri, ai)) => {
                    assert(self.routes_v()[ri as int] == self.routes@[ri as int]@);
                    assert(self.agents_v()[ai as int] == self.agents@[ai as int]@);
                    assert(opt_time_ok(self.agents_v()[ai as int].last_seen_at));
                    let t = self.agents[ai].last_seen_at.unwrap();
                    let c = RouteConflict {
                        hostname: from_chars(&h),
                        owner_agent_id: self.routes[ri].agent_id.clone(),
                        lease_expires_at: t + ttl_ms,
                    };
                    let ghost before = conflicts@.map_values(|c: RouteConflict| conflict_v(c));
                    conflicts.push(c);
                    assert(conflicts@.map_values(|c: RouteConflict| conflict_v(c)) =~= before.push(
                        conflict_v(c),
                    ));
                    blocked.push(true);
                },
                None => {
                    let ghost before = accepted@.map_values(|s: String| s@);
                    let hs = from_chars(&h);
                    accepted.push(hs);
                    assert(accepted@.map_values(|s: String| s@) =~= before.push(h@));
                    blocked.push(false);
                },
            }
            hosts.push(h);
            i = i + 1;
        }
        assert(es.take(routes.len() as int) == es);
        // Store the accepted entries.
        assert(es.take(0).len() == 0);
        let mut i: usize = 0;
        while i < routes.len()
            invariant
                self.wf(),
                av == self.agents_v(),
                tv == self.tokens_v(),
                self.ttl_v() == old(self).ttl_v(),
                self.path_v() == old(self).path_v(),
                es == entries_v(routes@),
                time_ok(now),
                i <= routes.len(),
                hosts@.len() == routes.len(),
                blocked@.len() == routes.len(),
                forall|j: int| 0 <= j < routes.len() ==> (#[trigger] hosts@[j])@ == lower_seq(es[j].hostname),
                forall|j: int|
                    0 <= j < routes.len() ==> (#[trigger] blocked@[j]) == route_blocked(
                        av,
                        rv,
                        agent_id@,
                        lower_seq(es[j].hostname),
                        now,
                        ttl_ms,
                    ),
                forall|h: Seq<char>|
                    #[trigger] find_route(self.routes_v(), h) == put_stage(
                        av,
                        rv,
                        agent_id@,
                        es.take(i as int),
                        now,
                        ttl_ms,
                        h,
                    ),
            decreases routes.len() - i,
        {
            assert(es.take(i + 1).drop_last() == es.take(i as int));
            assert(es.take(i + 1).last() == es[i as int]);
            assert(es[i as int] == entry_v(routes@[i as int]));
            let ghost hi = hosts@[i as int]@;
            if !blocked[i] {
                let e = &routes[i];
                let row = RouteRow {
                    hostname: from_chars(hosts[i].as_slice()),
                    agent_id: agent_id.to_string(),
                    backend: e.backend.clone(),
                    container_id: clone_opt(&e.container_id),
                    container_name: clone_opt(&e.container_name),
                    updated_at: now,
                };
                assert(row@ == new_route(hi, agent_id@, es[i as int], now));
                self.upsert_route(row);
                assert forall|h: Seq<char>|
                    #[trigger] find_route(self.routes_v(), h) == put_stage(
                        av,
                        rv,
                        agent_id@,
                        es.take(i + 1),
                        now,
                        ttl_ms,
                        h,
                    ) by {
                    if h != hi {
                        assert(put_stage(av, rv, agent_id@, es.take(i + 1), now, ttl_ms, h) == put_stage(
                            av,
                            rv,
                            agent_id@,
                            es.take(i as int),
                            now,
                            ttl_ms,
                            h,
                        ));
                    }
                }
            } else {
                assert forall|h: Seq<char>|
                    #[trigger] find_route(self.routes_v(), h) == put_stage(
                        av,
                        rv,
                        agent_id@,
                        es.take(i + 1),
                        now,
                        ttl_ms,
                        h,
                    ) by {
                    assert(find_route(self.routes_v(), h) == put_stage(
                        av,
                        rv,
                        agent_id@,
                        es.take(i as int),
                        now,
                        ttl_ms,
                        h,
                    ));
                }
            }
            i = i + 1;
        }
        // Release the rows of the agent that no entry names.
        let ghost mv = self.routes_v();
        let mut kept: Vec<RouteRow> = Vec::new();
        let mut i: usize = 0;
        while i < self.routes.len()
            invariant
                i <= self.routes.len(),
                mv == self.routes_v(),
                id@ == agent_id@,
                es == entries_v(routes@),
                hosts@.len() == routes.len(),
                forall|j: int| 0 <= j < routes.len() ==> (#[trigger] hosts@[j])@ == lower_seq(es[j].hostname),
                seq_routes(kept@) == filter_routes(mv.take(i as int), keep_listed(agent_id@, es)),
            decreases self.routes.len() - i,
        {
            assert(mv.take(i + 1).drop_last() == mv.take(i as int));
            assert(mv.take(i + 1).last() == self.routes@[i as int]@);
            let a = to_chars(self.routes[i].agent_id.as_str());
            let hh = to_chars(self.routes[i].hostname.as_str());
            let listed = contains_host(&hosts, &hh);
            proof {
                lemma_last_entry_some(es, hh@);
                if listed {
                    let j = choose|j: int| 0 <= j < hosts@.len() && (#[trigger] hosts@[j])@ == hh@;
                    assert(lower_seq(es[j].hostname) == hh@);
                } else {
                    assert forall|j: int| 0 <= j < es.len() implies lower_seq(#[trigger] es[j].hostname)
                        != hh@ by {
                        assert(hosts@[j]@ == lower_seq(es[j].hostname));
                    }
                }
            }
            if !(chars_eq(&a, &id) && !listed) {
                let c = copy_route(&self.routes[i]);
                let ghost before = seq_routes(kept@);
                kept.push(c);
                assert(seq_routes(kept@) =~= before.push(c@));
            }
            i = i + 1;
        }
        assert(mv.take(self.routes.len() as int) == mv);
        proof {
            lemma_filter_routes(mv, keep_listed(agent_id@, es));
            let f = filter_routes(mv, keep_listed(agent_id@, es));
            assert forall|j: int| 0 <= j < f.len() implies time_ok((#[trigger] f[j]).updated_at) by {
                assert(f.contains(f[j]));
                let k = choose|k: int| 0 <= k < mv.len() && mv[k] == f[j];
                assert(time_ok(mv[k].updated_at));
            }
            assert forall|h: Seq<char>|
                #[trigger] find_route(f, h) == put_routes_result(av, rv, agent_id@, es, now, ttl_ms, h) by {
                lemma_find_route_cases(mv, h);
                lemma_find_route_cases(rv, h);
                assert(find_route(mv, h) == put_stage(av, rv, agent_id@, es, now, ttl_ms, h));
            }
        }
        self.routes = kept;
        Ok(PutRoutesOutcome { accepted, conflicts })
    }
}

// ---------------------------------------------------------------- published views

/// Hostnames DNS answers: routes whose agent is active and alive, with the agent's IPv4.
pub open spec fn dns_routes_spec(agents: Seq<AgentV>, routes: Seq<RouteV>, now: i64, ttl: i64) -> Seq<
    (Seq<char>, Seq<char>),
>
    decreases routes.len(),
{
    if routes.len() == 0 {
        Seq::empty()
    } else {
        let prev = dns_routes_spec(agents, routes.drop_last(), now, ttl);
        let r = routes.last();
        match active_agent(agents, r.agent_id) {
            Some(a) => if alive(a, now, ttl) {
                prev.push((r.hostname, a.tailscale_ipv4))
            } else {
                prev
            },
            None => prev,
        }
    }
}

/// A route as administrators see it.
pub type AdminRouteRow = (String, String, String, Option<String>, Option<String>, i64);

pub type AdminRouteV = (Seq<char>, Seq<char>, Seq<char>, Option<Seq<char>>, Option<Seq<char>>, int);

pub open spec fn admin_row_v(r: AdminRouteRow) -> AdminRouteV {
    (r.0@, r.1@, r.2@, sv(r.3), sv(r.4), r.5 as int)
}

/// Routes of active, alive agents with the end of the owner's lease.
pub open spec fn admin_routes_spec(agents: Seq<AgentV>, routes: Seq<RouteV>, now: i64, ttl: i64) -> Seq<
    AdminRouteV,
>
    decreases routes.len(),
{
    if routes.len() == 0 {
        Seq::empty()
    } else {
        let prev = admin_routes_spec(agents, routes.drop_last(), now, ttl);
        let r = routes.last();
        match active_agent(agents, r.agent_id) {
            Some(a) => if alive(a, now, ttl) {
                prev.push(
                    (
                        r.hostname,
                        r.agent_id,
                        r.backend,
                        r.container_id,
                        r.container_name,
                        a.last_seen_at->Some_0 + ttl,
                    ),
                )
            } else {
                prev
            },
            None => prev,
        }
    }
}

pub open spec fn dns_route_v(d: DnsRoute) -> (Seq<char>, Seq<char>) {
    (d.hostname@, d.tailscale_ipv4@)
}

impl Storage {
    /// The active agent `agent_id` if its lease is live at `now`.
    fn live_agent(&self, agent_id: &[char], now: i64, ttl: i64) -> (r: Option<usize>)
        requires
            self.wf(),
            time_ok(now),
            0 <= ttl <= TIME_BOUND,
        ensures
            r is Some <==> (active_agent(self.agents_v(), agent_id@) matches Some(a) && alive(a, now, ttl)),
            r matches Some(ai) ==> ai < self.agents_v().len() && active_agent(self.agents_v(), agent_id@)
                == Some(self.agents_v()[ai as int]),
    {
        match self.agent_index(agent_id) {
            None => None,
            Some(ai) => {
                assert(self.agents_v()[ai as int] == self.agents@[ai as int]@);
                assert(opt_time_ok(self.agents_v()[ai as int].last_seen_at));
                if self.agents[ai].revoked_at.is_some() {
                    return None;
                }
                match self.agents[ai].last_seen_at {
                    Some(t) => if now - t < ttl {
                        Some(ai)
                    } else {
                        None
                    },
                    None => None,
                }
            },
        }
    }

    /// Hostnames DNS answers at `now`, in table order.
    pub fn active_dns_routes_at(&self, ttl_ms: i64, now: i64) -> (r: Vec<DnsRoute>)
        requires
            self.wf(),
            time_ok(now),
            0 <= ttl_ms <= TIME_BOUND,
        ensures
            r@.map_values(|d: DnsRoute| dns_route_v(d)) == dns_routes_spec(
                self.agents_v(),
                self.routes_v(),
                now,
                ttl_ms,
            ),
    {
        let ghost rv = self.routes_v();
        let ghost av = self.agents_v();
        let mut out: Vec<DnsRoute> = Vec::new();
        let mut i: usize = 0;
        while i < self.routes.len()
            invariant
                self.wf(),
                rv == self.routes_v(),
                av == self.agents_v(),
                time_ok(now),
                0 <= ttl_ms <= TIME_BOUND,
                i <= self.routes.len(),
                out@.map_values(|d: DnsRoute| dns_route_v(d)) == dns_routes_spec(av, rv.take(i as int), now, ttl_ms),
            decreases self.routes.len() - i,
        {
            assert(rv.take(i + 1).drop_last() == rv.take(i as int));
            assert(rv.take(i + 1).last() == self.routes@[i as int]@);
            let owner = to_chars(self.routes[i].agent_id.as_str());
            match self.live_agent(&owner, now, ttl_ms) {
                Some(ai) => {
                    assert(self.agents_v()[ai as int] == self.agents@[ai as int]@);
                    let d = DnsRoute {
                        hostname: self.routes[i].hostname.clone(),
                        tailscale_ipv4: self.agents[ai].tailscale_ipv4.clone(),
                    };
                    let ghost before = out@.map_values(|d: DnsRoute| dns_route_v(d));
                    out.push(d);
                    assert(out@.map_values(|d: DnsRoute| dns_route_v(d)) =~= before.push(dns_route_v(d)));
                },
                None => {},
            }
            i = i + 1;
        }
        assert(rv.take(self.routes.len() as int) == rv);
        out
    }

    /// Routes of live agents with their lease end, in table order.
    pub fn list_routes_admin_at(&self, ttl_ms: i64, now: i64) -> (r: Vec<AdminRouteRow>)
        requires
            self.wf(),
            time_ok(now),
            0 <= ttl_ms <= TIME_BOUND,
        ensures
            r@.map_values(|x: AdminRouteRow| admin_row_v(x)) == admin_routes_spec(
                self.agents_v(),
                self.routes_v(),
                now,
                ttl_ms,
            ),
    {
        let ghost rv = self.routes_v();
        let ghost av = self.agents_v();
        let mut out: Vec<AdminRouteRow> = Vec::new();
        let mut i: usize = 0;
        while i < self.routes.len()
            invariant
                self.wf(),
                rv == self.routes_v(),
                av == self.agents_v(),
                time_ok(now),
                0 <= ttl_ms <= TIME_BOUND,
                i <= self.routes.len(),
                out@.map_values(|x: AdminRouteRow| admin_row_v(x)) == admin_routes_spec(
                    av,
                    rv.take(i as int),
                    now,
                    ttl_ms,
                ),
            decreases self.routes.len() - i,
        {
            assert(rv.take(i + 1).drop_last() == rv.take(i as int));
            assert(rv.take(i + 1).last() == self.routes@[i as int]@);
            let owner = to_chars(self.routes[i].agent_id.as_str());
            match self.live_agent(&owner, now, ttl_ms) {
                Some(ai) => {
                    assert(self.agents_v()[ai as int] == self.agents@[ai as int]@);
                    assert(opt_time_ok(self.agents_v()[ai as int].last_seen_at));
                    let t = self.agents[ai].last_seen_at.unwrap();
                    let row = &self.routes[i];
                    let x: AdminRouteRow = (
                        row.hostname.clone(),
                        row.agent_id.clone(),
                        row.backend.clone(),
                        clone_opt(&row.container_id),
                        clone_opt(&row.container_name),
                        t + ttl_ms,
                    );
                    let ghost before = out@.map_values(|x: AdminRouteRow| admin_row_v(x));
                    out.push(x);
                    assert(out@.map_values(|x: AdminRouteRow| admin_row_v(x)) =~= before.push(admin_row_v(x)));
                },
                None => {},
            }
            i = i + 1;
        }
        assert(rv.take(self.routes.len() as int) == rv);
        out
    }

    /// Drops the routes of agents last seen before `now - ttl` (or never);
    /// returns how many rows went.
    pub fn purge_expired_agents_at(&mut self, ttl_ms: i64, now: i64) -> (r: u64)
        requires
            old(self).wf(),
            time_ok(now),
            0 <= ttl_ms <= TIME_BOUND,
        ensures
            final(self).wf(),
            final(self).agents_v() == old(self).agents_v(),
            final(self).routes_v() == filter_routes(
                old(self).routes_v(),
                keep_unexpired(old(self).agents_v(), now, ttl_ms),
            ),
            final(self).tokens_v() == old(self).tokens_v(),
            final(self).ttl_v() == old(self).ttl_v(),
            final(self).path_v() == old(self).path_v(),
            r == old(self).routes_v().len() - final(self).routes_v().len(),
    {
        let ghost rv = self.routes_v();
        let ghost av = self.agents_v();
        let mut kept: Vec<RouteRow> = Vec::new();
        let mut i: usize = 0;
        while i < self.routes.len()
            invariant
                self.wf(),
                i <= self.routes.len(),
                rv == self.routes_v(),
                av == self.agents_v(),
                time_ok(now),
                0 <= ttl_ms <= TIME_BOUND,
                kept@.len() <= i,
                seq_routes(kept@) == filter_routes(rv.take(i as int), keep_unexpired(av, now, ttl_ms)),
            decreases self.routes.len() - i,
        {
            assert(rv.take(i + 1).drop_last() == rv.take(i as int));
            assert(rv.take(i + 1).last() == self.routes@[i as int]@);
            let owner = to_chars(self.routes[i].agent_id.as_str());
            let expired = match self.agent_index(&owner) {
                None => false,
                Some(ai) => {
                    assert(self.agents_v()[ai as int] == self.agents@[ai as int]@);
                    assert(opt_time_ok(self.agents_v()[ai as int].last_seen_at));
                    match self.agents[ai].last_seen_at {
                        None => true,
                        Some(t) => t < now - ttl_ms,
                    }
                },
            };
            if !expired {
                let c = copy_route(&self.routes[i]);
                let ghost before = seq_routes(kept@);
                kept.push(c);
                assert(seq_routes(kept@) =~= before.push(c@));
            }
            i = i + 1;
        }
        assert(rv.take(self.routes.len() as int) == rv);
        proof {
            lemma_filter_routes(rv, keep_unexpired(av, now, ttl_ms));
            let f = filter_routes(rv, keep_unexpired(av, now, ttl_ms));
            assert forall|j: int| 0 <= j < f.len() implies time_ok((#[trigger] f[j]).updated_at) by {
                assert(f.contains(f[j]));
                let k = choose|k: int| 0 <= k < rv.len() && rv[k] == f[j];
                assert(time_ok(rv[k].updated_at));
            }
        }
        let removed = (self.routes.len() - kept.len()) as u64;
        self.routes = kept;
        removed
    }
}

// ---------------------------------------------------------------- enrollment

/// An unused token row with hash `hv` exists.
pub open spec fn token_open(s: Seq<TokenV>, hv: Seq<char>) -> bool {
    exists|k: int| 0 <= k < s.len() && (#[trigger] s[k]).token_hash == hv && s[k].used_at is None
}

/// Token row `k` marked used at `now`.
pub open spec fn mark_used(s: Seq<TokenV>, k: int, now: i64) -> Seq<TokenV> {
    s.update(k, TokenV { token_hash: s[k].token_hash, created_at: s[k].created_at, used_at: Some(now) })
}

/// The agent row stored at enrollment.
pub open spec fn enrolled_agent(
    agent_id: Seq<char>,
    agent_token: Seq<char>,
    display_name: Seq<char>,
    tailscale_ipv4: Seq<char>,
    docker_engine_id: Seq<char>,
    now: i64,
) -> AgentV {
    AgentV {
        agent_id: agent_id,
        display_name: display_name,
        tailscale_ipv4: tailscale_ipv4,
        docker_engine_id: docker_engine_id,
        credential_hash: hash_token_spec(agent_token),
        created_at: now,
        last_seen_at: Some(now),
        revoked_at: None,
    }
}

/// A consumed enrollment token cannot be consumed again: after row `k` (the unused
/// row of hash `hv`) is marked used, no unused row of that hash is left.
pub proof fn lemma_enrollment_token_single_use(s: Seq<TokenV>, hv: Seq<char>, k: int, now: i64)
    requires
        unique_tokens(s),
        0 <= k < s.len(),
        s[k].token_hash == hv,
    ensures
        !token_open(mark_used(s, k, now), hv),
        unique_tokens(mark_used(s, k, now)),
{
    let t = mark_used(s, k, now);
    assert forall|j: int| 0 <= j < t.len() && (#[trigger] t[j]).token_hash == hv implies t[j].used_at is Some by {
        if j != k {
            assert(t[j] == s[j]);
            if j < k {
                assert(s[j].token_hash != s[k].token_hash);
            } else {
                assert(s[k].token_hash != s[j].token_hash);
            }
        }
    }
    assert forall|a: int, b: int| 0 <= a < b < t.len() implies t[a].token_hash != t[b].token_hash by {
        assert(t[a].token_hash == s[a].token_hash);
        assert(t[b].token_hash == s[b].token_hash);
    }
}

impl Storage {
    fn token_index(&self, hv: &[char]) -> (r: Option<usize>)
        requires
            self.wf(),
        ensures
            match r {
                Some(k) => k < self.tokens_v().len() && self.tokens_v()[k as int].token_hash == hv@,
                None => forall|j: int|
                    0 <= j < self.tokens_v().len() ==> (#[trigger] self.tokens_v()[j]).token_hash != hv@,
            },
    {
        let ghost v = self.tokens_v();
        let mut i: usize = 0;
        while i < self.tokens.len()
            invariant
                i <= self.tokens.len(),
                v == self.tokens_v(),
                forall|j: int| 0 <= j < i ==> (#[trigger] v[j]).token_hash != hv@,
            decreases self.tokens.len() - i,
        {
            assert(v[i as int] == self.tokens@[i as int]@);
            let k = to_chars(self.tokens[i].token_hash.as_str());
            if chars_eq(&k, hv) {
                return Some(i);
            }
            i = i + 1;
        }
        None
    }

    /// Stores the enrollment token `token` (hashed) at `now`. `Conflict` when a
    /// token with the same hash is already stored.
    pub fn add_enrollment_token_at(&mut self, token: &str, now: i64) -> (r: Result<
        EnrollmentTokenRecord,
        StorageError,
    >)
        requires
            old(self).wf(),
            time_ok(now),
        ensures
            final(self).wf(),
            final(self).agents_v() == old(self).agents_v(),
            final(self).routes_v() == old(self).routes_v(),
            final(self).ttl_v() == old(self).ttl_v(),
            final(self).path_v() == old(self).path_v(),
            match r {
                Ok(rec) => rec.token_plain@ == token@ && (forall|j: int|
                    0 <= j < old(self).tokens_v().len() ==> (#[trigger] old(self).tokens_v()[j]).token_hash
                        != hash_token_spec(token@)) && final(self).tokens_v() == old(self).tokens_v().push(
                    TokenV { token_hash: hash_token_spec(token@), created_at: now, used_at: None },
                ),
                Err(e) => e is Conflict && (exists|j: int|
                    0 <= j < old(self).tokens_v().len() && (#[trigger] old(self).tokens_v()[j]).token_hash
                        == hash_token_spec(token@)) && final(self).tokens_v() == old(self).tokens_v(),
            },
    {
        let h = hash_token(token);
        let hc = to_chars(h.as_str());
        let ghost v = self.tokens_v();
        match self.token_index(&hc) {
            Some(k) => {
                return Err(StorageError::Conflict);
            },
            None => {},
        }
        let row = TokenRow { token_hash: h, created_at: now, used_at: None };
        let ghost x = row@;
        self.tokens.push(row);
        proof {
            let nv = self.tokens_v();
            assert(nv =~= v.push(x));
            assert forall|a: int, b: int| 0 <= a < b < nv.len() implies nv[a].token_hash != nv[b].token_hash by {
                assert(nv[a] == v[a]);
                if b < v.len() {
                    assert(nv[b] == v[b]);
                }
            }
            assert forall|j: int| 0 <= j < nv.len() implies {
                &&& time_ok((#[trigger] nv[j]).created_at)
                &&& opt_time_ok(nv[j].used_at)
            } by {
                if j < v.len() {
                    assert(nv[j] == v[j]);
                }
            }
        }
        Ok(EnrollmentTokenRecord { token_plain: token.to_string() })
    }

    /// Creates a one-time enrollment token of 32 random bytes (64 hex characters)
    /// and stores its hash. `Other` when the random source fails.
    pub fn create_enrollment_token_at(&mut self, now: i64) -> (r: Result<EnrollmentTokenRecord, StorageError>)
        requires
            old(self).wf(),
            time_ok(now),
        ensures
            final(self).wf(),
            final(self).agents_v() == old(self).agents_v(),
            final(self).routes_v() == old(self).routes_v(),
            final(self).ttl_v() == old(self).ttl_v(),
            final(self).path_v() == old(self).path_v(),
            match r {
                Ok(rec) => rec.token_plain@.len() == 64 && final(self).tokens_v() == old(self).tokens_v().push(
                    TokenV { token_hash: hash_token_spec(rec.token_plain@), created_at: now, used_at: None },
                ),
                Err(e) => final(self).tokens_v() == old(self).tokens_v() && (random_error(e) || e is Conflict),
            },
    {
        match generate_token(32) {
            None => Err(StorageError::Other("random source unavailable".to_string())),
            Some(t) => self.add_enrollment_token_at(t.as_str(), now),
        }
    }

    /// Consumes the enrollment token `token` at `now`: the unused token whose hash
    /// matches is marked used. `Other` when no unused token matches.
    pub fn consume_enrollment_token_at(&mut self, token: &str, now: i64) -> (r: Result<(), StorageError>)
        requires
            old(self).wf(),
            time_ok(now),
        ensures
            final(self).wf(),
            final(self).agents_v() == old(self).agents_v(),
            final(self).routes_v() == old(self).routes_v(),
            final(self).ttl_v() == old(self).ttl_v(),
            final(self).path_v() == old(self).path_v(),
            r is Ok <==> token_open(old(self).tokens_v(), hash_token_spec(token@)),
            r is Ok ==> !token_open(final(self).tokens_v(), hash_token_spec(token@)),
            match r {
                Ok(()) => exists|k: int|
                    0 <= k < old(self).tokens_v().len() && (#[trigger] old(self).tokens_v()[k]).token_hash
                        == hash_token_spec(token@) && old(self).tokens_v()[k].used_at is None
                        && final(self).tokens_v() == mark_used(old(self).tokens_v(), k, now),
                Err(e) => e is Other && final(self).tokens_v() == old(self).tokens_v(),
            },
    {
        let ghost v = self.tokens_v();
        let ghost hv = hash_token_spec(token@);
        let mut i: usize = 0;
        while i < self.tokens.len()
            invariant
                i <= self.tokens.len(),
                v == self.tokens_v(),
                hv == hash_token_spec(token@),
                time_ok(now),
                self.wf(),
                self.agents_v() == old(self).agents_v(),
                self.routes_v() == old(self).routes_v(),
                v == old(self).tokens_v(),
                self.ttl_v() == old(self).ttl_v(),
                self.path_v() == old(self).path_v(),
                forall|j: int| 0 <= j < i ==> !((#[trigger] v[j]).token_hash == hv && v[j].used_at is None),
            decreases self.tokens.len() - i,
        {
            assert(v[i as int] == self.tokens@[i as int]@);
            if self.tokens[i].used_at.is_none() && verify_token(self.tokens[i].token_hash.as_str(), token) {
                let old_row = &self.tokens[i];
                let row = TokenRow {
                    token_hash: old_row.token_hash.clone(),
                    created_at: old_row.created_at,
                    used_at: Some(now),
                };
                self.tokens.set(i, row);
                proof {
                    let nv = self.tokens_v();
                    assert(nv =~= mark_used(v, i as int, now));
                    lemma_enrollment_token_single_use(v, hv, i as int, now);
                    assert forall|j: int| 0 <= j < nv.len() implies {
                        &&& time_ok((#[trigger] nv[j]).created_at)
                        &&& opt_time_ok(nv[j].used_at)
                    } by {
                        assert(time_ok(v[j].created_at));
                    }
                }
                return Ok(());
            }
            i = i + 1;
        }
        Err(StorageError::Other("invalid enrollment token".to_string()))
    }

    /// Stores a newly enrolled agent with id `agent_id` and credential `agent_token`
    /// (hashed), seen at `now`. `Conflict` when the id is taken.
    pub fn add_agent_at(
        &mut self,
        agent_id: &str,
        agent_token: &str,
        display_name: &str,
        tailscale_ipv4: &str,
        docker_engine_id: &str,
        now: i64,
    ) -> (r: Result<(), StorageError>)
        requires
            old(self).wf(),
            time_ok(now),
        ensures
            final(self).wf(),
            final(self).routes_v() == old(self).routes_v(),
            final(self).tokens_v() == old(self).tokens_v(),
            final(self).ttl_v() == old(self).ttl_v(),
            final(self).path_v() == old(self).path_v(),
            match r {
                Ok(()) => find_agent(old(self).agents_v(), agent_id@) is None && final(self).agents_v()
                    == old(self).agents_v().push(
                    enrolled_agent(agent_id@, agent_token@, display_name@, tailscale_ipv4@, docker_engine_id@, now),
                ),
                Err(e) => e is Conflict && find_agent(old(self).agents_v(), agent_id@) is Some
                    && final(self).agents_v() == old(self).agents_v(),
            },
    {
        let id = to_chars(agent_id);
        let ghost v = self.agents_v();
        if self.agent_index(&id).is_some() {
            return Err(StorageError::Conflict);
        }
        let row = AgentRow {
            agent_id: agent_id.to_string(),
            display_name: display_name.to_string(),
            tailscale_ipv4: tailscale_ipv4.to_string(),
            docker_engine_id: docker_engine_id.to_string(),
            credential_hash: hash_token(agent_token),
            created_at: now,
            last_seen_at: Some(now),
            revoked_at: None,
        };
        let ghost x = row@;
        self.agents.push(row);
        proof {
            let nv = self.agents_v();
            assert(nv =~= v.push(x));
            lemma_find_agent_cases(v, agent_id@);
            assert forall|a: int, b: int| 0 <= a < b < nv.len() implies nv[a].agent_id != nv[b].agent_id by {
                assert(nv[a] == v[a]);
                if b < v.len() {
                    assert(nv[b] == v[b]);
                }
            }
            assert forall|j: int| 0 <= j < nv.len() implies {
                &&& time_ok((#[trigger] nv[j]).created_at)
                &&& opt_time_ok(nv[j].last_seen_at)
                &&& opt_time_ok(nv[j].revoked_at)
            } by {
                if j < v.len() {
                    assert(nv[j] == v[j]);
                }
            }
        }
        Ok(())
    }

    /// Enrolls an agent: a fresh id `agt_` + 24 hex characters and a credential of
    /// 64 hex characters, returned as `(agent_id, agent_token)`; only the
    /// credential's hash is stored.
    pub fn enroll_agent_at(&mut self, display_name: &str, tailscale_ipv4: &str, docker_engine_id: &str, now: i64) -> (r:
        Result<(String, String), StorageError>)
        requires
            old(self).wf(),
            time_ok(now),
        ensures
            final(self).wf(),
            final(self).routes_v() == old(self).routes_v(),
            final(self).tokens_v() == old(self).tokens_v(),
            final(self).ttl_v() == old(self).ttl_v(),
            final(self).path_v() == old(self).path_v(),
            match r {
                Ok((id, tok)) => {
                    &&& id@.len() == 28
                    &&& id@.subrange(0, 4) == "agt_"@
                    &&& tok@.len() == 64
                    &&& final(self).agents_v() == old(self).agents_v().push(
                        enrolled_agent(id@, tok@, display_name@, tailscale_ipv4@, docker_engine_id@, now),
                    )
                },
                Err(e) => final(self).agents_v() == old(self).agents_v() && (random_error(e) || e is Conflict),
            },
    {
        let suffix = match generate_token(12) {
            None => {
                return Err(StorageError::Other("random source unavailable".to_string()));
            },
            Some(t) => t,
        };
        let token = match generate_token(32) {
            None => {
                return Err(StorageError::Other("random source unavailable".to_string()));
            },
            Some(t) => t,
        };
        let mut idc: Vec<char> = Vec::new();
        push_str(&mut idc, "agt_");
        let sc = to_chars(suffix.as_str());
        crate::text::push_chars(&mut idc, &sc);
        let agent_id = from_chars(&idc);
        proof {
            reveal_strlit("agt_");
            assert(agent_id@.subrange(0, 4) =~= "agt_"@);
        }
        match self.add_agent_at(agent_id.as_str(), token.as_str(), display_name, tailscale_ipv4, docker_engine_id, now) {
            Ok(()) => Ok((agent_id, token)),
            Err(e) => Err(e),
        }
    }
}

// ---------------------------------------------------------------- clocked operations

/// Reads the system clock: `std::time::SystemTime::now()` measured from
/// `UNIX_EPOCH` with `duration_since`, in whole milliseconds: `Ok(ms)` at or
/// after the epoch, `Err(ms)` (the distance back) before it, as that call's
/// `Result` reports. What it returns is the clock's reading; nothing is stated of it.
#[verifier::external_body]
fn system_clock_millis() -> (r: Result<u128, u128>) {
    match std::time::SystemTime::now().duration_since(std::time::UNIX_EPOCH) {
        Ok(d) => Ok(d.as_millis()),
        Err(e) => Err(e.duration().as_millis()),
    }
}

/// The error of a clock reading outside the range the tables keep.
pub open spec fn clock_error(e: StorageError) -> bool {
    e matches StorageError::Other(m) && m@ == "clock out of range"@
}

/// The error of a random source that failed.
pub open spec fn random_error(e: StorageError) -> bool {
    e matches StorageError::Other(m) && m@ == "random source unavailable"@
}

/// Milliseconds from the epoch of a clock reading: `Ok(ms)` after it, `Err(ms)` before.
pub open spec fn reading_ms(reading: Result<u128, u128>) -> int {
    match reading {
        Ok(m) => m as int,
        Err(m) => -(m as int),
    }
}

/// A clock reading taken as a time of the tables: its milliseconds from the
/// epoch when in range, else the clock error.
pub fn clock_reading(reading: Result<u128, u128>) -> (r: Result<i64, StorageError>)
    ensures
        -TIME_BOUND <= reading_ms(reading) <= TIME_BOUND ==> r == Ok::<i64, StorageError>(
            reading_ms(reading) as i64,
        ),
        !(-TIME_BOUND <= reading_ms(reading) <= TIME_BOUND) ==> (r matches Err(e) && clock_error(e)),
{
    let bound: u128 = TIME_BOUND as u128;
    match reading {
        Ok(m) => if m <= bound {
            Ok(m as i64)
        } else {
            Err(StorageError::Other("clock out of range".to_string()))
        },
        Err(m) => if m <= bound {
            let t = m as i64;
            Ok(-t)
        } else {
            Err(StorageError::Other("clock out of range".to_string()))
        },
    }
}

/// The current time, if within the range the tables keep; the clock error
/// otherwise. Which reading the clock gives is not stated.
fn clock() -> (r: Result<i64, StorageError>)
    ensures
        match r {
            Ok(t) => time_ok(t),
            Err(e) => clock_error(e),
        },
{
    clock_reading(system_clock_millis())
}

/// Tables other than the agents are as before.
pub open spec fn same_but_agents(a: &Storage, b: &Storage) -> bool {
    &&& a.routes_v() == b.routes_v()
    &&& a.tokens_v() == b.tokens_v()
    &&& a.ttl_v() == b.ttl_v()
    &&& a.path_v() == b.path_v()
}

impl Storage {
    /// Records a heartbeat at the current time.
    pub fn heartbeat(&mut self, agent_id: &str, tailscale_ipv4: &str) -> (r: Result<(), StorageError>)
        requires
            old(self).wf(),
        ensures
            final(self).wf(),
            same_but_agents(final(self), old(self)),
            match r {
                Ok(()) => active_agent(old(self).agents_v(), agent_id@) is Some && exists|now: i64|
                    time_ok(now) && final(self).agents_v() == heartbeat_agents(
                        old(self).agents_v(),
                        agent_id@,
                        tailscale_ipv4@,
                        now,
                    ),
                Err(e) => final(self).agents_v() == old(self).agents_v() && (clock_error(e) || (e is NotFound
                    && active_agent(old(self).agents_v(), agent_id@) is None)),
            },
    {
        let now = match clock() {
            Ok(t) => t,
            Err(e) => {
                return Err(e);
            },
        };
        self.heartbeat_at(agent_id, tailscale_ipv4, now)
    }

    /// Replaces an agent's route set at the current time (see `put_routes_at`).
    pub fn put_routes(&mut self, agent_id: &str, routes: &[RouteEntry], ttl_ms: i64) -> (r: Result<
        PutRoutesOutcome,
        StorageError,
    >)
        requires
            old(self).wf(),
            0 <= ttl_ms <= TIME_BOUND,
        ensures
            final(self).wf(),
            final(self).agents_v() == old(self).agents_v(),
            final(self).tokens_v() == old(self).tokens_v(),
            final(self).ttl_v() == old(self).ttl_v(),
            final(self).path_v() == old(self).path_v(),
            match r {
                Err(e) => final(self).routes_v() == old(self).routes_v() && (clock_error(e) || (e is NotFound
                    && active_agent(old(self).agents_v(), agent_id@) is None)),
                Ok(out) => active_agent(old(self).agents_v(), agent_id@) is Some && exists|now: i64|
                    {
                        &&& time_ok(now)
                        &&& out.accepted@.map_values(|s: String| s@) == put_accepted(
                            old(self).agents_v(),
                            old(self).routes_v(),
                            agent_id@,
                            entries_v(routes@),
                            now,
                            ttl_ms,
                        )
                        &&& out.conflicts@.map_values(|c: RouteConflict| conflict_v(c)) == put_conflicts(
                            old(self).agents_v(),
                            old(self).routes_v(),
                            agent_id@,
                            entries_v(routes@),
                            now,
                            ttl_ms,
                        )
                        &&& forall|h: Seq<char>|
                            #[trigger] find_route(final(self).routes_v(), h) == put_routes_result(
                                old(self).agents_v(),
                                old(self).routes_v(),
                                agent_id@,
                                entries_v(routes@),
                                now,
                                ttl_ms,
                                h,
                            )
                    },
            },
    {
        let now = match clock() {
            Ok(t) => t,
            Err(e) => {
                return Err(e);
            },
        };
        self.put_routes_at(agent_id, routes, ttl_ms, now)
    }

    /// Revokes an agent at the current time and drops its routes.
    pub fn revoke_agent(&mut self, agent_id: &str) -> (r: Result<(), StorageError>)
        requires
            old(self).wf(),
        ensures
            final(self).wf(),
            final(self).tokens_v() == old(self).tokens_v(),
            final(self).ttl_v() == old(self).ttl_v(),
            final(self).path_v() == old(self).path_v(),
            match r {
                Ok(()) => (exists|now: i64|
                    time_ok(now) && final(self).agents_v() == revoke_agents(old(self).agents_v(), agent_id@, now))
                    && final(self).routes_v() == filter_routes(old(self).routes_v(), keep_not_agent(agent_id@)),
                Err(e) => final(self).agents_v() == old(self).agents_v() && final(self).routes_v()
                    == old(self).routes_v() && clock_error(e),
            },
    {
        let now = match clock() {
            Ok(t) => t,
            Err(e) => {
                return Err(e);
            },
        };
        self.revoke_agent_at(agent_id, now)
    }

    /// Creates a one-time enrollment token at the current time.
    pub fn create_enrollment_token(&mut self) -> (r: Result<EnrollmentTokenRecord, StorageError>)
        requires
            old(self).wf(),
        ensures
            final(self).wf(),
            final(self).agents_v() == old(self).agents_v(),
            final(self).routes_v() == old(self).routes_v(),
            final(self).ttl_v() == old(self).ttl_v(),
            final(self).path_v() == old(self).path_v(),
            match r {
                Ok(rec) => rec.token_plain@.len() == 64 && exists|now: i64|
                    time_ok(now) && final(self).tokens_v() == old(self).tokens_v().push(
                        TokenV { token_hash: hash_token_spec(rec.token_plain@), created_at: now, used_at: None },
                    ),
                Err(e) => final(self).tokens_v() == old(self).tokens_v() && (clock_error(e) || random_error(e)
                    || e is Conflict),
            },
    {
        let now = match clock() {
            Ok(t) => t,
            Err(e) => {
                return Err(e);
            },
        };
        self.create_enrollment_token_at(now)
    }

    /// Consumes an enrollment token at the current time.
    pub fn consume_enrollment_token(&mut self, token: &str) -> (r: Result<(), StorageError>)
        requires
            old(self).wf(),
        ensures
            final(self).wf(),
            final(self).agents_v() == old(self).agents_v(),
            final(self).routes_v() == old(self).routes_v(),
            final(self).ttl_v() == old(self).ttl_v(),
            final(self).path_v() == old(self).path_v(),
            r is Ok ==> token_open(old(self).tokens_v(), hash_token_spec(token@)),
            r is Ok ==> !token_open(final(self).tokens_v(), hash_token_spec(token@)),
            match r {
                Ok(()) => exists|k: int, now: i64|
                    #![trigger mark_used(old(self).tokens_v(), k, now)]
                    0 <= k < old(self).tokens_v().len() && time_ok(now)
                        && old(self).tokens_v()[k].token_hash == hash_token_spec(token@)
                        && old(self).tokens_v()[k].used_at is None && final(self).tokens_v() == mark_used(
                        old(self).tokens_v(),
                        k,
                        now,
                    ),
                Err(e) => final(self).tokens_v() == old(self).tokens_v() && (clock_error(e) || (e is Other
                    && !token_open(old(self).tokens_v(), hash_token_spec(token@)))),
            },
    {
        let now = match clock() {
            Ok(t) => t,
            Err(e) => {
                return Err(e);
            },
        };
        self.consume_enrollment_token_at(token, now)
    }

    /// Enrolls an agent at the current time.
    pub fn enroll_agent(&mut self, display_name: &str, tailscale_ipv4: &str, docker_engine_id: &str) -> (r:
        Result<(String, String), StorageError>)
        requires
            old(self).wf(),
        ensures
            final(self).wf(),
            same_but_agents(final(self), old(self)),
            match r {
                Ok((id, tok)) => {
                    &&& id@.len() == 28
                    &&& id@.subrange(0, 4) == "agt_"@
                    &&& tok@.len() == 64
                    &&& exists|now: i64|
                        time_ok(now) && final(self).agents_v() == old(self).agents_v().push(
                            enrolled_agent(id@, tok@, display_name@, tailscale_ipv4@, docker_engine_id@, now),
                        )
                },
                Err(e) => final(self).agents_v() == old(self).agents_v() && (clock_error(e) || random_error(e)
                    || e is Conflict),
            },
    {
        let now = match clock() {
            Ok(t) => t,
            Err(e) => {
                return Err(e);
            },
        };
        self.enroll_agent_at(display_name, tailscale_ipv4, docker_engine_id, now)
    }

    /// Routes of live agents at the current time.
    pub fn list_routes_admin(&self, ttl_ms: i64) -> (r: Result<Vec<AdminRouteRow>, StorageError>)
        requires
            self.wf(),
            0 <= ttl_ms <= TIME_BOUND,
        ensures
            r matches Ok(v) ==> exists|now: i64|
                time_ok(now) && v@.map_values(|x: AdminRouteRow| admin_row_v(x)) == admin_routes_spec(
                    self.agents_v(),
                    self.routes_v(),
                    now,
                    ttl_ms,
                ),
            r matches Err(e) ==> clock_error(e),
    {
        let now = match clock() {
            Ok(t) => t,
            Err(e) => {
                return Err(e);
            },
        };
        Ok(self.list_routes_admin_at(ttl_ms, now))
    }

    /// Hostnames DNS answers at the current time.
    pub fn active_dns_routes(&self, ttl_ms: i64) -> (r: Result<Vec<DnsRoute>, StorageError>)
        requires
            self.wf(),
            0 <= ttl_ms <= TIME_BOUND,
        ensures
            r matches Ok(v) ==> exists|now: i64|
                time_ok(now) && v@.map_values(|d: DnsRoute| dns_route_v(d)) == dns_routes_spec(
                    self.agents_v(),
                    self.routes_v(),
                    now,
                    ttl_ms,
                ),
            r matches Err(e) ==> clock_error(e),
    {
        let now = match clock() {
            Ok(t) => t,
            Err(e) => {
                return Err(e);
            },
        };
        Ok(self.active_dns_routes_at(ttl_ms, now))
    }

    /// Drops the routes of agents whose lease lapsed by the current time.
    pub fn purge_expired_agents(&mut self, ttl_ms: i64) -> (r: Result<u64, StorageError>)
        requires
            old(self).wf(),
            0 <= ttl_ms <= TIME_BOUND,
        ensures
            final(self).wf(),
            final(self).agents_v() == old(self).agents_v(),
            final(self).tokens_v() == old(self).tokens_v(),
            final(self).ttl_v() == old(self).ttl_v(),
            final(self).path_v() == old(self).path_v(),
            match r {
                Ok(n) => n == old(self).routes_v().len() - final(self).routes_v().len() && exists|now: i64|
                    time_ok(now) && final(self).routes_v() == filter_routes(
                        old(self).routes_v(),
                        keep_unexpired(old(self).agents_v(), now, ttl_ms),
                    ),
                Err(e) => final(self).routes_v() == old(self).routes_v() && clock_error(e),
            },
    {
        let now = match clock() {
            Ok(t) => t,
            Err(e) => {
                return Err(e);
            },
        };
        Ok(self.purge_expired_agents_at(ttl_ms, now))
    }
}

// ---------------------------------------------------------------- laws

/// `find_agent` commutes with a row update that keeps every agent id.
pub proof fn lemma_find_agent_map(s: Seq<AgentV>, f: spec_fn(AgentV) -> AgentV, id: Seq<char>)
    requires
        forall|a: AgentV| #[trigger] f(a).agent_id == a.agent_id,
    ensures
        find_agent(s.map_values(f), id) == match find_agent(s, id) {
            Some(a) => Some(f(a)),
            None => None,
        },
    decreases s.len(),
{
    if s.len() > 0 {
        assert(s.map_values(f).drop_first() =~= s.drop_first().map_values(f));
        assert(s.map_values(f)[0] == f(s[0]));
        lemma_find_agent_map(s.drop_first(), f, id);
    }
}

/// A hostname that another agent holds with a live lease is never taken over by
/// a route set: its row stays as it was.
pub proof fn lemma_put_routes_keeps_live_owner(
    agents: Seq<AgentV>,
    routes: Seq<RouteV>,
    agent_id: Seq<char>,
    es: Seq<EntryV>,
    now: i64,
    ttl: i64,
    h: Seq<char>,
)
    requires
        route_blocked(agents, routes, agent_id, h, now, ttl),
    ensures
        put_routes_result(agents, routes, agent_id, es, now, ttl, h) == find_route(routes, h),
{
}

/// A hostname whose owner's lease has lapsed (or whose owner is gone) is
/// reclaimable: the agent that lists it takes it over.
pub proof fn lemma_put_routes_reclaims_lapsed(
    agents: Seq<AgentV>,
    routes: Seq<RouteV>,
    agent_id: Seq<char>,
    es: Seq<EntryV>,
    now: i64,
    ttl: i64,
    h: Seq<char>,
)
    requires
        find_route(routes, h) matches Some(r) && !(find_agent(agents, r.agent_id) matches Some(a) && alive(a, now, ttl)),
        last_entry(es, h) is Some,
    ensures
        put_routes_result(agents, routes, agent_id, es, now, ttl, h) == Some(
            new_route(h, agent_id, last_entry(es, h)->Some_0, now),
        ),
{
}

/// A route set replaces the agent's routes as a whole: afterwards the agent holds
/// exactly the hostnames its entries name and no live agent held.
pub proof fn lemma_put_routes_replaces_set(
    agents: Seq<AgentV>,
    routes: Seq<RouteV>,
    agent_id: Seq<char>,
    es: Seq<EntryV>,
    now: i64,
    ttl: i64,
    h: Seq<char>,
)
    ensures
        (put_routes_result(agents, routes, agent_id, es, now, ttl, h) matches Some(r) && r.agent_id == agent_id)
            <==> (last_entry(es, h) is Some && !route_blocked(agents, routes, agent_id, h, now, ttl)),
{
}

/// The accepted hostnames are exactly the listed hostnames no live agent holds.
pub proof fn lemma_put_accepted_contains(
    agents: Seq<AgentV>,
    routes: Seq<RouteV>,
    agent_id: Seq<char>,
    es: Seq<EntryV>,
    now: i64,
    ttl: i64,
    h: Seq<char>,
)
    ensures
        put_accepted(agents, routes, agent_id, es, now, ttl).contains(h) <==> (last_entry(es, h) is Some
            && !route_blocked(agents, routes, agent_id, h, now, ttl)),
    decreases es.len(),
{
    if es.len() > 0 {
        let t = es.drop_last();
        let prev = put_accepted(agents, routes, agent_id, t, now, ttl);
        let x = lower_seq(es.last().hostname);
        lemma_put_accepted_contains(agents, routes, agent_id, t, now, ttl, h);
        if !route_blocked(agents, routes, agent_id, x, now, ttl) {
            assert(prev.push(x)[prev.len() as int] == x);
            if prev.push(x).contains(h) && h != x {
                let k = choose|k: int| 0 <= k < prev.push(x).len() && prev.push(x)[k] == h;
                assert(prev[k] == h);
            }
            if prev.contains(h) {
                let k = choose|k: int| 0 <= k < prev.len() && prev[k] == h;
                assert(prev.push(x)[k] == h);
            }
        }
    }
}

/// After a route set is stored, the agent owns exactly the hostnames reported
/// as accepted: every other hostname it held before is released. (With an
/// empty route set it owns nothing.)
pub proof fn lemma_put_routes_owns_accepted(
    agents: Seq<AgentV>,
    routes: Seq<RouteV>,
    agent_id: Seq<char>,
    es: Seq<EntryV>,
    now: i64,
    ttl: i64,
)
    ensures
        forall|h: Seq<char>|
            #![trigger put_routes_result(agents, routes, agent_id, es, now, ttl, h)]
            (put_routes_result(agents, routes, agent_id, es, now, ttl, h) matches Some(r) && r.agent_id == agent_id)
                <==> put_accepted(agents, routes, agent_id, es, now, ttl).contains(h),
        Set::new(
            |h: Seq<char>|
                put_routes_result(agents, routes, agent_id, es, now, ttl, h) matches Some(r) && r.agent_id
                    == agent_id,
        ) == put_accepted(agents, routes, agent_id, es, now, ttl).to_set(),
{
    assert forall|h: Seq<char>|
        (put_routes_result(agents, routes, agent_id, es, now, ttl, h) matches Some(r) && r.agent_id == agent_id)
            <==> put_accepted(agents, routes, agent_id, es, now, ttl).contains(h) by {
        lemma_put_routes_replaces_set(agents, routes, agent_id, es, now, ttl, h);
        lemma_put_accepted_contains(agents, routes, agent_id, es, now, ttl, h);
    }
    assert(Set::new(
        |h: Seq<char>|
            put_routes_result(agents, routes, agent_id, es, now, ttl, h) matches Some(r) && r.agent_id == agent_id,
    ) =~= put_accepted(agents, routes, agent_id, es, now, ttl).to_set());
}

/// A revoked agent is no longer active (so it can neither heartbeat nor register
/// routes) and none of the remaining routes is its.
pub proof fn lemma_revoke_disables_agent(agents: Seq<AgentV>, routes: Seq<RouteV>, id: Seq<char>, now: i64)
    ensures
        active_agent(revoke_agents(agents, id, now), id) is None,
        forall|i: int|
            0 <= i < filter_routes(routes, keep_not_agent(id)).len() ==> (#[trigger] filter_routes(
                routes,
                keep_not_agent(id),
            )[i]).agent_id != id,
{
    let f = |a: AgentV|
        if a.agent_id == id {
            AgentV {
                agent_id: a.agent_id,
                display_name: a.display_name,
                tailscale_ipv4: a.tailscale_ipv4,
                docker_engine_id: a.docker_engine_id,
                credential_hash: a.credential_hash,
                created_at: a.created_at,
                last_seen_at: a.last_seen_at,
                revoked_at: Some(now),
            }
        } else {
            a
        };
    assert(revoke_agents(agents, id, now) == agents.map_values(f));
    lemma_find_agent_map(agents, f, id);
    lemma_find_agent_has_id(agents, id);
    lemma_filter_keeps(routes, keep_not_agent(id));
}

/// Every row of a filtered table passes the filter.
pub proof fn lemma_filter_keeps(s: Seq<RouteV>, keep: spec_fn(RouteV) -> bool)
    ensures
        forall|i: int| 0 <= i < filter_routes(s, keep).len() ==> keep(#[trigger] filter_routes(s, keep)[i]),
        filter_routes(s, keep).len() <= s.len(),
    decreases s.len(),
{
    if s.len() > 0 {
        lemma_filter_keeps(s.drop_last(), keep);
        let p = filter_routes(s.drop_last(), keep);
        if keep(s.last()) {
            assert forall|i: int| 0 <= i < p.push(s.last()).len() implies keep(#[trigger] p.push(s.last())[i]) by {
                if i < p.len() {
                    assert(p.push(s.last())[i] == p[i]);
                }
            }
        }
    }
}

/// A heartbeat keeps the agent's lease live: right after it, the agent is alive
/// for any positive TTL and carries the reported address.
pub proof fn lemma_heartbeat_renews_lease(agents: Seq<AgentV>, id: Seq<char>, ip: Seq<char>, now: i64, ttl: i64)
    requires
        active_agent(agents, id) is Some,
        0 < ttl,
    ensures
        active_agent(heartbeat_agents(agents, id, ip, now), id) matches Some(a) && alive(a, now, ttl)
            && a.tailscale_ipv4 == ip,
{
    let f = |a: AgentV|
        if a.agent_id == id && a.revoked_at is None {
            AgentV {
                agent_id: a.agent_id,
                display_name: a.display_name,
                tailscale_ipv4: ip,
                docker_engine_id: a.docker_engine_id,
                credential_hash: a.credential_hash,
                created_at: a.created_at,
                last_seen_at: Some(now),
                revoked_at: a.revoked_at,
            }
        } else {
            a
        };
    assert(heartbeat_agents(agents, id, ip, now) == agents.map_values(f));
    lemma_find_agent_map(agents, f, id);
    lemma_find_agent_has_id(agents, id);
}

pub proof fn lemma_find_agent_has_id(s: Seq<AgentV>, id: Seq<char>)
    ensures
        find_agent(s, id) matches Some(a) ==> a.agent_id == id,
    decreases s.len(),
{
    if s.len() > 0 {
        lemma_find_agent_has_id(s.drop_first(), id);
    }
}

/// Purging lapsed leases never changes what DNS answers at the same time and TTL.
pub proof fn lemma_purge_keeps_dns(agents: Seq<AgentV>, routes: Seq<RouteV>, now: i64, ttl: i64)
    requires
        forall|i: int| 0 <= i < agents.len() ==> opt_time_ok(#[trigger] agents[i].last_seen_at),
        time_ok(now),
        0 <= ttl <= TIME_BOUND,
    ensures
        dns_routes_spec(agents, filter_routes(routes, keep_unexpired(agents, now, ttl)), now, ttl)
            == dns_routes_spec(agents, routes, now, ttl),
    decreases routes.len(),
{
    if routes.len() > 0 {
        let t = routes.drop_last();
        let r = routes.last();
        let keep = keep_unexpired(agents, now, ttl);
        lemma_purge_keeps_dns(agents, t, now, ttl);
        let ft = filter_routes(t, keep);
        if keep(r) {
            assert(ft.push(r).drop_last() =~= ft);
            assert(ft.push(r).last() == r);
        }
    }
}

/// Listed agents are rows of the table: their times are in range.
pub proof fn lemma_active_agents_sub(s: Seq<AgentV>, i: int)
    requires
        forall|k: int| 0 <= k < s.len() ==> opt_time_ok(#[trigger] s[k].last_seen_at),
        0 <= i < active_agents(s).len(),
    ensures
        opt_time_ok(active_agents(s)[i].last_seen_at),
    decreases s.len(),
{
    if s.len() > 0 {
        let t = s.drop_last();
        assert forall|k: int| 0 <= k < t.len() implies opt_time_ok(#[trigger] t[k].last_seen_at) by {
            assert(t[k] == s[k]);
        }
        let p = active_agents(t);
        if s.last().revoked_at is None && i == p.len() {
            assert(s[s.len() - 1] == s.last());
        } else {
            lemma_active_agents_sub(t, i);
        }
    }
}

// ---------------------------------------------------------------- loading saved tables

fn opt_time_in_range(t: Option<i64>) -> (r: bool)
    ensures
        r == opt_time_ok(t),
{
    match t {
        Some(x) => -TIME_BOUND <= x && x <= TIME_BOUND,
        None => true,
    }
}

/// Whether saved agent rows have unique ids and times in range.
fn agents_ok(v: &Vec<AgentRow>) -> (r: bool)
    ensures
        r == (unique_agents(seq_agents(v@)) && forall|i: int|
            0 <= i < v@.len() ==> {
                &&& time_ok((#[trigger] seq_agents(v@)[i]).created_at)
                &&& opt_time_ok(seq_agents(v@)[i].last_seen_at)
                &&& opt_time_ok(seq_agents(v@)[i].revoked_at)
            }),
{
    let ghost sv = seq_agents(v@);
    let mut i: usize = 0;
    while i < v.len()
        invariant
            i <= v.len(),
            sv == seq_agents(v@),
            forall|a: int, b: int| 0 <= a < b < i ==> sv[a].agent_id != sv[b].agent_id,
            forall|k: int|
                0 <= k < i ==> {
                    &&& time_ok((#[trigger] sv[k]).created_at)
                    &&& opt_time_ok(sv[k].last_seen_at)
                    &&& opt_time_ok(sv[k].revoked_at)
                },
        decreases v.len() - i,
    {
        assert(sv[i as int] == v@[i as int]@);
        let row = &v[i];
        if !(-TIME_BOUND <= row.created_at && row.created_at <= TIME_BOUND && opt_time_in_range(row.last_seen_at)
            && opt_time_in_range(row.revoked_at)) {
            return false;
        }
        let ki = to_chars(row.agent_id.as_str());
        let mut j: usize = 0;
        while j < i
            invariant
                j <= i < v.len(),
                sv == seq_agents(v@),
                ki@ == sv[i as int].agent_id,
                forall|a: int| 0 <= a < j ==> sv[a].agent_id != sv[i as int].agent_id,
            decreases i - j,
        {
            assert(sv[j as int] == v@[j as int]@);
            let kj = to_chars(v[j].agent_id.as_str());
            if chars_eq(&kj, &ki) {
                return false;
            }
            j = j + 1;
        }
        i = i + 1;
    }
    true
}

/// Whether saved route rows have unique hostnames and times in range.
fn routes_ok(v: &Vec<RouteRow>) -> (r: bool)
    ensures
        r == (unique_routes(seq_routes(v@)) && forall|i: int|
            0 <= i < v@.len() ==> time_ok((#[trigger] seq_routes(v@)[i]).updated_at)),
{
    let ghost sv = seq_routes(v@);
    let mut i: usize = 0;
    while i < v.len()
        invariant
            i <= v.len(),
            sv == seq_routes(v@),
            forall|a: int, b: int| 0 <= a < b < i ==> sv[a].hostname != sv[b].hostname,
            forall|k: int| 0 <= k < i ==> time_ok((#[trigger] sv[k]).updated_at),
        decreases v.len() - i,
    {
        assert(sv[i as int] == v@[i as int]@);
        let row = &v[i];
        if !(-TIME_BOUND <= row.updated_at && row.updated_at <= TIME_BOUND) {
            return false;
        }
        let ki = to_chars(row.hostname.as_str());
        let mut j: usize = 0;
        while j < i
            invariant
                j <= i < v.len(),
                sv == seq_routes(v@),
                ki@ == sv[i as int].hostname,
                forall|a: int| 0 <= a < j ==> sv[a].hostname != sv[i as int].hostname,
            decreases i - j,
        {
            assert(sv[j as int] == v@[j as int]@);
            let kj = to_chars(v[j].hostname.as_str());
            if chars_eq(&kj, &ki) {
                return false;
            }
            j = j + 1;
        }
        i = i + 1;
    }
    true
}

/// Whether saved token rows have unique hashes and times in range.
fn tokens_ok(v: &Vec<TokenRow>) -> (r: bool)
    ensures
        r == (unique_tokens(seq_tokens(v@)) && forall|i: int|
            0 <= i < v@.len() ==> {
                &&& time_ok((#[trigger] seq_tokens(v@)[i]).created_at)
                &&& opt_time_ok(seq_tokens(v@)[i].used_at)
            }),
{
    let ghost sv = seq_tokens(v@);
    let mut i: usize = 0;
    while i < v.len()
        invariant
            i <= v.len(),
            sv == seq_tokens(v@),
            forall|a: int, b: int| 0 <= a < b < i ==> sv[a].token_hash != sv[b].token_hash,
            forall|k: int|
                0 <= k < i ==> {
                    &&& time_ok((#[trigger] sv[k]).created_at)
                    &&& opt_time_ok(sv[k].used_at)
                },
        decreases v.len() - i,
    {
        assert(sv[i as int] == v@[i as int]@);
        let row = &v[i];
        if !(-TIME_BOUND <= row.created_at && row.created_at <= TIME_BOUND && opt_time_in_range(row.used_at)) {
            return false;
        }
        let ki = to_chars(row.token_hash.as_str());
        let mut j: usize = 0;
        while j < i
            invariant
                j <= i < v.len(),
                sv == seq_tokens(v@),
                ki@ == sv[i as int].token_hash,
                forall|a: int| 0 <= a < j ==> sv[a].token_hash != sv[i as int].token_hash,
            decreases i - j,
        {
            assert(sv[j as int] == v@[j as int]@);
            let kj = to_chars(v[j].token_hash.as_str());
            if chars_eq(&kj, &ki) {
                return false;
            }
            j = j + 1;
        }
        i = i + 1;
    }
    true
}

/// Saved tables are consistent: primary keys unique, times in range.
pub open spec fn tables_ok(agents: Seq<AgentV>, routes: Seq<RouteV>, tokens: Seq<TokenV>) -> bool {
    &&& unique_agents(agents)
    &&& unique_routes(routes)
    &&& unique_tokens(tokens)
    &&& forall|i: int|
        0 <= i < agents.len() ==> {
            &&& time_ok((#[trigger] agents[i]).created_at)
            &&& opt_time_ok(agents[i].last_seen_at)
            &&& opt_time_ok(agents[i].revoked_at)
        }
    &&& forall|i: int| 0 <= i < routes.len() ==> time_ok((#[trigger] routes[i]).updated_at)
    &&& forall|i: int|
        0 <= i < tokens.len() ==> {
            &&& time_ok((#[trigger] tokens[i]).created_at)
            &&& opt_time_ok(tokens[i].used_at)
        }
}

/// What a store holds can always be restored: rows that show the tables of a
/// well-formed store are consistent, so `restore` takes them back.
pub proof fn lemma_saved_tables_restore(
    st: Storage,
    agents: Seq<AgentRow>,
    routes: Seq<RouteRow>,
    tokens: Seq<TokenRow>,
)
    requires
        st.wf(),
        seq_agents(agents) == st.agents_v(),
        seq_routes(routes) == st.routes_v(),
        seq_tokens(tokens) == st.tokens_v(),
    ensures
        tables_ok(seq_agents(agents), seq_routes(routes), seq_tokens(tokens)),
{
}

impl Storage {
    /// A store holding saved tables, if they are consistent (unique keys, times
    /// in range); `Other` otherwise.
    pub fn restore(
        sqlite_path: &str,
        agent_ttl_seconds: u64,
        agents: Vec<AgentRow>,
        routes: Vec<RouteRow>,
        tokens: Vec<TokenRow>,
    ) -> (r: Result<Storage, StorageError>)
        requires
            agent_ttl_seconds * 1000 <= TIME_BOUND,
        ensures
            r is Ok <==> tables_ok(seq_agents(agents@), seq_routes(routes@), seq_tokens(tokens@)),
            match r {
                Ok(st) => {
                    &&& st.wf()
                    &&& st.agents_v() == seq_agents(agents@)
                    &&& st.routes_v() == seq_routes(routes@)
                    &&& st.tokens_v() == seq_tokens(tokens@)
                    &&& st.ttl_v() == agent_ttl_seconds * 1000
                    &&& st.path_v() == sqlite_path@
                },
                Err(e) => e is Other,
            },
    {
        if !agents_ok(&agents) || !routes_ok(&routes) || !tokens_ok(&tokens) {
            return Err(StorageError::Other("inconsistent saved tables".to_string()));
        }
        Ok(
            Storage {
                agents,
                routes,
                tokens,
                agent_ttl_ms: (agent_ttl_seconds * 1000) as i64,
                sqlite_path: sqlite_path.to_string(),
            },
        )
    }
}
} // verus!
