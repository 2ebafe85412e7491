//! The controller: configuration and registration policy, admin
//! authentication and sessions, the DNS registry refresh, the admin views and
//! the HTTP replies its API gives.

use vstd::prelude::*;
use crate::api::{
    AdminAgentView, AdminRouteHealthView, AdminRouteView, CreateEnrollmentTokenResponse, EnrollRequest,
    EnrollResponse, HeartbeatRequest, PutRoutesRequest, PutRoutesResponse, RouteEntry,
};
use crate::auth::{constant_time_eq_chars, generate_token};
use crate::dns::{fold_map, registry_pairs, registry_pairs_spec, DnsRegistry};
use crate::store::{
    admin_row_v, dns_route_v, dns_routes_spec, AdminRouteRow, AgentRecord, Storage, TIME_BOUND,
    time_ok,
};
use crate::text::{
    lex_le, lex_le_exec, lemma_lex_refl, lemma_swap_multiset, lemma_lex_total, lemma_lex_trans, chars_eq, contains_pat, contains_seq, ends_with, from_chars, has_prefix, has_suffix, lower_chars,
    lower_seq, push_chars, push_str, slice_range, starts_with, to_chars, trim_chars, trim_seq,
};

verus! {

// ---------------------------------------------------------------- configuration

/// DNS listener and upstream settings (addresses as `ip:port` text).
#[derive(Debug, Clone)]
pub struct DnsConfig {
    pub listen: String,
    pub upstreams: Vec<String>,
    pub service_ttl_seconds: u32,
    pub upstream_timeout_ms: u64,
    pub positive_cache_max_seconds: u64,
    pub negative_cache_max_seconds: u64,
    pub query_timeout_ms: u64,
}

/// HTTP API settings.
#[derive(Debug, Clone)]
pub struct ApiConfig {
    pub listen: String,
    pub admin_token_file: String,
    pub admin_password_file: Option<String>,
    pub admin_username: String,
    pub session_ttl_seconds: u64,
}

#[derive(Debug, Clone)]
pub struct StorageConfig {
    pub sqlite_path: String,
}

#[derive(Debug, Clone)]
pub struct LeaseConfig {
    pub heartbeat_interval_seconds: u64,
    pub agent_ttl_seconds: u64,
}

#[derive(Debug, Clone)]
pub struct BackupConfig {
    pub enabled: bool,
    pub dir: String,
    pub interval_seconds: u64,
    pub keep: usize,
}

/// Registration policy.
#[derive(Debug, Clone)]
pub struct SecurityConfig {
    /// If non-empty, only hostnames ending with these suffixes may be registered.
    pub allowed_suffixes: Vec<String>,
    /// Exact hostnames that must never be registered.
    pub blocked_names: Vec<String>,
}

#[derive(Debug, Clone)]
pub struct ControllerConfig {
    pub dns: DnsConfig,
    pub api: ApiConfig,
    pub storage: StorageConfig,
    pub leases: LeaseConfig,
    pub backup: BackupConfig,
    pub security: SecurityConfig,
}

pub fn default_service_ttl() -> (r: u32)
    ensures
        r == 5,
{
    5
}

pub fn default_upstream_timeout() -> (r: u64)
    ensures
        r == 2000,
{
    2000
}

pub fn default_positive_cache() -> (r: u64)
    ensures
        r == 300,
{
    300
}

pub fn default_negative_cache() -> (r: u64)
    ensures
        r == 30,
{
    30
}

pub fn default_query_timeout() -> (r: u64)
    ensures
        r == 5000,
{
    5000
}

pub fn default_hb() -> (r: u64)
    ensures
        r == 20,
{
    20
}

pub fn default_ttl() -> (r: u64)
    ensures
        r == 90,
{
    90
}

pub fn default_backup_enabled() -> (r: bool)
    ensures
        r,
{
    true
}

pub fn default_backup_dir() -> (r: String)
    ensures
        r@ == "/var/lib/tailsvc-controller/backups"@,
{
    "/var/lib/tailsvc-controller/backups".to_string()
}

pub fn default_backup_interval() -> (r: u64)
    ensures
        r == 3600,
{
    3600
}

pub fn default_backup_keep() -> (r: usize)
    ensures
        r == 48,
{
    48
}

impl Default for BackupConfig {
    fn default() -> (r: BackupConfig)
        ensures
            r.enabled,
            r.dir@ == "/var/lib/tailsvc-controller/backups"@,
            r.interval_seconds == 3600,
            r.keep == 48,
    {
        BackupConfig {
            enabled: default_backup_enabled(),
            dir: default_backup_dir(),
            interval_seconds: default_backup_interval(),
            keep: default_backup_keep(),
        }
    }
}

impl Default for SecurityConfig {
    fn default() -> (r: SecurityConfig)
        ensures
            r.allowed_suffixes@.len() == 0,
            r.blocked_names@.len() == 0,
    {
        SecurityConfig { allowed_suffixes: Vec::new(), blocked_names: Vec::new() }
    }
}

/// `s` without leading dots, as `trim_start_matches('.')` leaves it.
pub open spec fn trim_leading_dots(s: Seq<char>) -> Seq<char>
    decreases s.len(),
{
    if s.len() > 0 && s[0] == '.' {
        trim_leading_dots(s.drop_first())
    } else {
        s
    }
}

fn trim_leading_dots_chars(s: &[char]) -> (r: Vec<char>)
    ensures
        r@ == trim_leading_dots(s@),
{
    let mut i: usize = 0;
    assert(s@.subrange(0, s@.len() as int) =~= s@);
    while i < s.len() && s[i] == '.'
        invariant
            i <= s.len(),
            trim_leading_dots(s@) == trim_leading_dots(s@.subrange(i as int, s@.len() as int)),
        decreases s.len() - i,
    {
        assert(s@.subrange(i as int, s@.len() as int).drop_first() =~= s@.subrange(i + 1, s@.len() as int));
        i = i + 1;
    }
    slice_range(s, i, s.len())
}

pub open spec fn strs_view(v: Seq<String>) -> Seq<Seq<char>> {
    v.map_values(|s: String| s@)
}

/// The registration policy's verdict on a hostname (case ignored): blocked
/// names are refused; with allowed suffixes, the name must equal one (leading
/// dots dropped) or end with one.
pub open spec fn hostname_policy(blocked: Seq<Seq<char>>, allowed: Seq<Seq<char>>, host: Seq<char>) -> Result<
    (),
    Seq<char>,
> {
    let h = lower_seq(host);
    if exists|i: int| 0 <= i < blocked.len() && h == lower_seq(#[trigger] blocked[i]) {
        Err("hostname blocked by policy: "@ + host)
    } else if allowed.len() == 0 {
        Ok(())
    } else if exists|i: int|
        0 <= i < allowed.len() && (h == trim_leading_dots(lower_seq(#[trigger] allowed[i])) || ends_with(
            h,
            lower_seq(allowed[i]),
        )) {
        Ok(())
    } else {
        Err("hostname not under allowed_suffixes: "@ + host)
    }
}

fn prefixed_message(prefix: &str, host: &str) -> (r: String)
    ensures
        r@ == prefix@ + host@,
{
    let mut v = to_chars(prefix);
    push_str(&mut v, host);
    from_chars(&v)
}

impl ControllerConfig {
    /// Checks a hostname against the registration policy.
    pub fn hostname_allowed(&self, host: &str) -> (r: Result<(), String>)
        ensures
            match hostname_policy(
                strs_view(self.security.blocked_names@),
                strs_view(self.security.allowed_suffixes@),
                host@,
            ) {
                Ok(()) => r is Ok,
                Err(m) => r matches Err(x) && x@ == m,
            },
    {
        let hc = to_chars(host);
        let h = lower_chars(&hc);
        let ghost bv = strs_view(self.security.blocked_names@);
        let ghost av = strs_view(self.security.allowed_suffixes@);
        let mut i: usize = 0;
        while i < self.security.blocked_names.len()
            invariant
                i <= self.security.blocked_names.len(),
                bv == strs_view(self.security.blocked_names@),
                h@ == lower_seq(host@),
                forall|k: int| 0 <= k < i ==> h@ != lower_seq(#[trigger] bv[k]),
            decreases self.security.blocked_names.len() - i,
        {
            assert(bv[i as int] == self.security.blocked_names@[i as int]@);
            let b = to_chars(self.security.blocked_names[i].as_str());
            let bl = lower_chars(&b);
            if chars_eq(&h, &bl) {
                return Err(prefixed_message("hostname blocked by policy: ", host));
            }
            i = i + 1;
        }
        if self.security.allowed_suffixes.len() == 0 {
            return Ok(());
        }
        let mut j: usize = 0;
        while j < self.security.allowed_suffixes.len()
            invariant
                j <= self.security.allowed_suffixes.len(),
                av == strs_view(self.security.allowed_suffixes@),
                bv == strs_view(self.security.blocked_names@),
                av.len() > 0,
                h@ == lower_seq(host@),
                forall|k: int| 0 <= k < bv.len() ==> h@ != lower_seq(#[trigger] bv[k]),
                forall|k: int|
                    0 <= k < j ==> !(h@ == trim_leading_dots(lower_seq(#[trigger] av[k])) || ends_with(
                        h@,
                        lower_seq(av[k]),
                    )),
            decreases self.security.allowed_suffixes.len() - j,
        {
            assert(av[j as int] == self.security.allowed_suffixes@[j as int]@);
            let sc = to_chars(self.security.allowed_suffixes[j].as_str());
            let s = lower_chars(&sc);
            let t = trim_leading_dots_chars(&s);
            if chars_eq(&h, &t) || has_suffix(&h, &s) {
                assert(h@ == trim_leading_dots(lower_seq(av[j as int])) || ends_with(h@, lower_seq(av[j as int])));
                return Ok(());
            }
            j = j + 1;
        }
        Err(prefixed_message("hostname not under allowed_suffixes: ", host))
    }
}

/// `m` is the refusal of the first hostname in `routes` that the policy refuses.
pub open spec fn first_refusal(
    blocked: Seq<Seq<char>>,
    allowed: Seq<Seq<char>>,
    routes: Seq<RouteEntry>,
    m: Seq<char>,
) -> bool {
    exists|i: int|
        0 <= i < routes.len() && hostname_policy(blocked, allowed, #[trigger] routes[i].hostname@) == Err::<
            (),
            Seq<char>,
        >(m) && forall|k: int| 0 <= k < i ==> hostname_policy(blocked, allowed, #[trigger] routes[k].hostname@) is Ok
}

/// Checks every hostname of a route set against the policy; the first refusal wins.
pub fn check_routes_allowed(cfg: &ControllerConfig, routes: &[RouteEntry]) -> (r: Result<(), String>)
    ensures
        r is Ok <==> forall|i: int|
            0 <= i < routes@.len() ==> hostname_policy(
                strs_view(cfg.security.blocked_names@),
                strs_view(cfg.security.allowed_suffixes@),
                #[trigger] routes@[i].hostname@,
            ) is Ok,
        r matches Err(m) ==> first_refusal(
            strs_view(cfg.security.blocked_names@),
            strs_view(cfg.security.allowed_suffixes@),
            routes@,
            m@,
        ),
{
    let mut i: usize = 0;
    while i < routes.len()
        invariant
            i <= routes.len(),
            forall|k: int|
                0 <= k < i ==> hostname_policy(
                    strs_view(cfg.security.blocked_names@),
                    strs_view(cfg.security.allowed_suffixes@),
                    #[trigger] routes@[k].hostname@,
                ) is Ok,
        decreases routes.len() - i,
    {
        match cfg.hostname_allowed(routes[i].hostname.as_str()) {
            Ok(()) => {},
            Err(m) => {
                return Err(m);
            },
        }
        i = i + 1;
    }
    Ok(())
}

// ---------------------------------------------------------------- HTTP replies

/// The bearer token of an `Authorization` header value.
pub open spec fn bearer_spec(header: Option<Seq<char>>) -> Option<Seq<char>> {
    match header {
        Some(v) => if starts_with(v, "Bearer "@) {
            Some(v.subrange(7, v.len() as int))
        } else {
            None
        },
        None => None,
    }
}

pub fn bearer_token(header: Option<&str>) -> (r: Option<String>)
    ensures
        match r {
            Some(t) => bearer_spec(
                match header {
                    Some(h) => Some(h@),
                    None => None,
                },
            ) == Some(t@),
            None => bearer_spec(
                match header {
                    Some(h) => Some(h@),
                    None => None,
                },
            ) is None,
        },
{
    match header {
        None => None,
        Some(h) => {
            let c = to_chars(h);
            let p = to_chars("Bearer ");
            proof {
                reveal_strlit("Bearer ");
            }
            if has_prefix(&c, &p) {
                let rest = slice_range(&c, 7, c.len());
                Some(from_chars(&rest))
            } else {
                None
            }
        },
    }
}

/// API errors, as their replies.
#[derive(Debug)]
pub enum ApiError {
    Unauthorized,
    Forbidden(String),
    Storage,
}

/// Status and body of an API error reply.
pub fn api_error_reply(e: &ApiError) -> (r: (u16, String))
    ensures
        match e {
            ApiError::Unauthorized => r.0 == 401 && r.1@ == "unauthorized"@,
            ApiError::Forbidden(m) => r.0 == 403 && r.1@ == m@,
            ApiError::Storage => r.0 == 500 && r.1@ == "storage error"@,
        },
{
    match e {
        ApiError::Unauthorized => (401, "unauthorized".to_string()),
        ApiError::Forbidden(m) => (403, m.clone()),
        ApiError::Storage => (500, "storage error".to_string()),
    }
}

/// The reply at `/`: browsers (an `Accept` with `text/html`) are sent to the
/// admin UI; other clients get the service name.
#[derive(Debug)]
pub enum RootReply {
    RedirectToAdmin,
    Text(String),
}

pub fn root_reply(accept: Option<&str>) -> (r: RootReply)
    ensures
        (accept matches Some(a) && contains_seq(a@, "text/html"@)) ==> r is RedirectToAdmin,
        !(accept matches Some(a) && contains_seq(a@, "text/html"@)) ==> (r matches RootReply::Text(t)
            && t@ == "tailsvc-controller\n"@),
{
    let html = match accept {
        Some(a) => {
            let c = to_chars(a);
            let p = to_chars("text/html");
            contains_pat(&c, &p)
        },
        None => false,
    };
    if html {
        RootReply::RedirectToAdmin
    } else {
        RootReply::Text("tailsvc-controller\n".to_string())
    }
}

/// The admin password from its file's text: trimmed, and not empty.
pub fn admin_password_from_text(text: &str) -> (r: Result<String, String>)
    ensures
        match r {
            Ok(p) => p@ == trim_seq(text@) && p@.len() > 0,
            Err(_) => trim_seq(text@).len() == 0,
        },
{
    let c = to_chars(text);
    let t = trim_chars(&c);
    if t.len() == 0 {
        return Err("admin password file is empty".to_string());
    }
    Ok(from_chars(&t))
}


// ---------------------------------------------------------------- sessions

/// Sessions other than `token`.
pub open spec fn other_token(token: Seq<char>) -> spec_fn((Seq<char>, u64)) -> bool {
    |e: (Seq<char>, u64)| e.0 != token
}

/// Sessions still running at `now`.
pub open spec fn unexpired(now: u64) -> spec_fn((Seq<char>, u64)) -> bool {
    |e: (Seq<char>, u64)| e.1 > now
}

/// `token` names a session running at `now`.
pub open spec fn session_live(s: Seq<(Seq<char>, u64)>, token: Seq<char>, now: u64) -> bool {
    exists|i: int| 0 <= i < s.len() && (#[trigger] s[i]).0 == token && s[i].1 > now
}

pub open spec fn sessions_view(v: Seq<(String, u64)>) -> Seq<(Seq<char>, u64)> {
    v.map_values(|e: (String, u64)| (e.0@, e.1))
}

/// Admin sessions after login: tokens and when they expire (milliseconds on a
/// monotonic clock).
pub struct SessionStore {
    sessions: Vec<(String, u64)>,
    ttl_ms: u64,
}

fn filter_sessions(v: &Vec<(String, u64)>, drop_token: Option<&str>, now: Option<u64>) -> (r: Vec<(String, u64)>)
    ensures
        sessions_view(r@) == match (drop_token, now) {
            (Some(t), Some(n)) => sessions_view(v@).filter(unexpired(n)).filter(other_token(t@)),
            (Some(t), None) => sessions_view(v@).filter(other_token(t@)),
            (None, Some(n)) => sessions_view(v@).filter(unexpired(n)),
            (None, None) => sessions_view(v@),
        },
{
    let ghost sv = sessions_view(v@);
    let tc = match drop_token {
        Some(t) => to_chars(t),
        None => Vec::new(),
    };
    let mut out: Vec<(String, u64)> = Vec::new();
    let mut i: usize = 0;
    while i < v.len()
        invariant
            i <= v.len(),
            sv == sessions_view(v@),
            drop_token matches Some(t) ==> tc@ == t@,
            sessions_view(out@) == match (drop_token, now) {
                (Some(t), Some(n)) => sv.take(i as int).filter(unexpired(n)).filter(other_token(t@)),
                (Some(t), None) => sv.take(i as int).filter(other_token(t@)),
                (None, Some(n)) => sv.take(i as int).filter(unexpired(n)),
                (None, None) => sv.take(i as int),
            },
        decreases v.len() - i,
    {
        proof {
            reveal(Seq::filter);
        }
        let ghost x = sv[i as int];
        assert(sv.take(i + 1).drop_last() == sv.take(i as int));
        assert(sv.take(i + 1).last() == x);
        assert(x == (v@[i as int].0@, v@[i as int].1));
        let keep_time = match now {
            Some(n) => v[i].1 > n,
            None => true,
        };
        let k = to_chars(v[i].0.as_str());
        let keep_tok = match drop_token {
            Some(_) => !chars_eq(&k, &tc),
            None => true,
        };
        let ghost before = sessions_view(out@);
        if keep_time && keep_tok {
            let e = (v[i].0.clone(), v[i].1);
            out.push(e);
            assert(sessions_view(out@) =~= before.push(x));
        }
        proof {
            match (drop_token, now) {
                (Some(t), Some(n)) => {
                    let a = sv.take(i as int).filter(unexpired(n));
                    if unexpired(n)(x) {
                        assert(sv.take(i + 1).filter(unexpired(n)) == a.push(x));
                        assert(a.push(x).drop_last() =~= a);
                    }
                },
                _ => {},
            }
        }
        i = i + 1;
    }
    assert(sv.take(v.len() as int) == sv);
    out
}

impl SessionStore {
    pub closed spec fn view_sessions(&self) -> Seq<(Seq<char>, u64)> {
        sessions_view(self.sessions@)
    }

    pub closed spec fn ttl(&self) -> u64 {
        self.ttl_ms
    }

    /// No sessions; each lasts `ttl_ms`.
    pub fn new(ttl_ms: u64) -> (r: SessionStore)
        ensures
            r.view_sessions().len() == 0,
            r.ttl() == ttl_ms,
    {
        let r = SessionStore { sessions: Vec::new(), ttl_ms };
        assert(r.view_sessions() =~= Seq::<(Seq<char>, u64)>::empty());
        r
    }

    /// Drops sessions that expired by `now`.
    pub fn purge_locked(&mut self, now: u64)
        ensures
            final(self).view_sessions() == old(self).view_sessions().filter(unexpired(now)),
            final(self).view_sessions() == sessions_after(old(self).view_sessions(), old(self).ttl(), seq![SessionOp::Check(now)]),
            final(self).ttl() == old(self).ttl(),
    {
        proof {
            lemma_sessions_after_one(self.view_sessions(), self.ttl(), SessionOp::Check(now));
        }
        self.sessions = filter_sessions(&self.sessions, None, Some(now));
    }

    /// Starts a session `token` at `now` (expired sessions are dropped first).
    pub fn insert_session(&mut self, token: String, now: u64)
        requires
            now + old(self).ttl() <= u64::MAX,
        ensures
            final(self).view_sessions() == old(self).view_sessions().filter(unexpired(now)).filter(
                other_token(token@),
            ).push((token@, (now + old(self).ttl()) as u64)),
            final(self).ttl() == old(self).ttl(),
    {
        let mut kept = filter_sessions(&self.sessions, Some(token.as_str()), Some(now));
        let exp = now + self.ttl_ms;
        let ghost before = sessions_view(kept@);
        let ghost tv = token@;
        kept.push((token, exp));
        assert(sessions_view(kept@) =~= before.push((tv, exp)));
        self.sessions = kept;
    }

    /// Starts a session with a fresh random token of 64 hex characters;
    /// `None` when the random source fails.
    pub fn create(&mut self, now: u64) -> (r: Option<String>)
        requires
            now + old(self).ttl() <= u64::MAX,
        ensures
            final(self).ttl() == old(self).ttl(),
            match r {
                Some(t) => t@.len() == 64 && final(self).view_sessions() == old(self).view_sessions().filter(
                    unexpired(now),
                ).filter(other_token(t@)).push((t@, (now + old(self).ttl()) as u64)) && final(self).view_sessions()
                    == sessions_after(old(self).view_sessions(), old(self).ttl(), seq![SessionOp::Start(t@, now)]),
                None => final(self).view_sessions() == old(self).view_sessions(),
            },
    {
        match generate_token(32) {
            None => None,
            Some(t) => {
                proof {
                    lemma_sessions_after_one(self.view_sessions(), self.ttl(), SessionOp::Start(t@, now));
                }
                self.insert_session(t.clone(), now);
                Some(t)
            },
        }
    }

    /// Whether `token` names a session running at `now`; expired sessions are dropped.
    pub fn valid(&mut self, token: &str, now: u64) -> (r: bool)
        ensures
            r == session_live(old(self).view_sessions(), token@, now),
            final(self).view_sessions() == old(self).view_sessions().filter(unexpired(now)),
            final(self).view_sessions() == sessions_after(old(self).view_sessions(), old(self).ttl(), seq![SessionOp::Check(now)]),
            final(self).ttl() == old(self).ttl(),
    {
        let ghost before = self.view_sessions();
        let tc = to_chars(token);
        let mut found = false;
        let mut i: usize = 0;
        while i < self.sessions.len()
            invariant
                i <= self.sessions.len(),
                before == sessions_view(self.sessions@),
                tc@ == token@,
                found == exists|j: int| 0 <= j < i && (#[trigger] before[j]).0 == token@ && before[j].1 > now,
            decreases self.sessions.len() - i,
        {
            assert(before[i as int] == (self.sessions@[i as int].0@, self.sessions@[i as int].1));
            let k = to_chars(self.sessions[i].0.as_str());
            if self.sessions[i].1 > now && chars_eq(&k, &tc) {
                found = true;
            }
            i = i + 1;
        }
        self.purge_locked(now);
        found
    }

    /// Ends session `token`.
    pub fn revoke(&mut self, token: &str)
        ensures
            final(self).view_sessions() == old(self).view_sessions().filter(other_token(token@)),
            final(self).view_sessions() == sessions_after(old(self).view_sessions(), old(self).ttl(), seq![SessionOp::Revoke(token@)]),
            final(self).ttl() == old(self).ttl(),
    {
        proof {
            lemma_sessions_after_one(self.view_sessions(), self.ttl(), SessionOp::Revoke(token@));
        }
        self.sessions = filter_sessions(&self.sessions, Some(token), None);
    }
}

/// Every element of a filtered sequence passes the filter.
pub proof fn lemma_filter_all<A>(s: Seq<A>, p: spec_fn(A) -> bool)
    ensures
        forall|i: int| 0 <= i < s.filter(p).len() ==> p(#[trigger] s.filter(p)[i]),
    decreases s.len(),
{
    reveal(Seq::filter);
    if s.len() > 0 {
        lemma_filter_all(s.drop_last(), p);
        let t = s.drop_last().filter(p);
        if p(s.last()) {
            assert forall|i: int| 0 <= i < t.push(s.last()).len() implies p(#[trigger] t.push(s.last())[i]) by {
                if i < t.len() {
                    assert(t.push(s.last())[i] == t[i]);
                }
            }
        }
    }
}

/// A revoked session token is no longer accepted, at any time.
pub proof fn lemma_revoked_session_invalid(s: Seq<(Seq<char>, u64)>, token: Seq<char>, now: u64)
    ensures
        !session_live(s.filter(other_token(token)), token, now),
{
    lemma_filter_all(s, other_token(token));
}

/// A session just started is accepted exactly until its TTL has run out.
pub proof fn lemma_new_session_valid(s: Seq<(Seq<char>, u64)>, token: Seq<char>, now: u64, ttl: u64, later: u64)
    requires
        now + ttl <= u64::MAX,
    ensures
        session_live(
            s.filter(unexpired(now)).filter(other_token(token)).push((token, (now + ttl) as u64)),
            token,
            later,
        ) <==> later < now + ttl,
{
    let t = s.filter(unexpired(now)).filter(other_token(token));
    lemma_filter_all(s.filter(unexpired(now)), other_token(token));
    let u = t.push((token, (now + ttl) as u64));
    if later < now + ttl {
        assert(u[t.len() as int] == (token, (now + ttl) as u64));
    }
    if session_live(u, token, later) {
        let i = choose|i: int| 0 <= i < u.len() && (#[trigger] u[i]).0 == token && u[i].1 > later;
        if i < t.len() {
            assert(u[i] == t[i]);
        }
    }
}

/// `token` runs at `now` in `s` filtered by `p` exactly when an entry of `s`
/// for it, running at `now`, passes `p`.
proof fn lemma_live_filter(s: Seq<(Seq<char>, u64)>, p: spec_fn((Seq<char>, u64)) -> bool, token: Seq<char>, now: u64)
    ensures
        session_live(s.filter(p), token, now) <==> exists|i: int|
            0 <= i < s.len() && (#[trigger] s[i]).0 == token && s[i].1 > now && p(s[i]),
{
    if session_live(s.filter(p), token, now) {
        let k = choose|k: int| 0 <= k < s.filter(p).len() && (#[trigger] s.filter(p)[k]).0 == token && s.filter(p)[k].1 > now;
        let e = s.filter(p)[k];
        s.lemma_filter_pred(p, k);
        assert(s.filter(p).contains(e));
        s.lemma_filter_contains_rev(p, e);
        let j = choose|j: int| 0 <= j < s.len() && s[j] == e;
        assert(s[j].0 == token && s[j].1 > now && p(s[j]));
    }
    if exists|i: int| 0 <= i < s.len() && (#[trigger] s[i]).0 == token && s[i].1 > now && p(s[i]) {
        let i = choose|i: int| 0 <= i < s.len() && (#[trigger] s[i]).0 == token && s[i].1 > now && p(s[i]);
        s.lemma_filter_contains(p, i);
        let k = choose|k: int| 0 <= k < s.filter(p).len() && s.filter(p)[k] == s[i];
        assert(s.filter(p)[k].0 == token);
    }
}

/// Ending one session leaves every other token as valid or invalid as it was.
pub proof fn lemma_revoke_keeps_others(s: Seq<(Seq<char>, u64)>, token: Seq<char>, other: Seq<char>, now: u64)
    requires
        other != token,
    ensures
        session_live(s.filter(other_token(token)), other, now) == session_live(s, other, now),
{
    lemma_live_filter(s, other_token(token), other, now);
}

/// What is done to the admin sessions, in order: a session `token` started at
/// `at` (`create`), a check or purge at `at` (`valid`, `purge_locked`), a
/// session ended (`revoke`).
pub enum SessionOp {
    Start(Seq<char>, u64),
    Check(u64),
    Revoke(Seq<char>),
}

/// The sessions after `ops`, starting from `s`, each session lasting `ttl`.
pub open spec fn sessions_after(s: Seq<(Seq<char>, u64)>, ttl: u64, ops: Seq<SessionOp>) -> Seq<(Seq<char>, u64)>
    decreases ops.len(),
{
    if ops.len() == 0 {
        s
    } else {
        let prev = sessions_after(s, ttl, ops.drop_last());
        match ops.last() {
            SessionOp::Start(t, at) => prev.filter(unexpired(at)).filter(other_token(t)).push(
                (t, (at + ttl) as u64),
            ),
            SessionOp::Check(at) => prev.filter(unexpired(at)),
            SessionOp::Revoke(t) => prev.filter(other_token(t)),
        }
    }
}

/// Every operation happened at or before `now`, and no session ends past the clock's range.
pub open spec fn ops_before(ops: Seq<SessionOp>, ttl: u64, now: u64) -> bool {
    forall|i: int|
        0 <= i < ops.len() ==> match #[trigger] ops[i] {
            SessionOp::Start(_, at) => at <= now && at + ttl <= u64::MAX,
            SessionOp::Check(at) => at <= now,
            SessionOp::Revoke(_) => true,
        }
}

/// The index of the last start of a session `token`.
pub open spec fn last_start(ops: Seq<SessionOp>, token: Seq<char>) -> Option<int>
    decreases ops.len(),
{
    if ops.len() == 0 {
        None
    } else if ops.last() matches SessionOp::Start(t, _) && t == token {
        Some(ops.len() - 1)
    } else {
        last_start(ops.drop_last(), token)
    }
}

/// Session `token` was ended after operation `i`.
pub open spec fn revoked_after(ops: Seq<SessionOp>, token: Seq<char>, i: int) -> bool {
    exists|j: int| i < j < ops.len() && #[trigger] ops[j] == SessionOp::Revoke(token)
}

pub open spec fn start_time(op: SessionOp) -> u64 {
    match op {
        SessionOp::Start(_, at) => at,
        _ => 0,
    }
}

/// One operation applied to `s`.
pub proof fn lemma_sessions_after_one(s: Seq<(Seq<char>, u64)>, ttl: u64, op: SessionOp)
    ensures
        sessions_after(s, ttl, seq![op]) == match op {
            SessionOp::Start(t, at) => s.filter(unexpired(at)).filter(other_token(t)).push((t, (at + ttl) as u64)),
            SessionOp::Check(at) => s.filter(unexpired(at)),
            SessionOp::Revoke(t) => s.filter(other_token(t)),
        },
{
    assert(seq![op].drop_last() =~= Seq::<SessionOp>::empty());
    assert(sessions_after(s, ttl, Seq::<SessionOp>::empty()) == s);
    assert(seq![op].last() == op);
    assert(seq![op].len() == 1);
}

proof fn lemma_last_start_shape(ops: Seq<SessionOp>, token: Seq<char>)
    ensures
        last_start(ops, token) matches Some(i) ==> (0 <= i < ops.len() && (ops[i] matches SessionOp::Start(t, _)
            && t == token)),
    decreases ops.len(),
{
    if ops.len() > 0 {
        lemma_last_start_shape(ops.drop_last(), token);
    }
}

/// Starting with no sessions, a token is valid at `now` exactly when it was
/// started, not ended since its last start, and its time has not run out: a
/// string never started is never valid, an ended session stays invalid, and a
/// session expires `ttl` after it started.
pub proof fn lemma_session_valid_exactly(ttl: u64, ops: Seq<SessionOp>, token: Seq<char>, now: u64)
    requires
        ops_before(ops, ttl, now),
    ensures
        session_live(sessions_after(Seq::empty(), ttl, ops), token, now) <==> (last_start(ops, token) matches Some(i)
            && !revoked_after(ops, token, i) && now < start_time(ops[i]) + ttl),
    decreases ops.len(),
{
    if ops.len() > 0 {
        let pre = ops.drop_last();
        assert(ops_before(pre, ttl, now)) by {
            assert forall|i: int| 0 <= i < pre.len() implies match #[trigger] pre[i] {
                SessionOp::Start(_, at) => at <= now && at + ttl <= u64::MAX,
                SessionOp::Check(at) => at <= now,
                SessionOp::Revoke(_) => true,
            } by {
                assert(pre[i] == ops[i]);
            }
        }
        lemma_session_valid_exactly(ttl, pre, token, now);
        lemma_last_start_shape(pre, token);
        let prev = sessions_after(Seq::empty(), ttl, pre);
        let last = ops.last();
        assert(ops[ops.len() - 1] == last);
        match last {
            SessionOp::Start(t, at) => {
                let mid = prev.filter(unexpired(at));
                let kept = mid.filter(other_token(t));
                let res = kept.push((t, (at + ttl) as u64));
                assert(res == sessions_after(Seq::empty(), ttl, ops));
                if t == token {
                    lemma_revoked_session_invalid(mid, token, now);
                    if session_live(res, token, now) {
                        let k = choose|k: int| 0 <= k < res.len() && (#[trigger] res[k]).0 == token && res[k].1 > now;
                        if k < kept.len() {
                            assert(res[k] == kept[k]);
                        }
                    }
                    if now < at + ttl {
                        assert(res[kept.len() as int] == (t, (at + ttl) as u64));
                    }
                    assert(!revoked_after(ops, token, ops.len() - 1));
                } else {
                    lemma_live_filter(mid, other_token(t), token, now);
                    lemma_live_filter(prev, unexpired(at), token, now);
                    if session_live(res, token, now) {
                        let k = choose|k: int| 0 <= k < res.len() && (#[trigger] res[k]).0 == token && res[k].1 > now;
                        assert(k < kept.len());
                        assert(res[k] == kept[k]);
                        assert(session_live(kept, token, now));
                    }
                    if session_live(kept, token, now) {
                        let k = choose|k: int| 0 <= k < kept.len() && (#[trigger] kept[k]).0 == token && kept[k].1 > now;
                        assert(res[k] == kept[k]);
                    }
                    if session_live(prev, token, now) {
                        let k = choose|k: int| 0 <= k < prev.len() && (#[trigger] prev[k]).0 == token && prev[k].1 > now;
                        assert(unexpired(at)(prev[k]));
                        assert(mid.filter(other_token(t)) == kept);
                    }
                    if session_live(mid, token, now) {
                        let k = choose|k: int| 0 <= k < mid.len() && (#[trigger] mid[k]).0 == token && mid[k].1 > now;
                        assert(other_token(t)(mid[k]));
                    }
                    assert(last_start(ops, token) == last_start(pre, token));
                    if let Some(i) = last_start(pre, token) {
                        assert(ops[i] == pre[i]);
                        if revoked_after(ops, token, i) {
                            let j = choose|j: int| i < j < ops.len() && #[trigger] ops[j] == SessionOp::Revoke(token);
                            assert(j < pre.len());
                            assert(pre[j] == ops[j]);
                        }
                        if revoked_after(pre, token, i) {
                            let j = choose|j: int| i < j < pre.len() && #[trigger] pre[j] == SessionOp::Revoke(token);
                            assert(pre[j] == ops[j]);
                        }
                    }
                }
            },
            SessionOp::Check(at) => {
                let res = prev.filter(unexpired(at));
                assert(res == sessions_after(Seq::empty(), ttl, ops));
                lemma_live_filter(prev, unexpired(at), token, now);
                assert(last_start(ops, token) == last_start(pre, token));
                if let Some(i) = last_start(pre, token) {
                    assert(ops[i] == pre[i]);
                    if revoked_after(ops, token, i) {
                        let j = choose|j: int| i < j < ops.len() && #[trigger] ops[j] == SessionOp::Revoke(token);
                        assert(j < pre.len());
                        assert(pre[j] == ops[j]);
                    }
                    if revoked_after(pre, token, i) {
                        let j = choose|j: int| i < j < pre.len() && #[trigger] pre[j] == SessionOp::Revoke(token);
                        assert(pre[j] == ops[j]);
                    }
                }
            },
            SessionOp::Revoke(t) => {
                let res = prev.filter(other_token(t));
                assert(res == sessions_after(Seq::empty(), ttl, ops));
                assert(last_start(ops, token) == last_start(pre, token));
                if t == token {
                    lemma_revoked_session_invalid(prev, token, now);
                    if let Some(i) = last_start(pre, token) {
                        assert(revoked_after(ops, token, i));
                    }
                } else {
                    lemma_revoke_keeps_others(prev, t, token, now);
                    if let Some(i) = last_start(pre, token) {
                        assert(ops[i] == pre[i]);
                        if revoked_after(ops, token, i) {
                            let j = choose|j: int| i < j < ops.len() && #[trigger] ops[j] == SessionOp::Revoke(token);
                            assert(j < pre.len());
                            assert(pre[j] == ops[j]);
                        }
                        if revoked_after(pre, token, i) {
                            let j = choose|j: int| i < j < pre.len() && #[trigger] pre[j] == SessionOp::Revoke(token);
                            assert(pre[j] == ops[j]);
                        }
                    }
                }
            },
        }
    }
}

// ---------------------------------------------------------------- controller state

/// Shared controller state.
pub struct AppState {
    pub storage: Storage,
    pub registry: DnsRegistry,
    pub cfg: ControllerConfig,
    /// Admin password (from the password file, trimmed).
    pub admin_password: String,
    pub admin_username: String,
    pub sessions: SessionStore,
    /// Set once the DNS listener is known to be up.
    pub dns_up: bool,
}

/// Session lifetime: the configured seconds, at least 300.
pub open spec fn session_ttl_ms(secs: u64) -> int {
    if secs < 300 {
        300000
    } else {
        secs * 1000
    }
}

impl AppState {
    pub fn new(storage: Storage, registry: DnsRegistry, cfg: ControllerConfig, admin_password: String) -> (r: AppState)
        requires
            cfg.api.session_ttl_seconds <= u64::MAX / 1000,
        ensures
            r.storage == storage,
            r.registry == registry,
            r.admin_password == admin_password,
            r.admin_username@ == cfg.api.admin_username@,
            r.sessions.view_sessions().len() == 0,
            r.sessions.ttl() == session_ttl_ms(cfg.api.session_ttl_seconds),
            !r.dns_up,
    {
        let admin_username = cfg.api.admin_username.clone();
        let secs = if cfg.api.session_ttl_seconds < 300 { 300 } else { cfg.api.session_ttl_seconds };
        AppState {
            storage,
            registry,
            cfg,
            admin_password,
            admin_username,
            sessions: SessionStore::new(secs * 1000),
            dns_up: false,
        }
    }

    /// A login session or the admin password itself (for scripts) authorizes.
    pub fn admin_authorized(&mut self, bearer: &str, now: u64) -> (r: bool)
        ensures
            r == (session_live(old(self).sessions.view_sessions(), bearer@, now) || bearer@
                == old(self).admin_password@),
            final(self).sessions.view_sessions() == old(self).sessions.view_sessions().filter(unexpired(now)),
            final(self).sessions.ttl() == old(self).sessions.ttl(),
            final(self).storage == old(self).storage,
            final(self).registry == old(self).registry,
            final(self).admin_password == old(self).admin_password,
            final(self).cfg == old(self).cfg,
            final(self).admin_username == old(self).admin_username,
            final(self).dns_up == old(self).dns_up,
    {
        if self.sessions.valid(bearer, now) {
            return true;
        }
        let a = to_chars(self.admin_password.as_str());
        let b = to_chars(bearer);
        constant_time_eq_chars(&a, &b)
    }

    /// Both the username and the password must match.
    pub fn verify_password(&self, username: &str, password: &str) -> (r: bool)
        ensures
            r == (username@ == self.admin_username@ && password@ == self.admin_password@),
    {
        let u = to_chars(username);
        let au = to_chars(self.admin_username.as_str());
        let p = to_chars(password);
        let ap = to_chars(self.admin_password.as_str());
        let user_ok = constant_time_eq_chars(&au, &u);
        let pass_ok = constant_time_eq_chars(&ap, &p);
        user_ok && pass_ok
    }

    /// The agent lease TTL in milliseconds.
    pub fn lease_ttl_ms(&self) -> (r: i64)
        requires
            self.cfg.leases.agent_ttl_seconds * 1000 <= TIME_BOUND,
        ensures
            r == self.cfg.leases.agent_ttl_seconds * 1000,
    {
        (self.cfg.leases.agent_ttl_seconds * 1000) as i64
    }

    /// Rebuilds the DNS registry from the routes of live agents at `now`.
    pub fn refresh_dns_at(&mut self, now: i64)
        requires
            old(self).storage.wf(),
            time_ok(now),
            old(self).cfg.leases.agent_ttl_seconds * 1000 <= TIME_BOUND,
        ensures
            final(self).storage == old(self).storage,
            final(self).cfg == old(self).cfg,
            final(self).registry.map() == fold_map(
                registry_pairs_spec(
                    dns_routes_spec(
                        old(self).storage.agents_v(),
                        old(self).storage.routes_v(),
                        now,
                        (old(self).cfg.leases.agent_ttl_seconds * 1000) as i64,
                    ),
                ),
            ),
    {
        let ttl = self.lease_ttl_ms();
        let routes = self.storage.active_dns_routes_at(ttl, now);
        let pairs = registry_pairs(&routes);
        self.registry.replace(pairs);
    }
}

/// What DNS answers for hostname `h`: the address of the route's agent, when
/// the agent is active, its lease is live, and its address is IPv4.
pub open spec fn dns_answer(
    agents: Seq<crate::store::AgentV>,
    routes: Seq<crate::store::RouteV>,
    now: i64,
    ttl: i64,
    h: Seq<char>,
) -> Option<crate::net::Ipv4> {
    match crate::store::find_route(routes, h) {
        Some(r) => match crate::store::active_agent(agents, r.agent_id) {
            Some(a) => if crate::store::alive(a, now, ttl) {
                crate::net::ipv4_spec(a.tailscale_ipv4)
            } else {
                None
            },
            None => None,
        },
        None => None,
    }
}

/// After a refresh, DNS answers exactly the hostnames routed to active agents
/// with a live lease, each with its agent's address.
pub proof fn lemma_dns_answers_live_routes(
    agents: Seq<crate::store::AgentV>,
    routes: Seq<crate::store::RouteV>,
    now: i64,
    ttl: i64,
    h: Seq<char>,
)
    requires
        crate::store::unique_routes(routes),
    ensures
        fold_map(registry_pairs_spec(dns_routes_spec(agents, routes, now, ttl))).contains_key(h) <==> dns_answer(
            agents,
            routes,
            now,
            ttl,
            h,
        ) is Some,
        dns_answer(agents, routes, now, ttl, h) matches Some(ip) ==> fold_map(
            registry_pairs_spec(dns_routes_spec(agents, routes, now, ttl)),
        )[h] == ip,
    decreases routes.len(),
{
    if routes.len() > 0 {
        let t = routes.drop_last();
        let r = routes.last();
        assert(crate::store::unique_routes(t));
        lemma_dns_answers_live_routes(agents, t, now, ttl, h);
        crate::store::lemma_find_route_push(t, r, h);
        assert(t.push(r) == routes);
        if r.hostname == h {
            crate::store::lemma_find_route_cases(t, h);
            if crate::store::find_route(t, h) is Some {
                let y = crate::store::find_route(t, h)->Some_0;
                let k = choose|k: int| 0 <= k < t.len() && t[k] == y;
                assert(routes[k].hostname == routes[routes.len() - 1].hostname);
            }
        }
        let prev = dns_routes_spec(agents, t, now, ttl);
        let pp = registry_pairs_spec(prev);
        assert(crate::store::find_route(routes, h) == if r.hostname == h {
            Some(r)
        } else {
            crate::store::find_route(t, h)
        });
        match crate::store::active_agent(agents, r.agent_id) {
            Some(a) => {
                if crate::store::alive(a, now, ttl) {
                    let x = (r.hostname, a.tailscale_ipv4);
                    assert(dns_routes_spec(agents, routes, now, ttl) == prev.push(x));
                    assert(prev.push(x).drop_last() =~= prev);
                    assert(prev.push(x).last() == x);
                    match crate::net::ipv4_spec(a.tailscale_ipv4) {
                        Some(ip) => {
                            assert(registry_pairs_spec(prev.push(x)) == pp.push((r.hostname, ip)));
                            assert(pp.push((r.hostname, ip)).drop_last() =~= pp);
                            assert(fold_map(pp.push((r.hostname, ip))) == fold_map(pp).insert(r.hostname, ip));
                        },
                        None => {
                            assert(registry_pairs_spec(prev.push(x)) == pp);
                        },
                    }
                } else {
                    assert(dns_routes_spec(agents, routes, now, ttl) == prev);
                }
            },
            None => {
                assert(dns_routes_spec(agents, routes, now, ttl) == prev);
            },
        }
    }
}

// ---------------------------------------------------------------- admin views

/// An agent is healthy while its lease is live.
pub open spec fn agent_status_spec(last_seen: Option<i64>, now: i64, ttl: i64) -> Seq<char> {
    match last_seen {
        Some(ls) => if now - ls < ttl {
            "healthy"@
        } else {
            "stale"@
        },
        None => "stale"@,
    }
}

pub fn agent_status(last_seen: Option<i64>, now: i64, ttl: i64) -> (r: String)
    requires
        time_ok(now),
        0 <= ttl <= TIME_BOUND,
        crate::store::opt_time_ok(last_seen),
    ensures
        r@ == agent_status_spec(last_seen, now, ttl),
{
    match last_seen {
        Some(ls) => if now - ls < ttl {
            "healthy".to_string()
        } else {
            "stale".to_string()
        },
        None => "stale".to_string(),
    }
}

pub open spec fn agent_view_matches(v: AdminAgentView, a: AgentRecord, now: i64, ttl: i64) -> bool {
    &&& v.agent_id@ == a.agent_id@
    &&& v.display_name@ == a.display_name@
    &&& v.tailscale_ipv4@ == a.tailscale_ipv4@
    &&& v.docker_engine_id@ == a.docker_engine_id@
    &&& v.created_at == a.created_at
    &&& v.last_seen_at == a.last_seen_at
    &&& v.status@ == agent_status_spec(a.last_seen_at, now, ttl)
}

/// The admin listing of agents, each with its lease status at `now`.
pub fn admin_agent_views(agents: &[AgentRecord], now: i64, ttl: i64) -> (r: Vec<AdminAgentView>)
    requires
        time_ok(now),
        0 <= ttl <= TIME_BOUND,
        forall|i: int| 0 <= i < agents@.len() ==> crate::store::opt_time_ok((#[trigger] agents@[i]).last_seen_at),
    ensures
        r@.len() == agents@.len(),
        forall|i: int| 0 <= i < agents@.len() ==> agent_view_matches(#[trigger] r@[i], agents@[i], now, ttl),
{
    let mut out: Vec<AdminAgentView> = Vec::new();
    let mut i: usize = 0;
    while i < agents.len()
        invariant
            i <= agents.len(),
            time_ok(now),
            0 <= ttl <= TIME_BOUND,
            forall|k: int| 0 <= k < agents@.len() ==> crate::store::opt_time_ok((#[trigger] agents@[k]).last_seen_at),
            out@.len() == i,
            forall|k: int| 0 <= k < i ==> agent_view_matches(#[trigger] out@[k], agents@[k], now, ttl),
        decreases agents.len() - i,
    {
        let a = &agents[i];
        let v = AdminAgentView {
            agent_id: a.agent_id.clone(),
            display_name: a.display_name.clone(),
            tailscale_ipv4: a.tailscale_ipv4.clone(),
            docker_engine_id: a.docker_engine_id.clone(),
            created_at: a.created_at,
            last_seen_at: a.last_seen_at,
            status: agent_status(a.last_seen_at, now, ttl),
        };
        out.push(v);
        i = i + 1;
    }
    out
}

/// The address of agent `id` in the listing (the last entry of that id), or empty.
pub open spec fn ip_of_spec(agents: Seq<AgentRecord>, id: Seq<char>) -> Seq<char>
    decreases agents.len(),
{
    if agents.len() == 0 {
        Seq::empty()
    } else if agents.last().agent_id@ == id {
        agents.last().tailscale_ipv4@
    } else {
        ip_of_spec(agents.drop_last(), id)
    }
}

/// The address shown for agent `id` is the address of that agent: of the last
/// listed agent with that id (so of the only one, ids being unique), and empty
/// when no listed agent has that id. A non-empty address always belongs to an
/// agent with that id.
pub proof fn lemma_ip_of_owner(agents: Seq<AgentRecord>, id: Seq<char>)
    ensures
        forall|k: int|
            0 <= k < agents.len() && (#[trigger] agents[k]).agent_id@ == id && (forall|j: int|
                k < j < agents.len() ==> (#[trigger] agents[j]).agent_id@ != id) ==> ip_of_spec(agents, id)
                == agents[k].tailscale_ipv4@,
        (forall|k: int| 0 <= k < agents.len() ==> (#[trigger] agents[k]).agent_id@ != id) ==> ip_of_spec(agents, id)
            == Seq::<char>::empty(),
        ip_of_spec(agents, id).len() > 0 ==> exists|k: int|
            0 <= k < agents.len() && (#[trigger] agents[k]).agent_id@ == id && agents[k].tailscale_ipv4@
                == ip_of_spec(agents, id),
    decreases agents.len(),
{
    if agents.len() > 0 {
        let t = agents.drop_last();
        lemma_ip_of_owner(t, id);
        let n = agents.len() - 1;
        assert(agents[n] == agents.last());
        assert forall|k: int|
            0 <= k < agents.len() && (#[trigger] agents[k]).agent_id@ == id && (forall|j: int|
                k < j < agents.len() ==> (#[trigger] agents[j]).agent_id@ != id) implies ip_of_spec(agents, id)
                == agents[k].tailscale_ipv4@ by {
            if k < n {
                assert(agents[n].agent_id@ != id);
                assert(t[k] == agents[k]);
                assert forall|j: int| k < j < t.len() implies (#[trigger] t[j]).agent_id@ != id by {
                    assert(t[j] == agents[j]);
                }
            }
        }
        if forall|k: int| 0 <= k < agents.len() ==> (#[trigger] agents[k]).agent_id@ != id {
            assert(agents[n].agent_id@ != id);
            assert forall|k: int| 0 <= k < t.len() implies (#[trigger] t[k]).agent_id@ != id by {
                assert(t[k] == agents[k]);
            }
        }
        if ip_of_spec(agents, id).len() > 0 {
            if agents.last().agent_id@ != id {
                let k = choose|k: int|
                    0 <= k < t.len() && (#[trigger] t[k]).agent_id@ == id && t[k].tailscale_ipv4@ == ip_of_spec(t, id);
                assert(agents[k] == t[k]);
            } else {
                assert(agents[n].agent_id@ == id);
            }
        }
    }
}

pub fn ip_of(agents: &[AgentRecord], id: &str) -> (r: String)
    ensures
        r@ == ip_of_spec(agents@, id@),
{
    let idc = to_chars(id);
    let mut i: usize = agents.len();
    assert(agents@.take(i as int) =~= agents@);
    while i > 0
        invariant
            i <= agents.len(),
            idc@ == id@,
            ip_of_spec(agents@, id@) == ip_of_spec(agents@.take(i as int), id@),
        decreases i,
    {
        assert(agents@.take(i as int).drop_last() =~= agents@.take(i - 1));
        assert(agents@.take(i as int).last() == agents@[i - 1]);
        let k = to_chars(agents[i - 1].agent_id.as_str());
        if chars_eq(&k, &idc) {
            return agents[i - 1].tailscale_ipv4.clone();
        }
        i = i - 1;
    }
    String::new()
}

fn copy_opt(o: &Option<String>) -> (r: Option<String>)
    ensures
        crate::store::sv(r) == crate::store::sv(*o),
{
    match o {
        Some(s) => Some(s.clone()),
        None => None,
    }
}

pub open spec fn route_view_matches(v: AdminRouteView, row: AdminRouteRow, agents: Seq<AgentRecord>) -> bool {
    &&& v.hostname@ == row.0@
    &&& v.agent_id@ == row.1@
    &&& v.tailscale_ipv4@ == ip_of_spec(agents, row.1@)
    &&& v.backend@ == row.2@
    &&& crate::store::sv(v.container_id) == crate::store::sv(row.3)
    &&& crate::store::sv(v.container_name) == crate::store::sv(row.4)
    &&& v.lease_expires_at == row.5
}

/// The admin listing of routes, each with its agent's address.
pub fn admin_route_views(rows: &[AdminRouteRow], agents: &[AgentRecord]) -> (r: Vec<AdminRouteView>)
    ensures
        r@.len() == rows@.len(),
        forall|i: int| 0 <= i < rows@.len() ==> route_view_matches(#[trigger] r@[i], rows@[i], agents@),
{
    let mut out: Vec<AdminRouteView> = Vec::new();
    let mut i: usize = 0;
    while i < rows.len()
        invariant
            i <= rows.len(),
            out@.len() == i,
            forall|k: int| 0 <= k < i ==> route_view_matches(#[trigger] out@[k], rows@[k], agents@),
        decreases rows.len() - i,
    {
        let row = &rows[i];
        let v = AdminRouteView {
            hostname: row.0.clone(),
            agent_id: row.1.clone(),
            tailscale_ipv4: ip_of(agents, row.1.as_str()),
            backend: row.2.clone(),
            container_id: copy_opt(&row.3),
            container_name: copy_opt(&row.4),
            lease_expires_at: row.5,
        };
        out.push(v);
        i = i + 1;
    }
    out
}

/// The result of probing a route through its agent.
#[derive(Debug, Clone)]
pub struct ProbeResult {
    pub status: String,
    pub ms: Option<u64>,
    pub detail: Option<String>,
}

/// A dashboard row: the route, its registration state at `now` (healthy while
/// the lease has not ended), and the probe (skipped when the agent has no address).
pub fn dashboard_route_view(row: &AdminRouteRow, ts_ip: &str, now: i64, probe: Option<ProbeResult>) -> (r:
    AdminRouteHealthView)
    ensures
        r.hostname@ == row.0@,
        r.agent_id@ == row.1@,
        r.tailscale_ipv4@ == ts_ip@,
        r.backend@ == row.2@,
        crate::store::sv(r.container_id) == crate::store::sv(row.3),
        crate::store::sv(r.container_name) == crate::store::sv(row.4),
        r.lease_expires_at == row.5,
        r.registration@ == (if row.5 > now {
            "healthy"@
        } else {
            "stale"@
        }),
        ts_ip@.len() == 0 ==> r.http_probe@ == "skipped"@ && r.probe_ms is None && (r.probe_detail matches Some(
            d,
        ) && d@ == "no agent ip"@),
        ts_ip@.len() > 0 ==> (probe matches Some(p) ==> r.http_probe@ == p.status@ && r.probe_ms == p.ms
            && crate::store::sv(r.probe_detail) == crate::store::sv(p.detail)),
{
    let registration = if row.5 > now {
        "healthy".to_string()
    } else {
        "stale".to_string()
    };
    let ipc = to_chars(ts_ip);
    let (http_probe, probe_ms, probe_detail) = if ipc.len() == 0 {
        ("skipped".to_string(), None, Some("no agent ip".to_string()))
    } else {
        match probe {
            Some(p) => (p.status, p.ms, p.detail),
            None => ("skipped".to_string(), None, None),
        }
    };
    AdminRouteHealthView {
        hostname: row.0.clone(),
        agent_id: row.1.clone(),
        tailscale_ipv4: ts_ip.to_string(),
        backend: row.2.clone(),
        container_id: copy_opt(&row.3),
        container_name: copy_opt(&row.4),
        lease_expires_at: row.5,
        registration,
        http_probe,
        probe_ms,
        probe_detail,
    }
}

// ---------------------------------------------------------------- probes

/// The request a probe sends through the agent's proxy.
pub fn probe_request(hostname: &str) -> (r: String)
    ensures
        r@ == "GET / HTTP/1.1\r\nHost: "@ + hostname@
            + "\r\nConnection: close\r\nUser-Agent: tailsvc-admin-probe\r\n\r\n"@,
{
    let mut v = to_chars("GET / HTTP/1.1\r\nHost: ");
    push_str(&mut v, hostname);
    push_str(&mut v, "\r\nConnection: close\r\nUser-Agent: tailsvc-admin-probe\r\n\r\n");
    from_chars(&v)
}

/// Where a probe connects: the agent's proxy port.
pub fn probe_address(agent_ip: &str) -> (r: String)
    ensures
        r@ == agent_ip@ + ":80"@,
{
    let mut v = to_chars(agent_ip);
    push_str(&mut v, ":80");
    from_chars(&v)
}

/// Whitespace-separated words of `s` (as `split_whitespace` yields them), and
/// whether `s` ends inside a word.
pub open spec fn words_acc(s: Seq<char>) -> (Seq<Seq<char>>, bool)
    decreases s.len(),
{
    if s.len() == 0 {
        (Seq::empty(), false)
    } else {
        let (ws, open) = words_acc(s.drop_last());
        let c = s.last();
        if crate::text::is_ws(c) {
            (ws, false)
        } else if open {
            (ws.update(ws.len() - 1, ws.last().push(c)), true)
        } else {
            (ws.push(seq![c]), true)
        }
    }
}

pub open spec fn words(s: Seq<char>) -> Seq<Seq<char>> {
    words_acc(s).0
}

proof fn lemma_words_open(s: Seq<char>)
    ensures
        words_acc(s).1 ==> words_acc(s).0.len() > 0,
    decreases s.len(),
{
    if s.len() > 0 {
        lemma_words_open(s.drop_last());
    }
}

fn split_words(s: &[char]) -> (r: Vec<Vec<char>>)
    ensures
        r@.map_values(|w: Vec<char>| w@) == words(s@),
{
    let mut out: Vec<Vec<char>> = Vec::new();
    let mut cur: Vec<char> = Vec::new();
    let mut open = false;
    let mut i: usize = 0;
    while i < s.len()
        invariant
            i <= s.len(),
            open == words_acc(s@.take(i as int)).1,
            open ==> out@.map_values(|w: Vec<char>| w@).push(cur@) == words_acc(s@.take(i as int)).0,
            !open ==> out@.map_values(|w: Vec<char>| w@) == words_acc(s@.take(i as int)).0,
        decreases s.len() - i,
    {
        assert(s@.take(i + 1).drop_last() == s@.take(i as int));
        assert(s@.take(i + 1).last() == s@[i as int]);
        proof {
            lemma_words_open(s@.take(i as int));
        }
        let ghost before = out@.map_values(|w: Vec<char>| w@);
        let ghost old_cur = cur@;
        let c = s[i];
        if crate::text::is_ws_char(c) {
            if open {
                let done = cur;
                out.push(done);
                cur = Vec::new();
                assert(out@.map_values(|w: Vec<char>| w@) =~= before.push(done@));
            }
            open = false;
        } else if open {
            cur.push(c);
            assert(out@.map_values(|w: Vec<char>| w@).push(cur@) =~= before.push(old_cur).update(
                before.len() as int,
                old_cur.push(c),
            ));
        } else {
            cur = Vec::new();
            cur.push(c);
            assert(cur@ =~= seq![c]);
            open = true;
        }
        i = i + 1;
    }
    assert(s@.take(s.len() as int) == s@);
    if open {
        let ghost before = out@.map_values(|w: Vec<char>| w@);
        out.push(cur);
        assert(out@.map_values(|w: Vec<char>| w@) =~= before.push(cur@));
    }
    out
}

/// How a probe reply is judged from its first line: an `HTTP/1.x` status line
/// with a 5xx code fails, with any other code passes; anything else fails.
pub open spec fn probe_verdict(line: Seq<char>) -> (Seq<char>, Seq<char>) {
    if starts_with(line, "HTTP/1."@) {
        let code = if words(line).len() > 1 {
            words(line)[1]
        } else {
            Seq::<char>::empty()
        };
        if code.len() > 0 && code[0] == '5' {
            ("fail"@, line)
        } else if code.len() > 0 {
            ("ok"@, line)
        } else {
            ("fail"@, "bad status line: "@ + line)
        }
    } else {
        ("fail"@, "bad status line: "@ + line)
    }
}

/// The probe result for a reply of `n` bytes whose text is `head`, after `ms` milliseconds.
pub fn probe_result_from_head(head: &str, n: usize, ms: u64) -> (r: ProbeResult)
    ensures
        r.ms == Some(ms),
        n == 0 ==> r.status@ == "fail"@ && (r.detail matches Some(d) && d@ == "empty response"@),
        n > 0 ==> ({
            let line = trim_seq(crate::text::split_seq(head@, '\n')[0]);
            &&& r.status@ == probe_verdict(line).0
            &&& r.detail matches Some(d) && d@ == probe_verdict(line).1
        }),
{
    if n == 0 {
        return ProbeResult {
            status: "fail".to_string(),
            ms: Some(ms),
            detail: Some("empty response".to_string()),
        };
    }
    let hc = to_chars(head);
    let lines = crate::text::split_chars(&hc, '\n');
    proof {
        crate::text::lemma_split_nonempty(head@, '\n');
    }
    assert(lines@.map_values(|p: Vec<char>| p@)[0] == lines@[0]@);
    let line = trim_chars(lines[0].as_slice());
    let prefix = to_chars("HTTP/1.");
    if has_prefix(&line, &prefix) {
        let ws = split_words(&line);
        assert(ws@.len() > 1 ==> ws@.map_values(|w: Vec<char>| w@)[1] == ws@[1]@);
        let code: Vec<char> = if ws.len() > 1 {
            ws[1].clone()
        } else {
            Vec::new()
        };
        if code.len() > 0 && code[0] == '5' {
            return ProbeResult { status: "fail".to_string(), ms: Some(ms), detail: Some(from_chars(&line)) };
        }
        if code.len() > 0 {
            return ProbeResult { status: "ok".to_string(), ms: Some(ms), detail: Some(from_chars(&line)) };
        }
    }
    let mut d = to_chars("bad status line: ");
    push_chars(&mut d, &line);
    ProbeResult { status: "fail".to_string(), ms: Some(ms), detail: Some(from_chars(&d)) }
}

// ---------------------------------------------------------------- restarts and schedules

/// First delay before restarting the DNS listener.
pub const DNS_RESTART_BASE_MS: u64 = 1000;
/// Longest delay before restarting the DNS listener.
pub const DNS_RESTART_MAX_MS: u64 = 60000;

/// The delays around a DNS listener restart: `(sleep now, next delay)`. The
/// delay is back at its base once the listener had started; it then doubles
/// up to the cap.
pub fn dns_restart_delays(cur_ms: u64, started: bool) -> (r: (u64, u64))
    requires
        cur_ms <= DNS_RESTART_MAX_MS,
    ensures
        r.0 == (if started { DNS_RESTART_BASE_MS } else { cur_ms }),
        r.1 == (if 2 * r.0 < DNS_RESTART_MAX_MS { 2 * r.0 } else { DNS_RESTART_MAX_MS as int }),
        r.1 <= DNS_RESTART_MAX_MS,
{
    let sleep = if started { DNS_RESTART_BASE_MS } else { cur_ms };
    let d = sleep * 2;
    let next = if d < DNS_RESTART_MAX_MS { d } else { DNS_RESTART_MAX_MS };
    (sleep, next)
}

/// The backup interval actually used: the configured one, but at least a minute.
pub fn backup_interval_secs(configured: u64) -> (r: u64)
    ensures
        r == (if configured < 60 { 60 } else { configured }),
{
    if configured < 60 {
        60
    } else {
        configured
    }
}

// ---------------------------------------------------------------- backups

/// The name of a backup taken at the UTC time stamp `stamp` (`%Y%m%dT%H%M%SZ`).
pub fn backup_file_name(stamp: &str) -> (r: String)
    ensures
        r@ == "controller-"@ + stamp@ + ".db"@,
{
    let mut v = to_chars("controller-");
    push_str(&mut v, stamp);
    push_str(&mut v, ".db");
    from_chars(&v)
}

/// `s` with each `'` doubled, as SQL string literals need.
pub open spec fn sql_quote_spec(s: Seq<char>) -> Seq<char>
    decreases s.len(),
{
    if s.len() == 0 {
        Seq::empty()
    } else if s.last() == '\'' {
        sql_quote_spec(s.drop_last()) + seq!['\'', '\'']
    } else {
        sql_quote_spec(s.drop_last()).push(s.last())
    }
}

/// The statement that writes a consistent copy of the database to `dest`.
pub fn vacuum_into_sql(dest: &str) -> (r: String)
    ensures
        r@ == "VACUUM INTO '"@ + sql_quote_spec(dest@) + "'"@,
{
    let d = to_chars(dest);
    let mut q: Vec<char> = Vec::new();
    let mut i: usize = 0;
    while i < d.len()
        invariant
            i <= d.len(),
            d@ == dest@,
            q@ == sql_quote_spec(dest@.take(i as int)),
        decreases d.len() - i,
    {
        assert(dest@.take(i + 1).drop_last() == dest@.take(i as int));
        assert(dest@.take(i + 1).last() == d@[i as int]);
        if d[i] == '\'' {
            q.push('\'');
            q.push('\'');
            assert(q@ =~= sql_quote_spec(dest@.take(i as int)) + seq!['\'', '\'']);
        } else {
            q.push(d[i]);
        }
        i = i + 1;
    }
    assert(dest@.take(d.len() as int) == dest@);
    let mut v = to_chars("VACUUM INTO '");
    push_chars(&mut v, &q);
    push_str(&mut v, "'");
    from_chars(&v)
}

/// Names that backups are written under.
pub open spec fn is_backup_name(n: Seq<char>) -> bool {
    starts_with(n, "controller-"@) && ends_with(n, ".db"@)
}

/// Sorted newest first (names carry the time stamp).
pub open spec fn desc_sorted(s: Seq<Seq<char>>) -> bool {
    forall|i: int, j: int| 0 <= i < j < s.len() ==> lex_le(s[j], s[i])
}

/// Which backups to delete: of the files named like backups, all but the
/// `keep` newest (by name, the time stamp being in it).
pub fn backups_to_prune(names: &[String], keep: usize) -> (r: Vec<String>)
    ensures
        exists|s: Seq<Seq<char>>|
            {
                &&& desc_sorted(s)
                &&& s.to_multiset() == strs_view(names@).filter(|n: Seq<char>| is_backup_name(n)).to_multiset()
                &&& strs_view(r@) == if keep < s.len() {
                    s.subrange(keep as int, s.len() as int)
                } else {
                    Seq::<Seq<char>>::empty()
                }
            },
{
    let ghost cand = strs_view(names@).filter(|n: Seq<char>| is_backup_name(n));
    // collect the backup names
    let mut files: Vec<Vec<char>> = Vec::new();
    let pre = to_chars("controller-");
    let suf = to_chars(".db");
    let mut i: usize = 0;
    while i < names.len()
        invariant
            i <= names.len(),
            pre@ == "controller-"@,
            suf@ == ".db"@,
            files@.map_values(|f: Vec<char>| f@) == strs_view(names@).take(i as int).filter(
                |n: Seq<char>| is_backup_name(n),
            ),
        decreases names.len() - i,
    {
        proof {
            reveal(Seq::filter);
        }
        assert(strs_view(names@).take(i + 1).drop_last() == strs_view(names@).take(i as int));
        assert(strs_view(names@).take(i + 1).last() == names@[i as int]@);
        let n = to_chars(names[i].as_str());
        if has_prefix(&n, &pre) && has_suffix(&n, &suf) {
            let ghost before = files@.map_values(|f: Vec<char>| f@);
            let ghost nv = n@;
            files.push(n);
            assert(files@.map_values(|f: Vec<char>| f@) =~= before.push(nv));
        }
        i = i + 1;
    }
    assert(strs_view(names@).take(names.len() as int) == strs_view(names@));
    // selection sort, largest first
    let ghost orig = files@.map_values(|f: Vec<char>| f@);
    let n = files.len();
    let mut k: usize = 0;
    while k < n
        invariant
            n == files.len(),
            k <= n,
            files@.map_values(|f: Vec<char>| f@).to_multiset() == orig.to_multiset(),
            forall|a: int, b: int|
                0 <= a < b < k ==> lex_le(#[trigger] files@[b]@, #[trigger] files@[a]@),
            forall|a: int, b: int|
                0 <= a < k <= b < n ==> lex_le(#[trigger] files@[b]@, #[trigger] files@[a]@),
        decreases n - k,
    {
        let mut best: usize = k;
        let mut j: usize = k + 1;
        proof {
            lemma_lex_refl(files@[k as int]@);
        }
        while j < n
            invariant
                n == files.len(),
                k < n,
                k <= best < n,
                k + 1 <= j <= n,
                forall|b: int| k <= b < j ==> lex_le(#[trigger] files@[b]@, files@[best as int]@),
            decreases n - j,
        {
            if !lex_le_exec(files[j].as_slice(), files[best].as_slice()) {
                proof {
                    lemma_lex_total(files@[j as int]@, files@[best as int]@);
                    assert forall|b: int| k <= b < j + 1 implies lex_le(#[trigger] files@[b]@, files@[j as int]@) by {
                        if b < j {
                            lemma_lex_trans(files@[b]@, files@[best as int]@, files@[j as int]@);
                        } else {
                            lemma_lex_refl(files@[j as int]@);
                        }
                    }
                }
                best = j;
            }
            j = j + 1;
        }
        let ghost before = files@;
        let ghost bv = files@.map_values(|f: Vec<char>| f@);
        if best != k {
            let a = files[k].clone();
            let b = files[best].clone();
            files.set(k, b);
            files.set(best, a);
            proof {
                let after = files@.map_values(|f: Vec<char>| f@);
                assert(after =~= bv.update(k as int, bv[best as int]).update(best as int, bv[k as int]));
                lemma_swap_multiset(bv, k as int, best as int);
            }
        }
        proof {
            assert forall|a: int, b: int| 0 <= a < b < k + 1 implies lex_le(#[trigger] files@[b]@, #[trigger] files@[a]@) by {
                if b == k {
                    assert(files@[k as int]@ == before[best as int]@);
                    assert(files@[a]@ == before[a]@);
                }
            }
            assert forall|a: int, b: int|
                0 <= a < k + 1 <= b < n implies lex_le(#[trigger] files@[b]@, #[trigger] files@[a]@) by {
                if a == k {
                    if b == best {
                        assert(files@[b]@ == before[k as int]@);
                    } else {
                        assert(files@[b]@ == before[b]@);
                    }
                } else {
                    if b == best {
                        assert(files@[b]@ == before[k as int]@);
                    } else {
                        assert(files@[b]@ == before[b]@);
                    }
                    assert(files@[a]@ == before[a]@);
                }
            }
        }
        k = k + 1;
    }
    // all but the newest `keep`
    let ghost sorted = files@.map_values(|f: Vec<char>| f@);
    let mut out: Vec<String> = Vec::new();
    let start: usize = if keep < n { keep } else { n };
    let mut m: usize = start;
    while m < n
        invariant
            n == files.len(),
            start <= m <= n,
            sorted == files@.map_values(|f: Vec<char>| f@),
            strs_view(out@) == sorted.subrange(start as int, m as int),
        decreases n - m,
    {
        let s = from_chars(files[m].as_slice());
        let ghost before = strs_view(out@);
        out.push(s);
        assert(sorted[m as int] == files@[m as int]@);
        assert(strs_view(out@) =~= before.push(s@));
        assert(strs_view(out@) =~= sorted.subrange(start as int, m + 1));
        m = m + 1;
    }
    proof {
        assert(desc_sorted(sorted));
        if keep >= n {
            assert(strs_view(out@) =~= Seq::<Seq<char>>::empty());
        }
    }
    out
}

// ---------------------------------------------------------------- API operations

pub open spec fn opt_str(o: Option<&str>) -> Option<Seq<char>> {
    match o {
        Some(s) => Some(s@),
        None => None,
    }
}

/// An agent presenting `token` as agent `id` is authenticated: it exists, is
/// not revoked, and the token hashes to its stored credential.
pub open spec fn credential_ok(agents: Seq<crate::store::AgentV>, id: Seq<char>, token: Seq<char>) -> bool {
    crate::store::find_agent(agents, id) matches Some(a) && a.revoked_at is None && a.credential_hash
        == crate::auth::hash_token_spec(token)
}

/// The tables of two stores are the same.
pub open spec fn same_tables(a: Storage, b: Storage) -> bool {
    &&& a.agents_v() == b.agents_v()
    &&& a.routes_v() == b.routes_v()
    &&& a.tokens_v() == b.tokens_v()
    &&& a.ttl_v() == b.ttl_v()
    &&& a.path_v() == b.path_v()
}

/// The registry answers what the tables say at `now`.
pub open spec fn registry_current(reg: DnsRegistry, st: Storage, now: i64, ttl_secs: u64) -> bool {
    reg.map() == fold_map(registry_pairs_spec(dns_routes_spec(st.agents_v(), st.routes_v(), now, (ttl_secs * 1000) as i64)))
}

/// The operations' common demands: consistent tables, a time in range, a TTL
/// that fits in milliseconds.
pub open spec fn state_ok(st: AppState, now: i64) -> bool {
    st.storage.wf() && time_ok(now) && st.cfg.leases.agent_ttl_seconds * 1000 <= TIME_BOUND
}

impl AppState {
    /// Admin endpoints accept a session token or the admin password as bearer.
    pub fn check_admin(&mut self, auth: Option<&str>, now_mono: u64) -> (r: Result<(), ApiError>)
        ensures
            r is Ok <==> (bearer_spec(opt_str(auth)) matches Some(t) && (session_live(
                old(self).sessions.view_sessions(),
                t,
                now_mono,
            ) || t == old(self).admin_password@)),
            r matches Err(e) ==> e is Unauthorized,
            final(self).storage == old(self).storage,
            final(self).registry == old(self).registry,
            final(self).cfg == old(self).cfg,
            final(self).admin_password == old(self).admin_password,
            final(self).sessions.ttl() == old(self).sessions.ttl(),
    {
        match bearer_token(auth) {
            None => Err(ApiError::Unauthorized),
            Some(t) => if self.admin_authorized(t.as_str(), now_mono) {
                Ok(())
            } else {
                Err(ApiError::Unauthorized)
            },
        }
    }

    /// `POST /v1/agents/enroll`: the bearer is a one-time enrollment token.
    pub fn enroll(&mut self, auth: Option<&str>, req: &EnrollRequest, now: i64) -> (r: Result<EnrollResponse, ApiError>)
        requires
            state_ok(*old(self), now),
        ensures
            final(self).storage.wf(),
            final(self).cfg == old(self).cfg,
            final(self).storage.routes_v() == old(self).storage.routes_v(),
            (r is Ok || r matches Err(ApiError::Storage)) <==> (bearer_spec(opt_str(auth)) matches Some(t)
                && crate::store::token_open(old(self).storage.tokens_v(), crate::auth::hash_token_spec(t))),
            r matches Err(e) ==> (e is Unauthorized || e is Storage),
            r matches Err(ApiError::Unauthorized) ==> same_tables(final(self).storage, old(self).storage),
            r matches Ok(resp) ==> {
                &&& resp.heartbeat_interval_seconds == old(self).cfg.leases.heartbeat_interval_seconds
                &&& resp.lease_ttl_seconds == old(self).cfg.leases.agent_ttl_seconds
                &&& resp.agent_id@.len() == 28
                &&& resp.agent_token@.len() == 64
                &&& final(self).storage.agents_v() == old(self).storage.agents_v().push(
                    crate::store::enrolled_agent(
                        resp.agent_id@,
                        resp.agent_token@,
                        req.display_name@,
                        req.tailscale_ipv4@,
                        req.docker_engine_id@,
                        now,
                    ),
                )
            },
    {
        let token = match bearer_token(auth) {
            None => {
                return Err(ApiError::Unauthorized);
            },
            Some(t) => t,
        };
        if self.storage.consume_enrollment_token_at(token.as_str(), now).is_err() {
            return Err(ApiError::Unauthorized);
        }
        match self.storage.enroll_agent_at(
            req.display_name.as_str(),
            req.tailscale_ipv4.as_str(),
            req.docker_engine_id.as_str(),
            now,
        ) {
            Err(_) => Err(ApiError::Storage),
            Ok((agent_id, agent_token)) => Ok(
                EnrollResponse {
                    agent_id,
                    agent_token,
                    heartbeat_interval_seconds: self.cfg.leases.heartbeat_interval_seconds,
                    lease_ttl_seconds: self.cfg.leases.agent_ttl_seconds,
                },
            ),
        }
    }

    fn authenticate_agent(&self, agent_id: &str, auth: Option<&str>) -> (r: bool)
        requires
            self.storage.wf(),
        ensures
            r == (bearer_spec(opt_str(auth)) matches Some(t) && credential_ok(
                self.storage.agents_v(),
                agent_id@,
                t,
            )),
    {
        match bearer_token(auth) {
            None => false,
            Some(t) => self.storage.verify_agent_token(agent_id, t.as_str()).is_ok(),
        }
    }

    /// `POST /v1/agents/{id}/heartbeat`: renews the lease and address, then
    /// refreshes DNS. Returns the reply status (204).
    pub fn heartbeat(&mut self, agent_id: &str, auth: Option<&str>, req: &HeartbeatRequest, now: i64) -> (r: Result<
        u16,
        ApiError,
    >)
        requires
            state_ok(*old(self), now),
        ensures
            final(self).storage.wf(),
            final(self).cfg == old(self).cfg,
            r is Ok <==> (bearer_spec(opt_str(auth)) matches Some(t) && credential_ok(
                old(self).storage.agents_v(),
                agent_id@,
                t,
            )),
            r matches Err(e) ==> e is Unauthorized && same_tables(final(self).storage, old(self).storage),
            r matches Ok(code) ==> code == 204 && final(self).storage.agents_v() == crate::store::heartbeat_agents(
                old(self).storage.agents_v(),
                agent_id@,
                req.tailscale_ipv4@,
                now,
            ) && final(self).storage.routes_v() == old(self).storage.routes_v() && registry_current(
                final(self).registry,
                final(self).storage,
                now,
                final(self).cfg.leases.agent_ttl_seconds,
            ),
    {
        if !self.authenticate_agent(agent_id, auth) {
            return Err(ApiError::Unauthorized);
        }
        proof {
            crate::store::lemma_find_agent_has_id(self.storage.agents_v(), agent_id@);
        }
        match self.storage.heartbeat_at(agent_id, req.tailscale_ipv4.as_str(), now) {
            Err(_) => {
                return Err(ApiError::Unauthorized);
            },
            Ok(()) => {},
        }
        self.refresh_dns_at(now);
        Ok(204)
    }

    /// `PUT /v1/agents/{id}/routes`: replaces the agent's route set after the
    /// registration policy accepts every hostname, then refreshes DNS.
    pub fn put_routes(&mut self, agent_id: &str, auth: Option<&str>, req: &PutRoutesRequest, now: i64) -> (r: Result<
        PutRoutesResponse,
        ApiError,
    >)
        requires
            state_ok(*old(self), now),
        ensures
            final(self).storage.wf(),
            final(self).cfg == old(self).cfg,
            final(self).storage.agents_v() == old(self).storage.agents_v(),
            !(bearer_spec(opt_str(auth)) matches Some(t) && credential_ok(old(self).storage.agents_v(), agent_id@, t))
                ==> (r matches Err(e) && e is Unauthorized),
            r matches Err(ApiError::Forbidden(m)) ==> first_refusal(
                strs_view(old(self).cfg.security.blocked_names@),
                strs_view(old(self).cfg.security.allowed_suffixes@),
                req.routes@,
                m@,
            ),
            (bearer_spec(opt_str(auth)) matches Some(t) && credential_ok(old(self).storage.agents_v(), agent_id@, t))
                && (exists|i: int|
                0 <= i < req.routes@.len() && hostname_policy(
                    strs_view(old(self).cfg.security.blocked_names@),
                    strs_view(old(self).cfg.security.allowed_suffixes@),
                    #[trigger] req.routes@[i].hostname@,
                ) is Err) ==> (r matches Err(ApiError::Forbidden(m)) && first_refusal(
                strs_view(old(self).cfg.security.blocked_names@),
                strs_view(old(self).cfg.security.allowed_suffixes@),
                req.routes@,
                m@,
            )),
            r is Err ==> same_tables(final(self).storage, old(self).storage),
            (bearer_spec(opt_str(auth)) matches Some(t) && credential_ok(old(self).storage.agents_v(), agent_id@, t))
                && (forall|i: int|
                0 <= i < req.routes@.len() ==> hostname_policy(
                    strs_view(old(self).cfg.security.blocked_names@),
                    strs_view(old(self).cfg.security.allowed_suffixes@),
                    #[trigger] req.routes@[i].hostname@,
                ) is Ok) ==> r is Ok,
            r matches Ok(resp) ==> {
                let ttl = (old(self).cfg.leases.agent_ttl_seconds * 1000) as i64;
                let es = crate::store::entries_v(req.routes@);
                &&& resp.accepted@.map_values(|s: String| s@) == crate::store::put_accepted(
                    old(self).storage.agents_v(),
                    old(self).storage.routes_v(),
                    agent_id@,
                    es,
                    now,
                    ttl,
                )
                &&& resp.conflicts@.map_values(|c: crate::api::RouteConflict| crate::store::conflict_v(c))
                    == crate::store::put_conflicts(
                    old(self).storage.agents_v(),
                    old(self).storage.routes_v(),
                    agent_id@,
                    es,
                    now,
                    ttl,
                )
                &&& forall|h: Seq<char>|
                    #[trigger] crate::store::find_route(final(self).storage.routes_v(), h)
                        == crate::store::put_routes_result(
                        old(self).storage.agents_v(),
                        old(self).storage.routes_v(),
                        agent_id@,
                        es,
                        now,
                        ttl,
                        h,
                    )
                &&& registry_current(final(self).registry, final(self).storage, now, final(self).cfg.leases.agent_ttl_seconds)
            },
    {
        if !self.authenticate_agent(agent_id, auth) {
            return Err(ApiError::Unauthorized);
        }
        match check_routes_allowed(&self.cfg, req.routes.as_slice()) {
            Err(m) => {
                return Err(ApiError::Forbidden(m));
            },
            Ok(()) => {},
        }
        let ttl = self.lease_ttl_ms();
        match self.storage.put_routes_at(agent_id, req.routes.as_slice(), ttl, now) {
            Err(_) => {
                proof {
                    crate::store::lemma_find_agent_has_id(old(self).storage.agents_v(), agent_id@);
                }
                Err(ApiError::Unauthorized)
            },
            Ok(out) => {
                self.refresh_dns_at(now);
                Ok(PutRoutesResponse { accepted: out.accepted, conflicts: out.conflicts })
            },
        }
    }

    /// `DELETE /v1/admin/routes/{hostname}`: deletes the route, then refreshes DNS.
    pub fn admin_delete_route(&mut self, auth: Option<&str>, hostname: &str, now: i64, now_mono: u64) -> (r: Result<
        u16,
        ApiError,
    >)
        requires
            state_ok(*old(self), now),
        ensures
            final(self).storage.wf(),
            final(self).cfg == old(self).cfg,
            r is Ok <==> (bearer_spec(opt_str(auth)) matches Some(t) && (session_live(
                old(self).sessions.view_sessions(),
                t,
                now_mono,
            ) || t == old(self).admin_password@)),
            r matches Err(e) ==> e is Unauthorized && same_tables(final(self).storage, old(self).storage),
            r matches Ok(code) ==> code == 204 && final(self).storage.routes_v() == crate::store::filter_routes(
                old(self).storage.routes_v(),
                crate::store::keep_not_host(lower_seq(hostname@)),
            ) && final(self).storage.agents_v() == old(self).storage.agents_v() && registry_current(
                final(self).registry,
                final(self).storage,
                now,
                final(self).cfg.leases.agent_ttl_seconds,
            ),
    {
        match self.check_admin(auth, now_mono) {
            Err(e) => {
                return Err(e);
            },
            Ok(()) => {},
        }
        let _ = self.storage.delete_route(hostname);
        self.refresh_dns_at(now);
        Ok(204)
    }

    /// `DELETE /v1/admin/agents/{id}`: revokes the agent, drops its routes,
    /// then refreshes DNS.
    pub fn admin_revoke_agent(&mut self, auth: Option<&str>, agent_id: &str, now: i64, now_mono: u64) -> (r: Result<
        u16,
        ApiError,
    >)
        requires
            state_ok(*old(self), now),
        ensures
            final(self).storage.wf(),
            final(self).cfg == old(self).cfg,
            r is Ok <==> (bearer_spec(opt_str(auth)) matches Some(t) && (session_live(
                old(self).sessions.view_sessions(),
                t,
                now_mono,
            ) || t == old(self).admin_password@)),
            r matches Err(e) ==> e is Unauthorized && same_tables(final(self).storage, old(self).storage),
            r matches Ok(code) ==> code == 204 && final(self).storage.agents_v() == crate::store::revoke_agents(
                old(self).storage.agents_v(),
                agent_id@,
                now,
            ) && final(self).storage.routes_v() == crate::store::filter_routes(
                old(self).storage.routes_v(),
                crate::store::keep_not_agent(agent_id@),
            ) && registry_current(final(self).registry, final(self).storage, now, final(self).cfg.leases.agent_ttl_seconds),
    {
        match self.check_admin(auth, now_mono) {
            Err(e) => {
                return Err(e);
            },
            Ok(()) => {},
        }
        let _ = self.storage.revoke_agent_at(agent_id, now);
        self.refresh_dns_at(now);
        Ok(204)
    }

    /// `POST /v1/admin/enrollment-tokens`: a new one-time token, with no expiry.
    pub fn admin_create_enrollment_token(&mut self, auth: Option<&str>, now: i64, now_mono: u64) -> (r: Result<
        CreateEnrollmentTokenResponse,
        ApiError,
    >)
        requires
            state_ok(*old(self), now),
        ensures
            final(self).storage.wf(),
            final(self).cfg == old(self).cfg,
            (r is Ok || r matches Err(ApiError::Storage)) <==> (bearer_spec(opt_str(auth)) matches Some(t) && (
            session_live(old(self).sessions.view_sessions(), t, now_mono) || t == old(self).admin_password@)),
            r matches Err(ApiError::Unauthorized) ==> same_tables(final(self).storage, old(self).storage),
            r matches Ok(resp) ==> resp.expires_at is None && resp.token@.len() == 64
                && final(self).storage.tokens_v() == old(self).storage.tokens_v().push(
                crate::store::TokenV {
                    token_hash: crate::auth::hash_token_spec(resp.token@),
                    created_at: now,
                    used_at: None,
                },
            ),
    {
        match self.check_admin(auth, now_mono) {
            Err(e) => {
                return Err(e);
            },
            Ok(()) => {},
        }
        match self.storage.create_enrollment_token_at(now) {
            Err(_) => Err(ApiError::Storage),
            Ok(rec) => Ok(CreateEnrollmentTokenResponse { token: rec.token_plain, expires_at: None }),
        }
    }

    /// `GET /v1/admin/agents`: the active agents with their lease status.
    pub fn admin_agents(&mut self, auth: Option<&str>, now: i64, now_mono: u64) -> (r: Result<Vec<AdminAgentView>, ApiError>)
        requires
            state_ok(*old(self), now),
        ensures
            final(self).storage == old(self).storage,
            r is Ok <==> (bearer_spec(opt_str(auth)) matches Some(t) && (session_live(
                old(self).sessions.view_sessions(),
                t,
                now_mono,
            ) || t == old(self).admin_password@)),
            r matches Ok(v) ==> v@.len() == crate::store::active_agents(old(self).storage.agents_v()).len(),
    {
        match self.check_admin(auth, now_mono) {
            Err(e) => {
                return Err(e);
            },
            Ok(()) => {},
        }
        let agents = self.storage.list_agents();
        let ttl = self.lease_ttl_ms();
        proof {
            let v = self.storage.agents_v();
            assert forall|k: int| 0 <= k < v.len() implies crate::store::opt_time_ok(#[trigger] v[k].last_seen_at) by {
                assert(crate::store::opt_time_ok(v[k].last_seen_at));
            }
            assert forall|i: int| 0 <= i < agents@.len() implies crate::store::opt_time_ok(
                (#[trigger] agents@[i]).last_seen_at,
            ) by {
                crate::store::lemma_active_agents_sub(v, i);
            }
        }
        Ok(admin_agent_views(agents.as_slice(), now, ttl))
    }

    /// `GET /v1/admin/routes`: routes of live agents with their lease end and address.
    pub fn admin_routes(&mut self, auth: Option<&str>, now: i64, now_mono: u64) -> (r: Result<Vec<AdminRouteView>, ApiError>)
        requires
            state_ok(*old(self), now),
        ensures
            final(self).storage == old(self).storage,
            r is Ok <==> (bearer_spec(opt_str(auth)) matches Some(t) && (session_live(
                old(self).sessions.view_sessions(),
                t,
                now_mono,
            ) || t == old(self).admin_password@)),
            r matches Ok(v) ==> v@.len() == crate::store::admin_routes_spec(
                old(self).storage.agents_v(),
                old(self).storage.routes_v(),
                now,
                (old(self).cfg.leases.agent_ttl_seconds * 1000) as i64,
            ).len(),
    {
        match self.check_admin(auth, now_mono) {
            Err(e) => {
                return Err(e);
            },
            Ok(()) => {},
        }
        let ttl = self.lease_ttl_ms();
        let rows = self.storage.list_routes_admin_at(ttl, now);
        let agents = self.storage.list_agents();
        Ok(admin_route_views(rows.as_slice(), agents.as_slice()))
    }

    /// `GET /ready`: the store answers and DNS is listening.
    pub fn ready(&self) -> (r: bool)
        ensures
            r == self.dns_up,
    {
        self.dns_up
    }
}

/// The file the admin password is read from: the password file if configured,
/// else the admin token file.
pub fn admin_password_path(api: &ApiConfig) -> (r: String)
    ensures
        match api.admin_password_file {
            Some(p) => r@ == p@,
            None => r@ == api.admin_token_file@,
        },
{
    match &api.admin_password_file {
        Some(p) => p.clone(),
        None => api.admin_token_file.clone(),
    }
}
} // verus!
