//! The agent: its configuration, readiness, controller endpoints, retry
//! schedule, and the route set it derives from Docker and static routes.

use vstd::prelude::*;
use crate::text::{
    contains_char, ends_with, eq_ignore_case, from_chars, has_suffix, lower_chars, lower_seq, push_chars,
    push_str, to_chars, decimal_chars, decimal_seq, contains_pat, contains_seq,
};

verus! {

// ---------------------------------------------------------------- configuration

/// One or more hostnames served by one HTTP backend (`http://host:port`).
#[derive(Debug, Clone)]
pub struct StaticRouteConfig {
    pub hosts: Vec<String>,
    pub backend: String,
}

/// Agent configuration.
#[derive(Debug, Clone)]
pub struct AgentConfig {
    pub controller_url: String,
    pub enrollment_token: Option<String>,
    pub docker_socket: String,
    pub state_dir: String,
    pub proxy_port: u16,
    /// Override bind address (Compose / CI without Tailscale), e.g. `0.0.0.0:8088`.
    pub proxy_listen: Option<String>,
    /// Simulated Tailscale IPv4 for registration when Tailscale is absent.
    pub tailscale_ipv4: Option<String>,
    pub connect_timeout_ms: u64,
    pub response_timeout_seconds: u64,
    /// TCP-probe backends and log failures; routes are registered either way.
    pub tcp_probe_on_register: bool,
    /// Optional bind address of the `/health` and `/ready` server.
    pub status_listen: Option<String>,
    /// Routes that do not come from Docker.
    pub static_routes: Vec<StaticRouteConfig>,
}

pub fn default_docker_sock() -> (r: String)
    ensures
        r@ == "/var/run/docker.sock"@,
{
    "/var/run/docker.sock".to_string()
}

pub fn default_state() -> (r: String)
    ensures
        r@ == "/var/lib/tailsvc-agent"@,
{
    "/var/lib/tailsvc-agent".to_string()
}

pub fn default_proxy_port() -> (r: u16)
    ensures
        r == 80,
{
    80
}

pub fn default_connect_ms() -> (r: u64)
    ensures
        r == 2000,
{
    2000
}

pub fn default_response_secs() -> (r: u64)
    ensures
        r == 300,
{
    300
}

/// Probing is on by default; a failed probe only warns.
pub fn default_probe() -> (r: bool)
    ensures
        r,
{
    true
}

// ---------------------------------------------------------------- persisted identity

/// What the agent keeps across restarts after enrolling.
#[derive(Debug, Clone)]
pub struct PersistedAgentState {
    pub agent_id: String,
    pub agent_token: String,
    pub controller_url: String,
}

/// `dir` joined with `agent.json`, as `Path::join` does for a relative name.
pub open spec fn state_path_spec(dir: Seq<char>) -> Seq<char> {
    if dir.len() == 0 {
        "agent.json"@
    } else if dir.last() == '/' {
        dir + "agent.json"@
    } else {
        dir + "/agent.json"@
    }
}

/// Where the agent's identity is stored inside its state directory.
pub fn state_path(dir: &str) -> (r: String)
    ensures
        r@ == state_path_spec(dir@),
{
    let d = to_chars(dir);
    let mut out: Vec<char> = Vec::new();
    push_chars(&mut out, &d);
    if d.len() == 0 {
        push_str(&mut out, "agent.json");
        proof {
            assert(out@ =~= "agent.json"@);
        }
    } else if d[d.len() - 1] == '/' {
        push_str(&mut out, "agent.json");
    } else {
        push_str(&mut out, "/agent.json");
    }
    from_chars(&out)
}

// ---------------------------------------------------------------- readiness

/// The readiness conditions of the agent.
pub enum ReadyFlag {
    TailscaleOk,
    DockerOk,
    ProxyOk,
    Enrolled,
    InitialReconcile,
}

/// Readiness flags for `/health` and `/ready`.
#[derive(Debug, Clone)]
pub struct AgentReady {
    pub tailscale_ok: bool,
    pub docker_ok: bool,
    pub proxy_ok: bool,
    pub enrolled: bool,
    pub initial_reconcile: bool,
}

pub open spec fn ready_spec(r: AgentReady) -> bool {
    r.tailscale_ok && r.docker_ok && r.proxy_ok && r.enrolled && r.initial_reconcile
}

impl AgentReady {
    /// Nothing ready yet.
    pub fn new() -> (r: AgentReady)
        ensures
            !r.tailscale_ok && !r.docker_ok && !r.proxy_ok && !r.enrolled && !r.initial_reconcile,
    {
        AgentReady { tailscale_ok: false, docker_ok: false, proxy_ok: false, enrolled: false, initial_reconcile: false }
    }

    /// Ready when every condition holds.
    pub fn is_ready(&self) -> (r: bool)
        ensures
            r == ready_spec(*self),
    {
        self.tailscale_ok && self.docker_ok && self.proxy_ok && self.enrolled && self.initial_reconcile
    }

    /// Sets one flag, leaving the others.
    pub fn set(&mut self, flag: ReadyFlag, v: bool)
        ensures
            final(self).tailscale_ok == (if flag is TailscaleOk { v } else { old(self).tailscale_ok }),
            final(self).docker_ok == (if flag is DockerOk { v } else { old(self).docker_ok }),
            final(self).proxy_ok == (if flag is ProxyOk { v } else { old(self).proxy_ok }),
            final(self).enrolled == (if flag is Enrolled { v } else { old(self).enrolled }),
            final(self).initial_reconcile == (if flag is InitialReconcile { v } else { old(self).initial_reconcile }),
    {
        match flag {
            ReadyFlag::TailscaleOk => self.tailscale_ok = v,
            ReadyFlag::DockerOk => self.docker_ok = v,
            ReadyFlag::ProxyOk => self.proxy_ok = v,
            ReadyFlag::Enrolled => self.enrolled = v,
            ReadyFlag::InitialReconcile => self.initial_reconcile = v,
        }
    }
}

/// The status server's answer to a request whose first line is `first_line`:
/// `/ready` reports readiness (200 or 503), anything else is healthy.
pub open spec fn status_reply_spec(first_line: Seq<char>, ready: bool) -> (Seq<char>, Seq<char>) {
    if contains_seq(first_line, " /ready"@) {
        if ready {
            ("200 OK"@, "ready"@)
        } else {
            ("503 Service Unavailable"@, "not ready"@)
        }
    } else {
        ("200 OK"@, "ok"@)
    }
}

pub fn status_reply(first_line: &str, ready: bool) -> (r: (String, String))
    ensures
        (r.0@, r.1@) == status_reply_spec(first_line@, ready),
{
    let l = to_chars(first_line);
    let p = to_chars(" /ready");
    if contains_pat(&l, &p) {
        if ready {
            ("200 OK".to_string(), "ready".to_string())
        } else {
            ("503 Service Unavailable".to_string(), "not ready".to_string())
        }
    } else {
        ("200 OK".to_string(), "ok".to_string())
    }
}

/// The raw HTTP/1.1 response of the status server.
pub open spec fn status_response_spec(code: Seq<char>, body: Seq<char>) -> Seq<char> {
    "HTTP/1.1 "@ + code + "\r\ncontent-type: text/plain\r\ncontent-length: "@ + decimal_seq(body.len())
        + "\r\nconnection: close\r\n\r\n"@ + body
}

pub fn status_response(code: &str, body: &str) -> (r: String)
    ensures
        r@ == status_response_spec(code@, body@),
{
    let b = to_chars(body);
    let mut out: Vec<char> = Vec::new();
    push_str(&mut out, "HTTP/1.1 ");
    push_str(&mut out, code);
    push_str(&mut out, "\r\ncontent-type: text/plain\r\ncontent-length: ");
    let n = decimal_chars(b.len() as u64);
    push_chars(&mut out, &n);
    push_str(&mut out, "\r\nconnection: close\r\n\r\n");
    push_chars(&mut out, &b);
    from_chars(&out)
}

// ---------------------------------------------------------------- hostnames

/// Suffixes of private names that cannot shadow a public domain.
pub open spec fn private_suffixes() -> Seq<Seq<char>> {
    seq![".internal"@, ".local"@, ".localhost"@, ".test"@, ".lan"@, ".home"@, ".corp"@]
}

/// A dotted name outside the private suffixes may shadow a public domain.
pub open spec fn public_domain_spec(host: Seq<char>) -> bool {
    host.contains('.') && !(exists|i: int|
        0 <= i < private_suffixes().len() && ends_with(lower_seq(host), #[trigger] private_suffixes()[i]))
}

pub fn looks_like_public_domain(host: &str) -> (r: bool)
    ensures
        r == public_domain_spec(host@),
{
    let h = to_chars(host);
    if !contains_char(&h, '.') {
        return false;
    }
    let lower = lower_chars(&h);
    let sufs: Vec<&str> = vec![".internal", ".local", ".localhost", ".test", ".lan", ".home", ".corp"];
    assert(sufs@.map_values(|s: &str| s@) =~= private_suffixes());
    let mut i: usize = 0;
    while i < sufs.len()
        invariant
            i <= sufs.len(),
            sufs@.map_values(|s: &str| s@) == private_suffixes(),
            lower@ == lower_seq(host@),
            forall|k: int| 0 <= k < i ==> !ends_with(lower@, #[trigger] private_suffixes()[k]),
        decreases sufs.len() - i,
    {
        assert(sufs@.map_values(|s: &str| s@)[i as int] == sufs@[i as int]@);
        let s = to_chars(sufs[i]);
        if has_suffix(&lower, &s) {
            return false;
        }
        i = i + 1;
    }
    true
}

// ---------------------------------------------------------------- controller endpoints

/// `base` without trailing `/` characters, as `trim_end_matches('/')` leaves it.
pub open spec fn trim_slashes(s: Seq<char>) -> Seq<char>
    decreases s.len(),
{
    if s.len() > 0 && s.last() == '/' {
        trim_slashes(s.drop_last())
    } else {
        s
    }
}

pub fn trim_trailing_slashes(s: &str) -> (r: String)
    ensures
        r@ == trim_slashes(s@),
{
    let cs = to_chars(s);
    let mut k: usize = cs.len();
    assert(s@.subrange(0, k as int) =~= s@);
    while k > 0 && cs[k - 1] == '/'
        invariant
            cs@ == s@,
            k <= cs.len(),
            trim_slashes(s@) == trim_slashes(s@.subrange(0, k as int)),
        decreases k,
    {
        assert(s@.subrange(0, k as int).drop_last() =~= s@.subrange(0, k - 1));
        k = k - 1;
    }
    let out = crate::text::slice_range(&cs, 0, k);
    from_chars(&out)
}

/// The enrollment endpoint under the controller base URL.
pub fn enroll_url(base: &str) -> (r: String)
    ensures
        r@ == trim_slashes(base@) + "/v1/agents/enroll"@,
{
    let b = trim_trailing_slashes(base);
    let mut out = to_chars(b.as_str());
    push_str(&mut out, "/v1/agents/enroll");
    from_chars(&out)
}

/// `{base}/v1/agents/{agent_id}/{what}`.
pub fn agent_url(base: &str, agent_id: &str, what: &str) -> (r: String)
    ensures
        r@ == trim_slashes(base@) + "/v1/agents/"@ + agent_id@ + "/"@ + what@,
{
    let b = trim_trailing_slashes(base);
    let mut out = to_chars(b.as_str());
    push_str(&mut out, "/v1/agents/");
    push_str(&mut out, agent_id);
    push_str(&mut out, "/");
    push_str(&mut out, what);
    from_chars(&out)
}

/// The `Authorization` header value for a bearer token.
pub fn bearer_header(token: &str) -> (r: String)
    ensures
        r@ == "Bearer "@ + token@,
{
    let mut out = to_chars("Bearer ");
    push_str(&mut out, token);
    from_chars(&out)
}

// ---------------------------------------------------------------- retry schedule

pub const CONTROLLER_BACKOFF_BASE_MS: u64 = 500;
pub const CONTROLLER_BACKOFF_MAX_MS: u64 = 30000;
pub const EVENT_RECONNECT_BASE_MS: u64 = 1000;
pub const EVENT_RECONNECT_MAX_MS: u64 = 30000;
pub const RECONCILE_DEBOUNCE_MS: u64 = 400;
pub const PERIODIC_RECONCILE_MS: u64 = 15000;
pub const PROBE_RETRIES: u32 = 5;
pub const PROBE_RETRY_DELAY_MS: u64 = 400;

/// Doubles a delay, capped at `max_ms`.
pub open spec fn doubled(cur: u64, max_ms: u64) -> u64 {
    if 2 * cur < max_ms {
        (2 * cur) as u64
    } else {
        max_ms
    }
}

/// The controller backoff after another failure.
pub fn bump_controller_backoff(cur_ms: u64) -> (r: u64)
    requires
        cur_ms <= CONTROLLER_BACKOFF_MAX_MS,
    ensures
        r == doubled(cur_ms, CONTROLLER_BACKOFF_MAX_MS),
        cur_ms >= CONTROLLER_BACKOFF_BASE_MS ==> CONTROLLER_BACKOFF_BASE_MS <= r <= CONTROLLER_BACKOFF_MAX_MS,
{
    let d = cur_ms * 2;
    if d < CONTROLLER_BACKOFF_MAX_MS {
        d
    } else {
        CONTROLLER_BACKOFF_MAX_MS
    }
}

/// The delay before reconnecting to the Docker event stream the next time:
/// back to the base once an event was seen on the stream, then doubled up to the cap.
/// Returns `(sleep now, next delay)`.
pub fn event_reconnect_delays(cur_ms: u64, saw_event: bool) -> (r: (u64, u64))
    requires
        cur_ms <= EVENT_RECONNECT_MAX_MS,
    ensures
        r.0 == (if saw_event { EVENT_RECONNECT_BASE_MS } else { cur_ms }),
        r.1 == doubled(r.0, EVENT_RECONNECT_MAX_MS),
        r.0 <= EVENT_RECONNECT_MAX_MS && r.1 <= EVENT_RECONNECT_MAX_MS,
{
    let sleep = if saw_event { EVENT_RECONNECT_BASE_MS } else { cur_ms };
    let d = sleep * 2;
    let next = if d < EVENT_RECONNECT_MAX_MS { d } else { EVENT_RECONNECT_MAX_MS };
    (sleep, next)
}

/// Whether a failed probe attempt is followed by a pause and another attempt.
pub fn probe_retry_after(attempt: u32) -> (r: bool)
    ensures
        r == (attempt + 1 < PROBE_RETRIES),
{
    attempt < PROBE_RETRIES - 1
}

/// However many failures come in a row, the backoff stays between the base and the cap.
pub proof fn lemma_backoff_bounded(cur: u64, n: nat)
    requires
        CONTROLLER_BACKOFF_BASE_MS <= cur <= CONTROLLER_BACKOFF_MAX_MS,
    ensures
        CONTROLLER_BACKOFF_BASE_MS <= iterate_backoff(cur, n) <= CONTROLLER_BACKOFF_MAX_MS,
        n >= 6 ==> iterate_backoff(cur, n) == CONTROLLER_BACKOFF_MAX_MS,
    decreases n,
{
    if n > 0 {
        lemma_backoff_bounded(doubled(cur, CONTROLLER_BACKOFF_MAX_MS), (n - 1) as nat);
        if n >= 6 {
            lemma_backoff_grows(cur, n);
        }
    }
}

/// The backoff after `n` failures in a row, starting from `cur`.
pub open spec fn iterate_backoff(cur: u64, n: nat) -> u64
    decreases n,
{
    if n == 0 {
        cur
    } else {
        iterate_backoff(doubled(cur, CONTROLLER_BACKOFF_MAX_MS), (n - 1) as nat)
    }
}

proof fn lemma_backoff_grows(cur: u64, n: nat)
    requires
        CONTROLLER_BACKOFF_BASE_MS <= cur <= CONTROLLER_BACKOFF_MAX_MS,
        n >= 6,
    ensures
        iterate_backoff(cur, n) == CONTROLLER_BACKOFF_MAX_MS,
    decreases n,
{
    let c1 = doubled(cur, CONTROLLER_BACKOFF_MAX_MS);
    let c2 = doubled(c1, CONTROLLER_BACKOFF_MAX_MS);
    let c3 = doubled(c2, CONTROLLER_BACKOFF_MAX_MS);
    let c4 = doubled(c3, CONTROLLER_BACKOFF_MAX_MS);
    let c5 = doubled(c4, CONTROLLER_BACKOFF_MAX_MS);
    let c6 = doubled(c5, CONTROLLER_BACKOFF_MAX_MS);
    assert(c6 == CONTROLLER_BACKOFF_MAX_MS);
    lemma_backoff_at_max((n - 6) as nat);
    assert(iterate_backoff(cur, n) == iterate_backoff(c6, (n - 6) as nat)) by {
        lemma_iterate_split(cur, 6, (n - 6) as nat);
        reveal_with_fuel(iterate_backoff, 7);
    }
}

proof fn lemma_backoff_at_max(n: nat)
    ensures
        iterate_backoff(CONTROLLER_BACKOFF_MAX_MS, n) == CONTROLLER_BACKOFF_MAX_MS,
    decreases n,
{
    if n > 0 {
        lemma_backoff_at_max((n - 1) as nat);
    }
}

proof fn lemma_iterate_split(cur: u64, a: nat, b: nat)
    ensures
        iterate_backoff(cur, a + b) == iterate_backoff(iterate_backoff(cur, a), b),
    decreases a,
{
    if a > 0 {
        lemma_iterate_split(doubled(cur, CONTROLLER_BACKOFF_MAX_MS), (a - 1) as nat, b);
        assert((a + b) - 1 == (a - 1) + b);
    }
}


// ---------------------------------------------------------------- startup

/// How the agent gets its identity at startup.
pub enum StartupIdentity {
    /// Enrolled before: reuse the saved identity (heartbeat every 20 s until
    /// the controller says otherwise). `url_changed` warns that the saved
    /// controller differs from the configured one.
    Saved { agent_id: String, agent_token: String, heartbeat_secs: u64, url_changed: bool },
    /// First run: enroll with this one-time token.
    Enroll { enrollment_token: String },
}

/// Chooses between the saved identity and enrolling; a first run without an
/// enrollment token cannot proceed.
pub fn startup_identity(
    saved: Option<PersistedAgentState>,
    controller_url: &str,
    enrollment_token: Option<String>,
) -> (r: Result<StartupIdentity, crate::error::Error>)
    ensures
        match saved {
            Some(p) => r matches Ok(StartupIdentity::Saved { agent_id, agent_token, heartbeat_secs, url_changed }) && agent_id
                == p.agent_id && agent_token == p.agent_token && heartbeat_secs == 20 && url_changed == (p.controller_url@
                != controller_url@),
            None => match enrollment_token {
                Some(t) => r matches Ok(StartupIdentity::Enroll { enrollment_token }) && enrollment_token == t,
                None => r matches Err(crate::error::Error::Other(m)) && m@
                    == "TAILSVC_ENROLLMENT_TOKEN required for first run"@,
            },
        },
{
    match saved {
        Some(p) => {
            let a = to_chars(p.controller_url.as_str());
            let b = to_chars(controller_url);
            let changed = !crate::text::chars_eq(&a, &b);
            Ok(StartupIdentity::Saved { agent_id: p.agent_id, agent_token: p.agent_token, heartbeat_secs: 20, url_changed: changed })
        },
        None => match enrollment_token {
            Some(t) => Ok(StartupIdentity::Enroll { enrollment_token: t }),
            None => Err(crate::error::Error::Other("TAILSVC_ENROLLMENT_TOKEN required for first run".to_string())),
        },
    }
}

/// The display name sent at enrollment: the host name, or `docker-host`.
pub fn display_name_or_default(host: Option<String>) -> (r: String)
    ensures
        match host {
            Some(h) => r == h,
            None => r@ == "docker-host"@,
        },
{
    match host {
        Some(h) => h,
        None => "docker-host".to_string(),
    }
}

/// The Docker engine id sent at enrollment, or `unknown`.
pub fn engine_id_or_default(id: Option<String>) -> (r: String)
    ensures
        match id {
            Some(h) => r == h,
            None => r@ == "unknown"@,
        },
{
    match id {
        Some(h) => h,
        None => "unknown".to_string(),
    }
}

/// The proxy's bind address when no override is configured: `{ip}:{port}`.
pub fn proxy_listen_text(ip: crate::net::Ipv4, port: u16) -> (r: String)
    ensures
        r@ == crate::net::ipv4_text(ip) + ":"@ + decimal_seq(port as nat),
{
    let a = crate::net::format_ipv4(ip);
    let mut v = to_chars(a.as_str());
    push_str(&mut v, ":");
    let d = decimal_chars(port as u64);
    push_chars(&mut v, &d);
    from_chars(&v)
}

// ---------------------------------------------------------------- main loop

/// What happens to the agent's main loop.
pub enum LoopEvent {
    /// A Docker event arrived at `now_ms`; `relevant` if it calls for a rescan.
    DockerEvent { relevant: bool, now_ms: u64 },
    /// The Docker event stream ended or failed.
    StreamEnded,
    /// The debounce deadline passed.
    DebounceFired,
    /// The periodic full reconcile is due.
    PeriodicTick,
    /// The heartbeat is due.
    HeartbeatTick,
    /// A heartbeat finished.
    HeartbeatDone { ok: bool },
    /// A reconcile finished.
    ReconcileDone { ok: bool },
}

/// What the loop does next.
pub enum LoopAction {
    Nothing,
    /// Wait until this deadline, then deliver `DebounceFired`.
    ScheduleDebounce { deadline_ms: u64 },
    /// Reconcile with Docker and the controller.
    Reconcile,
    /// Send a heartbeat.
    Heartbeat,
    /// Reconcile, sleep this long, then reconnect to the event stream.
    ReconcileThenReconnect { delay_ms: u64 },
    /// Sleep this long, then refresh the local proxy routes only.
    SleepThenRefreshLocal { delay_ms: u64 },
}

/// The loop's state.
pub struct AgentLoop {
    pub debounce_deadline_ms: Option<u64>,
    pub saw_event: bool,
    pub reconnect_delay_ms: u64,
    pub controller_backoff_ms: u64,
}

pub open spec fn loop_ok(l: AgentLoop) -> bool {
    &&& CONTROLLER_BACKOFF_BASE_MS <= l.controller_backoff_ms <= CONTROLLER_BACKOFF_MAX_MS
    &&& EVENT_RECONNECT_BASE_MS <= l.reconnect_delay_ms <= EVENT_RECONNECT_MAX_MS
}

/// The loop's next state and action for an event.
pub open spec fn next_loop(l: AgentLoop, ev: LoopEvent) -> (AgentLoop, LoopAction) {
    match ev {
        LoopEvent::DockerEvent { relevant, now_ms } => if relevant {
            let d = (now_ms + RECONCILE_DEBOUNCE_MS) as u64;
            (AgentLoop { debounce_deadline_ms: Some(d), saw_event: true, ..l }, LoopAction::ScheduleDebounce {
                deadline_ms: d,
            })
        } else {
            (AgentLoop { saw_event: true, ..l }, LoopAction::Nothing)
        },
        LoopEvent::StreamEnded => {
            let d = if l.saw_event {
                EVENT_RECONNECT_BASE_MS
            } else {
                l.reconnect_delay_ms
            };
            (
                AgentLoop {
                    debounce_deadline_ms: None,
                    saw_event: false,
                    reconnect_delay_ms: doubled(d, EVENT_RECONNECT_MAX_MS),
                    ..l
                },
                LoopAction::ReconcileThenReconnect { delay_ms: d },
            )
        },
        LoopEvent::DebounceFired => (AgentLoop { debounce_deadline_ms: None, ..l }, LoopAction::Reconcile),
        LoopEvent::PeriodicTick => (l, LoopAction::Reconcile),
        LoopEvent::HeartbeatTick => (l, LoopAction::Heartbeat),
        LoopEvent::HeartbeatDone { ok } => (
            AgentLoop {
                controller_backoff_ms: if ok {
                    CONTROLLER_BACKOFF_BASE_MS
                } else {
                    doubled(l.controller_backoff_ms, CONTROLLER_BACKOFF_MAX_MS)
                },
                ..l
            },
            LoopAction::Nothing,
        ),
        LoopEvent::ReconcileDone { ok } => if ok {
            (AgentLoop { controller_backoff_ms: CONTROLLER_BACKOFF_BASE_MS, ..l }, LoopAction::Nothing)
        } else {
            (
                AgentLoop { controller_backoff_ms: doubled(l.controller_backoff_ms, CONTROLLER_BACKOFF_MAX_MS), ..l },
                LoopAction::SleepThenRefreshLocal { delay_ms: l.controller_backoff_ms },
            )
        },
    }
}

impl AgentLoop {
    /// A fresh loop: nothing pending, delays at their base.
    pub fn new() -> (r: AgentLoop)
        ensures
            loop_ok(r),
            r.debounce_deadline_ms is None,
            !r.saw_event,
            r.reconnect_delay_ms == EVENT_RECONNECT_BASE_MS,
            r.controller_backoff_ms == CONTROLLER_BACKOFF_BASE_MS,
    {
        AgentLoop {
            debounce_deadline_ms: None,
            saw_event: false,
            reconnect_delay_ms: EVENT_RECONNECT_BASE_MS,
            controller_backoff_ms: CONTROLLER_BACKOFF_BASE_MS,
        }
    }

    /// The decision for one event. Relevant Docker events are debounced;
    /// a lost event stream triggers a rescan and a reconnect with a delay that
    /// doubles up to its cap (back to the base once events flowed); controller
    /// failures back off, successes reset the backoff.
    pub fn step(&mut self, ev: LoopEvent) -> (r: LoopAction)
        requires
            loop_ok(*old(self)),
            ev matches LoopEvent::DockerEvent { now_ms, .. } ==> now_ms + RECONCILE_DEBOUNCE_MS <= u64::MAX,
        ensures
            loop_ok(*final(self)),
            (*final(self), r) == next_loop(*old(self), ev),
    {
        match ev {
            LoopEvent::DockerEvent { relevant, now_ms } => {
                self.saw_event = true;
                if relevant {
                    let deadline = now_ms + RECONCILE_DEBOUNCE_MS;
                    self.debounce_deadline_ms = Some(deadline);
                    LoopAction::ScheduleDebounce { deadline_ms: deadline }
                } else {
                    LoopAction::Nothing
                }
            },
            LoopEvent::StreamEnded => {
                let (sleep, next) = event_reconnect_delays(self.reconnect_delay_ms, self.saw_event);
                self.reconnect_delay_ms = next;
                self.saw_event = false;
                self.debounce_deadline_ms = None;
                LoopAction::ReconcileThenReconnect { delay_ms: sleep }
            },
            LoopEvent::DebounceFired => {
                self.debounce_deadline_ms = None;
                LoopAction::Reconcile
            },
            LoopEvent::PeriodicTick => LoopAction::Reconcile,
            LoopEvent::HeartbeatTick => LoopAction::Heartbeat,
            LoopEvent::HeartbeatDone { ok } => {
                if ok {
                    self.controller_backoff_ms = CONTROLLER_BACKOFF_BASE_MS;
                } else {
                    self.controller_backoff_ms = bump_controller_backoff(self.controller_backoff_ms);
                }
                LoopAction::Nothing
            },
            LoopEvent::ReconcileDone { ok } => {
                if ok {
                    self.controller_backoff_ms = CONTROLLER_BACKOFF_BASE_MS;
                    LoopAction::Nothing
                } else {
                    let d = self.controller_backoff_ms;
                    self.controller_backoff_ms = bump_controller_backoff(d);
                    LoopAction::SleepThenRefreshLocal { delay_ms: d }
                }
            },
        }
    }
}
} // verus!
