//! The agent's host-routed HTTP proxy: the route table it serves from and the
//! decisions it takes per request.

use vstd::prelude::*;
use crate::backend::Backend;
use crate::text::{
    chars_eq, chars_eq_ignore_case, contains_pat, contains_seq, eq_ignore_case, from_chars, lower_chars,
    lower_seq, push_chars, push_str, split_chars, split_seq, to_chars,
};

verus! {

/// Where a hostname is proxied to.
#[derive(Clone, Debug)]
pub struct BackendRoute {
    pub backend: Backend,
    pub container_id: Option<String>,
    pub container_name: Option<String>,
}

pub open spec fn opt_v(o: Option<String>) -> Option<Seq<char>> {
    match o {
        Some(s) => Some(s@),
        None => None,
    }
}

pub struct BackendRouteV {
    pub host: Seq<char>,
    pub port: u16,
    pub container_id: Option<Seq<char>>,
    pub container_name: Option<Seq<char>>,
}

impl View for BackendRoute {
    type V = BackendRouteV;

    open spec fn view(&self) -> BackendRouteV {
        BackendRouteV {
            host: self.backend.host@,
            port: self.backend.port,
            container_id: opt_v(self.container_id),
            container_name: opt_v(self.container_name),
        }
    }
}

fn copy_opt(o: &Option<String>) -> (r: Option<String>)
    ensures
        opt_v(r) == opt_v(*o),
{
    match o {
        Some(s) => Some(s.clone()),
        None => None,
    }
}

impl BackendRoute {
    /// A copy of this route.
    pub fn duplicate(&self) -> (r: BackendRoute)
        ensures
            r@ == self@,
    {
        BackendRoute {
            backend: self.backend.duplicate(),
            container_id: copy_opt(&self.container_id),
            container_name: copy_opt(&self.container_name),
        }
    }
}

/// Hostname → route, one route per hostname.
pub struct RouteTable {
    entries: Vec<(String, BackendRoute)>,
}

impl RouteTable {
    pub closed spec fn keys_unique(&self) -> bool {
        forall|i: int, j: int|
            0 <= i < j < self.entries@.len() ==> self.entries@[i].0@ != self.entries@[j].0@
    }

    pub closed spec fn has_key(&self, k: Seq<char>) -> bool {
        exists|i: int| 0 <= i < self.entries@.len() && (#[trigger] self.entries@[i]).0@ == k
    }

    pub closed spec fn key_index(&self, k: Seq<char>) -> int {
        choose|i: int| 0 <= i < self.entries@.len() && (#[trigger] self.entries@[i]).0@ == k
    }

    /// The table as a map.
    pub closed spec fn map(&self) -> Map<Seq<char>, BackendRouteV> {
        Map::new(|k: Seq<char>| self.has_key(k), |k: Seq<char>| self.entries@[self.key_index(k)].1@)
    }

    pub closed spec fn wf(&self) -> bool {
        self.keys_unique()
    }

    proof fn lemma_at(&self, i: int)
        requires
            self.wf(),
            0 <= i < self.entries@.len(),
        ensures
            self.map().contains_key(self.entries@[i].0@),
            self.map()[self.entries@[i].0@] == self.entries@[i].1@,
    {
        let k = self.entries@[i].0@;
        assert(self.has_key(k));
        let j = self.key_index(k);
        if j != i {
            if j < i {
                assert(self.entries@[j].0@ != self.entries@[i].0@);
            } else {
                assert(self.entries@[i].0@ != self.entries@[j].0@);
            }
        }
    }

    /// An empty table.
    pub fn new() -> (r: RouteTable)
        ensures
            r.wf(),
            r.map() == Map::<Seq<char>, BackendRouteV>::empty(),
    {
        let r = RouteTable { entries: Vec::new() };
        assert(r.map() =~= Map::<Seq<char>, BackendRouteV>::empty());
        r
    }

    fn index_of(&self, key: &[char]) -> (r: Option<usize>)
        requires
            self.wf(),
        ensures
            match r {
                Some(i) => i < self.entries@.len() && self.entries@[i as int].0@ == key@,
                None => !self.map().contains_key(key@),
            },
    {
        let mut i: usize = 0;
        while i < self.entries.len()
            invariant
                i <= self.entries.len(),
                forall|j: int| 0 <= j < i ==> (#[trigger] self.entries@[j]).0@ != key@,
            decreases self.entries.len() - i,
        {
            let k = to_chars(self.entries[i].0.as_str());
            if chars_eq(&k, key) {
                return Some(i);
            }
            i = i + 1;
        }
        None
    }

    /// The route of `key`.
    pub fn get(&self, key: &str) -> (r: Option<&BackendRoute>)
        requires
            self.wf(),
        ensures
            match r {
                Some(x) => self.map().contains_key(key@) && x@ == self.map()[key@],
                None => !self.map().contains_key(key@),
            },
    {
        let k = to_chars(key);
        match self.index_of(&k) {
            Some(i) => {
                proof {
                    self.lemma_at(i as int);
                }
                Some(&self.entries[i].1)
            },
            None => None,
        }
    }

    pub fn contains_key(&self, key: &str) -> (r: bool)
        requires
            self.wf(),
        ensures
            r == self.map().contains_key(key@),
    {
        self.get(key).is_some()
    }

    /// Sets the route of `key`, replacing any route it had.
    pub fn insert(&mut self, key: String, route: BackendRoute)
        requires
            old(self).wf(),
        ensures
            final(self).wf(),
            final(self).map() == old(self).map().insert(key@, route@),
    {
        let k = to_chars(key.as_str());
        let ghost kv = key@;
        let ghost rv = route@;
        let ghost before = *self;
        match self.index_of(&k) {
            Some(i) => {
                self.entries.set(i, (key, route));
                proof {
                    assert forall|a: int, b: int|
                        0 <= a < b < self.entries@.len() implies self.entries@[a].0@ != self.entries@[b].0@ by {
                        assert(self.entries@[a].0@ == before.entries@[a].0@);
                        assert(self.entries@[b].0@ == before.entries@[b].0@);
                    }
                    assert forall|x: Seq<char>| #[trigger] self.has_key(x) == before.has_key(x) by {
                        if self.has_key(x) {
                            let j = choose|j: int| 0 <= j < self.entries@.len() && (#[trigger] self.entries@[j]).0@ == x;
                            assert(before.entries@[j].0@ == x);
                        }
                        if before.has_key(x) {
                            let j = choose|j: int| 0 <= j < before.entries@.len() && (#[trigger] before.entries@[j]).0@ == x;
                            assert(self.entries@[j].0@ == x);
                        }
                    }
                    assert forall|x: Seq<char>| self.has_key(x) implies #[trigger] self.map()[x] == old(self).map().insert(kv, rv)[x] by {
                        let j = choose|j: int| 0 <= j < self.entries@.len() && (#[trigger] self.entries@[j]).0@ == x;
                        self.lemma_at(j);
                        if j != i {
                            before.lemma_at(j);
                        }
                    }
                    assert(self.map() =~= old(self).map().insert(kv, rv));
                }
            },
            None => {
                self.entries.push((key, route));
                proof {
                    let n = before.entries@.len();
                    assert forall|a: int, b: int|
                        0 <= a < b < self.entries@.len() implies self.entries@[a].0@ != self.entries@[b].0@ by {
                        assert(self.entries@[a] == before.entries@[a]);
                        if b < n {
                            assert(self.entries@[b] == before.entries@[b]);
                        } else if before.entries@[a].0@ == kv {
                            before.lemma_at(a);
                        }
                    }
                    assert(self.entries@[n as int].0@ == kv);
                    assert forall|x: Seq<char>| #[trigger] self.has_key(x) == (before.has_key(x) || x == kv) by {
                        if self.has_key(x) {
                            let j = choose|j: int| 0 <= j < self.entries@.len() && (#[trigger] self.entries@[j]).0@ == x;
                            if j < n {
                                assert(before.entries@[j].0@ == x);
                            }
                        }
                        if before.has_key(x) {
                            let j = choose|j: int| 0 <= j < before.entries@.len() && (#[trigger] before.entries@[j]).0@ == x;
                            assert(self.entries@[j].0@ == x);
                        }
                    }
                    assert forall|x: Seq<char>| self.has_key(x) implies #[trigger] self.map()[x] == old(self).map().insert(kv, rv)[x] by {
                        let j = choose|j: int| 0 <= j < self.entries@.len() && (#[trigger] self.entries@[j]).0@ == x;
                        self.lemma_at(j);
                        if j < n {
                            assert(self.entries@[j] == before.entries@[j]);
                            before.lemma_at(j);
                        }
                    }
                    assert(self.map() =~= old(self).map().insert(kv, rv));
                }
            },
        }
    }

    /// Number of hostnames.
    pub fn len(&self) -> (r: usize)
        requires
            self.wf(),
        ensures
            r == self.map().len(),
    {
        proof {
            self.lemma_len();
        }
        self.entries.len()
    }

    proof fn lemma_len(&self)
        requires
            self.wf(),
        ensures
            self.map().len() == self.entries@.len(),
            self.map().dom().finite(),
    {
        let keys = self.entries@.map_values(|e: (String, BackendRoute)| e.0@);
        assert forall|i: int, j: int| 0 <= i < j < keys.len() implies keys[i] != keys[j] by {}
        assert(keys.no_duplicates());
        keys.unique_seq_to_set();
        assert forall|x: Seq<char>| #[trigger] self.map().dom().contains(x) == keys.to_set().contains(x) by {
            if self.map().dom().contains(x) {
                let j = choose|j: int| 0 <= j < self.entries@.len() && (#[trigger] self.entries@[j]).0@ == x;
                assert(keys[j] == x);
            }
            if keys.to_set().contains(x) {
                let j = choose|j: int| 0 <= j < keys.len() && keys[j] == x;
                assert(self.entries@[j].0@ == x);
            }
        }
        assert(self.map().dom() =~= keys.to_set());
    }
}

/// The lookup key for a `Host` header: the part before the first `:`, in lower case.
pub open spec fn route_key_spec(host: Seq<char>) -> Seq<char> {
    lower_seq(split_seq(host, ':')[0])
}

pub fn route_key(host: &str) -> (r: String)
    ensures
        r@ == route_key_spec(host@),
{
    let cs = to_chars(host);
    let parts = split_chars(&cs, ':');
    proof {
        crate::text::lemma_split_nonempty(host@, ':');
    }
    assert(parts@.map_values(|p: Vec<char>| p@)[0] == parts@[0]@);
    let k = lower_chars(parts[0].as_slice());
    from_chars(&k)
}

/// Resolves `Host` header values to routes.
pub trait RouteStore {
    fn resolve(&self, host: &str) -> Option<BackendRoute>;
}

/// The route table the proxy serves from; replaced as a whole on each reconcile.
pub struct SharedRouteStore {
    table: RouteTable,
}

impl SharedRouteStore {
    pub closed spec fn routes(&self) -> Map<Seq<char>, BackendRouteV> {
        self.table.map()
    }

    #[verifier::type_invariant]
    closed spec fn inv(&self) -> bool {
        self.table.wf()
    }

    /// A store with no routes.
    pub fn new() -> (r: SharedRouteStore)
        ensures
            r.routes() == Map::<Seq<char>, BackendRouteV>::empty(),
    {
        SharedRouteStore { table: RouteTable::new() }
    }

    /// Serves `routes` from now on.
    pub fn replace(&mut self, routes: RouteTable)
        requires
            routes.wf(),
        ensures
            final(self).routes() == routes.map(),
    {
        self.table = routes;
    }
}

impl RouteStore for SharedRouteStore {
    /// The route for a `Host` header value (port dropped, case ignored).
    fn resolve(&self, host: &str) -> (r: Option<BackendRoute>)
        ensures
            match r {
                Some(x) => self.routes().contains_key(route_key_spec(host@)) && x@ == self.routes()[route_key_spec(
                    host@,
                )],
                None => !self.routes().contains_key(route_key_spec(host@)),
            },
    {
        proof {
            use_type_invariant(self);
        }
        let key = route_key(host);
        match self.table.get(key.as_str()) {
            Some(x) => Some(x.duplicate()),
            None => None,
        }
    }
}

// ---------------------------------------------------------------- per request

/// What the proxy does with a request.
pub enum ProxyAction {
    /// Answer directly with this status and plain-text body.
    Reply(u16, String),
    /// Tunnel a WebSocket upgrade to this route.
    WebSocket(BackendRoute),
    /// Forward the HTTP request to this route.
    Http(BackendRoute),
}

/// A WebSocket upgrade: `Upgrade: websocket` (any case) and a `Connection`
/// header that mentions `upgrade` (any case).
pub open spec fn websocket_upgrade_spec(upgrade: Option<Seq<char>>, connection: Option<Seq<char>>) -> bool {
    (upgrade matches Some(u) && eq_ignore_case(u, "websocket"@)) && (connection matches Some(c)
        && contains_seq(lower_seq(c), "upgrade"@))
}

pub fn is_websocket_upgrade(upgrade: Option<&str>, connection: Option<&str>) -> (r: bool)
    ensures
        r == websocket_upgrade_spec(
            match upgrade {
                Some(u) => Some(u@),
                None => None,
            },
            match connection {
                Some(c) => Some(c@),
                None => None,
            },
        ),
{
    let up = match upgrade {
        Some(u) => {
            let a = to_chars(u);
            let b = to_chars("websocket");
            chars_eq_ignore_case(&a, &b)
        },
        None => false,
    };
    let conn = match connection {
        Some(c) => {
            let a = to_chars(c);
            let l = lower_chars(&a);
            let p = to_chars("upgrade");
            contains_pat(&l, &p)
        },
        None => false,
    };
    up && conn
}

/// The decision for one request: 503 while shutting down, 404 for an unknown
/// host, otherwise a WebSocket tunnel or an HTTP forward to the host's route.
pub fn plan_request(
    shutting_down: bool,
    routes: &SharedRouteStore,
    host_header: &str,
    upgrade: Option<&str>,
    connection: Option<&str>,
) -> (r: ProxyAction)
    ensures
        shutting_down ==> (r matches ProxyAction::Reply(s, b) && s == 503 && b@ == "agent shutting down"@),
        !shutting_down && !routes.routes().contains_key(route_key_spec(host_header@)) ==> (r matches ProxyAction::Reply(
            s,
            b,
        ) && s == 404 && b@ == "unknown tailsvc host"@),
        !shutting_down && routes.routes().contains_key(route_key_spec(host_header@)) ==> match r {
            ProxyAction::WebSocket(x) => x@ == routes.routes()[route_key_spec(host_header@)]
                && websocket_upgrade_spec(
                match upgrade {
                    Some(u) => Some(u@),
                    None => None,
                },
                match connection {
                    Some(c) => Some(c@),
                    None => None,
                },
            ),
            ProxyAction::Http(x) => x@ == routes.routes()[route_key_spec(host_header@)]
                && !websocket_upgrade_spec(
                match upgrade {
                    Some(u) => Some(u@),
                    None => None,
                },
                match connection {
                    Some(c) => Some(c@),
                    None => None,
                },
            ),
            ProxyAction::Reply(..) => false,
        },
{
    if shutting_down {
        return ProxyAction::Reply(503, "agent shutting down".to_string());
    }
    match routes.resolve(host_header) {
        None => ProxyAction::Reply(404, "unknown tailsvc host".to_string()),
        Some(route) => {
            if is_websocket_upgrade(upgrade, connection) {
                ProxyAction::WebSocket(route)
            } else {
                ProxyAction::Http(route)
            }
        },
    }
}

/// `X-Forwarded-For` after this hop: the existing list (if non-empty) with the
/// peer appended, else the peer alone.
pub open spec fn forwarded_for_spec(existing: Option<Seq<char>>, peer_ip: Seq<char>) -> Seq<char> {
    match existing {
        Some(e) => if e.len() > 0 {
            e + ", "@ + peer_ip
        } else {
            peer_ip
        },
        None => peer_ip,
    }
}

pub fn forwarded_for(existing: Option<&str>, peer_ip: &str) -> (r: String)
    ensures
        r@ == forwarded_for_spec(
            match existing {
                Some(e) => Some(e@),
                None => None,
            },
            peer_ip@,
        ),
{
    let mut out: Vec<char> = Vec::new();
    match existing {
        Some(e) => {
            let ec = to_chars(e);
            if ec.len() > 0 {
                push_chars(&mut out, &ec);
                push_str(&mut out, ", ");
            }
        },
        None => {},
    }
    push_str(&mut out, peer_ip);
    from_chars(&out)
}

/// Headers set on a forwarded request, in order: `host` and `x-forwarded-host`
/// (when the client sent a host), `x-forwarded-proto: http`, `x-forwarded-for`.
pub open spec fn forwarded_headers_spec(
    original_host: Option<Seq<char>>,
    existing_xff: Option<Seq<char>>,
    peer_ip: Seq<char>,
) -> Seq<(Seq<char>, Seq<char>)> {
    let proto = seq![("x-forwarded-proto"@, "http"@)];
    let xff = seq![("x-forwarded-for"@, forwarded_for_spec(existing_xff, peer_ip))];
    match original_host {
        Some(h) => seq![("host"@, h)] + proto + seq![("x-forwarded-host"@, h)] + xff,
        None => proto + xff,
    }
}

pub open spec fn pairs_v(v: Seq<(String, String)>) -> Seq<(Seq<char>, Seq<char>)> {
    v.map_values(|p: (String, String)| (p.0@, p.1@))
}

pub fn forwarded_headers(original_host: Option<&str>, existing_xff: Option<&str>, peer_ip: &str) -> (r: Vec<
    (String, String),
>)
    ensures
        pairs_v(r@) == forwarded_headers_spec(
            match original_host {
                Some(h) => Some(h@),
                None => None,
            },
            match existing_xff {
                Some(e) => Some(e@),
                None => None,
            },
            peer_ip@,
        ),
{
    let mut out: Vec<(String, String)> = Vec::new();
    match original_host {
        Some(h) => {
            out.push(("host".to_string(), h.to_string()));
        },
        None => {},
    }
    out.push(("x-forwarded-proto".to_string(), "http".to_string()));
    match original_host {
        Some(h) => {
            out.push(("x-forwarded-host".to_string(), h.to_string()));
        },
        None => {},
    }
    let xff = forwarded_for(existing_xff, peer_ip);
    out.push(("x-forwarded-for".to_string(), xff));
    proof {
        let hv = match original_host {
            Some(h) => Some(h@),
            None => None::<Seq<char>>,
        };
        assert(pairs_v(out@) =~= forwarded_headers_spec(
            hv,
            match existing_xff {
                Some(e) => Some(e@),
                None => None,
            },
            peer_ip@,
        ));
    }
    out
}

/// The upstream URI: `http://{authority}{path_and_query}`.
pub fn target_uri(authority: &str, path_and_query: &str) -> (r: String)
    ensures
        r@ == "http://"@ + authority@ + path_and_query@,
{
    let mut out: Vec<char> = Vec::new();
    push_str(&mut out, "http://");
    push_str(&mut out, authority);
    push_str(&mut out, path_and_query);
    from_chars(&out)
}

/// The reply for a failed upstream request: a timeout (the error text mentions
/// `timeout` or `timed out`, any case) is 504, anything else 502.
pub fn backend_error_reply(error_text: &str) -> (r: (u16, String))
    ensures
        (contains_seq(lower_seq(error_text@), "timeout"@) || contains_seq(lower_seq(error_text@), "timed out"@))
            ==> r.0 == 504 && r.1@ == "backend timeout"@,
        !(contains_seq(lower_seq(error_text@), "timeout"@) || contains_seq(lower_seq(error_text@), "timed out"@))
            ==> r.0 == 502 && r.1@ == "backend unavailable"@,
{
    let t = to_chars(error_text);
    let l = lower_chars(&t);
    let a = to_chars("timeout");
    let b = to_chars("timed out");
    if contains_pat(&l, &a) || contains_pat(&l, &b) {
        (504, "backend timeout".to_string())
    } else {
        (502, "backend unavailable".to_string())
    }
}

/// Upstream response headers are copied except `transfer-encoding`.
pub fn keep_response_header(name: &str) -> (r: bool)
    ensures
        r == (name@ != "transfer-encoding"@),
{
    let a = to_chars(name);
    let b = to_chars("transfer-encoding");
    !chars_eq(&a, &b)
}


/// Ways a WebSocket tunnel can fail to open.
pub enum TunnelFailure {
    /// The backend address did not resolve.
    Resolve,
    /// Connecting to the backend failed.
    Connect,
    /// Connecting to the backend took too long.
    ConnectTimeout,
    /// The HTTP handshake with the backend failed.
    Handshake,
    /// Sending the upgrade request failed.
    Request,
    /// The backend answered without switching protocols.
    Refused,
    /// The upgrade request could not be built.
    BadRequest,
}

/// The reply for a tunnel that could not be opened.
pub fn tunnel_failure_reply(f: &TunnelFailure) -> (r: (u16, String))
    ensures
        match f {
            TunnelFailure::ConnectTimeout => r.0 == 504 && r.1@ == "backend timeout"@,
            TunnelFailure::BadRequest => r.0 == 400 && r.1@ == "bad request"@,
            _ => r.0 == 502 && r.1@ == "backend unavailable"@,
        },
{
    match f {
        TunnelFailure::ConnectTimeout => (504, "backend timeout".to_string()),
        TunnelFailure::BadRequest => (400, "bad request".to_string()),
        _ => (502, "backend unavailable".to_string()),
    }
}

/// A tunnel opens only when the backend switches protocols (101).
pub fn upgrade_accepted(status: u16) -> (r: bool)
    ensures
        r == (status == 101),
{
    status == 101
}
} // verus!
