//! Discovered Docker services and backend resolution.

use vstd::prelude::*;
use crate::api::DiscoveredContainerDto;
use crate::backend::Backend;
use crate::error::Error;
use crate::backend::base_url_spec;
use crate::labels::{labels_from_map, labels_spec, pairs_view, validate_service_labels, ServiceLabels};
use crate::text::{
    chars_eq, contains_pat, contains_seq, from_chars, lower_chars, lower_seq, parse_u32,
    parse_u32_spec, push_str, split_chars, split_seq, to_chars, lemma_split_nonempty, starts_with,
    has_prefix,
};

verus! {

/// One published host binding of a container port.
#[derive(Clone, Debug)]
pub struct PublishedPort {
    pub container_port: u16,
    pub host_ip: String,
    pub host_port: u16,
}

/// A running container with valid `tailsvc` labels.
#[derive(Clone, Debug)]
pub struct DiscoveredService {
    pub container_id: String,
    pub container_name: String,
    pub labels: ServiceLabels,
    pub network_mode: Option<String>,
    pub published_ports: Vec<PublishedPort>,
    /// Network name and the container's IPv4 on it.
    pub networks: Vec<(String, String)>,
    pub exposed_ports: Vec<u16>,
}

impl View for PublishedPort {
    type V = (u16, Seq<char>, u16);

    open spec fn view(&self) -> (u16, Seq<char>, u16) {
        (self.container_port, self.host_ip@, self.host_port)
    }
}

impl PublishedPort {
    pub fn duplicate(&self) -> (r: PublishedPort)
        ensures
            r@ == self@,
    {
        PublishedPort {
            container_port: self.container_port,
            host_ip: self.host_ip.clone(),
            host_port: self.host_port,
        }
    }
}

pub open spec fn ports_view(s: Seq<PublishedPort>) -> Seq<(u16, Seq<char>, u16)> {
    s.map_values(|p: PublishedPort| p@)
}

pub open spec fn nets_view(s: Seq<(String, String)>) -> Seq<(Seq<char>, Seq<char>)> {
    s.map_values(|p: (String, String)| (p.0@, p.1@))
}

/// Bindings for container port `cp`, in order.
pub open spec fn filter_cp(s: Seq<(u16, Seq<char>, u16)>, cp: u16) -> Seq<(u16, Seq<char>, u16)>
    decreases s.len(),
{
    if s.len() == 0 {
        Seq::empty()
    } else if s.last().0 == cp {
        filter_cp(s.drop_last(), cp).push(s.last())
    } else {
        filter_cp(s.drop_last(), cp)
    }
}

/// A host address the agent can reach locally.
pub open spec fn is_local_ip(ip: Seq<char>) -> bool {
    ip == "127.0.0.1"@ || ip == "0.0.0.0"@ || ip.len() == 0
}

/// Bindings on a local address, in order.
pub open spec fn filter_local(s: Seq<(u16, Seq<char>, u16)>) -> Seq<(u16, Seq<char>, u16)>
    decreases s.len(),
{
    if s.len() == 0 {
        Seq::empty()
    } else if is_local_ip(s.last().1) {
        filter_local(s.drop_last()).push(s.last())
    } else {
        filter_local(s.drop_last())
    }
}

/// The binding chosen for container port `cp`: `Ok(None)` when there is none,
/// `Err` when several remain and not exactly one of them is local.
pub open spec fn select_published_spec(s: Seq<(u16, Seq<char>, u16)>, cp: u16) -> Result<
    Option<(u16, Seq<char>, u16)>,
    (),
> {
    let m = filter_cp(s, cp);
    if m.len() == 0 {
        Ok(None)
    } else if m.len() == 1 {
        Ok(Some(m[0]))
    } else if filter_local(m).len() == 1 {
        Ok(Some(filter_local(m)[0]))
    } else {
        Err(())
    }
}

/// The only exposed port, if there is exactly one.
pub open spec fn single_exposed_spec(e: Seq<u16>) -> Option<u16> {
    if e.len() == 1 {
        Some(e[0])
    } else {
        None
    }
}

/// The only container port among the published bindings, if there is exactly one.
pub open spec fn single_published_cp_spec(s: Seq<(u16, Seq<char>, u16)>) -> Option<u16> {
    if s.len() > 0 && (forall|i: int| 0 <= i < s.len() ==> (#[trigger] s[i]).0 == s[0].0) {
        Some(s[0].0)
    } else {
        None
    }
}

/// IP of the first network named `name`.
pub open spec fn net_lookup(nets: Seq<(Seq<char>, Seq<char>)>, name: Seq<char>) -> Option<Seq<char>>
    decreases nets.len(),
{
    if nets.len() == 0 {
        None
    } else if nets[0].0 == name {
        Some(nets[0].1)
    } else {
        net_lookup(nets.drop_first(), name)
    }
}

/// The container IP used for bridge / user-defined networks.
pub open spec fn select_ip_spec(network: Option<Seq<char>>, nets: Seq<(Seq<char>, Seq<char>)>) -> Option<Seq<char>> {
    match network {
        Some(n) => net_lookup(nets, n),
        None => if nets.len() == 1 {
            Some(nets[0].1)
        } else {
            None
        },
    }
}

/// `127.0.0.1` for an unspecified or empty published address, else the address.
pub open spec fn published_host(ip: Seq<char>) -> Seq<char> {
    if ip == "0.0.0.0"@ || ip.len() == 0 {
        "127.0.0.1"@
    } else {
        ip
    }
}

/// The port a backend is resolved for: label, single exposed port, or single published container port.
pub open spec fn chosen_port_spec(svc: DiscoveredService) -> Option<u16> {
    match svc.labels.port {
        Some(p) => Some(p),
        None => match single_exposed_spec(svc.exposed_ports@) {
            Some(p) => Some(p),
            None => single_published_cp_spec(ports_view(svc.published_ports@)),
        },
    }
}

/// Backend resolution priority: explicit backend, published host port,
/// host network, container network IP; `None` when ambiguous or unreachable.
pub open spec fn resolve_spec(svc: DiscoveredService) -> Option<(Seq<char>, u16)> {
    match svc.labels.backend {
        Some(b) => Some((b.host@, b.port)),
        None => match chosen_port_spec(svc) {
            None => None,
            Some(port) => match select_published_spec(ports_view(svc.published_ports@), port) {
                Err(_) => None,
                Ok(Some(p)) => Some((published_host(p.1), p.2)),
                Ok(None) => if svc.network_mode matches Some(m) && m@ == "host"@ {
                    Some(("127.0.0.1"@, port))
                } else {
                    match select_ip_spec(
                        match svc.labels.network {
                            Some(n) => Some(n@),
                            None => None,
                        },
                        nets_view(svc.networks@),
                    ) {
                        Some(ip) => Some((ip, port)),
                        None => None,
                    }
                },
            },
        },
    }
}

fn str_is(s: &String, lit: &str) -> (r: bool)
    ensures
        r == (s@ == lit@),
{
    let a = to_chars(s.as_str());
    let b = to_chars(lit);
    chars_eq(&a, &b)
}

fn single_exposed_port(svc: &DiscoveredService) -> (r: Option<u16>)
    ensures
        r == single_exposed_spec(svc.exposed_ports@),
{
    if svc.exposed_ports.len() == 1 {
        Some(svc.exposed_ports[0])
    } else {
        None
    }
}

fn single_published_container_port(svc: &DiscoveredService) -> (r: Option<u16>)
    ensures
        r == single_published_cp_spec(ports_view(svc.published_ports@)),
{
    let pp = &svc.published_ports;
    let ghost s = ports_view(pp@);
    if pp.len() == 0 {
        return None;
    }
    let first = pp[0].container_port;
    let mut i: usize = 0;
    while i < pp.len()
        invariant
            i <= pp.len(),
            s == ports_view(pp@),
            pp@ == svc.published_ports@,
            pp@.len() > 0,
            first == s[0].0,
            forall|j: int| 0 <= j < i ==> (#[trigger] s[j]).0 == first,
        decreases pp.len() - i,
    {
        assert(s[i as int] == pp@[i as int]@);
        if pp[i].container_port != first {
            assert(s[i as int].0 != s[0].0);
            return None;
        }
        i = i + 1;
    }
    Some(first)
}

proof fn lemma_filter_cp_len(s: Seq<(u16, Seq<char>, u16)>, cp: u16)
    ensures
        filter_cp(s, cp).len() <= s.len(),
    decreases s.len(),
{
    if s.len() > 0 {
        lemma_filter_cp_len(s.drop_last(), cp);
    }
}

fn select_published_port(svc: &DiscoveredService, container_port: u16) -> (r: Result<
    Option<PublishedPort>,
    Error,
>)
    ensures
        match r {
            Ok(None) => select_published_spec(ports_view(svc.published_ports@), container_port)
                == Ok::<Option<(u16, Seq<char>, u16)>, ()>(None),
            Ok(Some(p)) => select_published_spec(ports_view(svc.published_ports@), container_port)
                == Ok::<Option<(u16, Seq<char>, u16)>, ()>(Some(p@)),
            Err(e) => select_published_spec(
                ports_view(svc.published_ports@),
                container_port,
            ) is Err && e is AmbiguousBackend,
        },
{
    let pp = &svc.published_ports;
    let ghost s = ports_view(pp@);
    let mut matches: Vec<PublishedPort> = Vec::new();
    let mut i: usize = 0;
    while i < pp.len()
        invariant
            i <= pp.len(),
            s == ports_view(pp@),
            pp@ == svc.published_ports@,
            ports_view(matches@) == filter_cp(s.take(i as int), container_port),
        decreases pp.len() - i,
    {
        assert(s.take(i + 1).drop_last() == s.take(i as int));
        assert(s[i as int] == pp@[i as int]@);
        if pp[i].container_port == container_port {
            let d = pp[i].duplicate();
            matches.push(d);
            assert(ports_view(matches@) =~= filter_cp(s.take(i as int), container_port).push(d@));
        }
        i = i + 1;
    }
    assert(s.take(pp.len() as int) == s);
    let ghost m = ports_view(matches@);
    if matches.len() == 0 {
        return Ok(None);
    }
    if matches.len() == 1 {
        assert(m[0] == matches@[0]@);
        return Ok(Some(matches[0].duplicate()));
    }
    let mut local: Vec<PublishedPort> = Vec::new();
    let mut k: usize = 0;
    while k < matches.len()
        invariant
            k <= matches.len(),
            m == ports_view(matches@),
            ports_view(local@) == filter_local(m.take(k as int)),
        decreases matches.len() - k,
    {
        assert(m.take(k + 1).drop_last() == m.take(k as int));
        assert(m[k as int] == matches@[k as int]@);
        let ip = &matches[k].host_ip;
        if str_is(ip, "127.0.0.1") || str_is(ip, "0.0.0.0") || to_chars(ip.as_str()).len() == 0 {
            let d = matches[k].duplicate();
            local.push(d);
            assert(ports_view(local@) =~= filter_local(m.take(k as int)).push(d@));
        }
        k = k + 1;
    }
    assert(m.take(matches.len() as int) == m);
    if local.len() == 1 {
        assert(ports_view(local@)[0] == local@[0]@);
        Ok(Some(local[0].duplicate()))
    } else {
        Err(Error::AmbiguousBackend("multiple published bindings for port".to_string()))
    }
}

proof fn lemma_net_lookup_index(nets: Seq<(Seq<char>, Seq<char>)>, name: Seq<char>, i: int)
    requires
        0 <= i <= nets.len(),
        forall|j: int| 0 <= j < i ==> (#[trigger] nets[j]).0 != name,
    ensures
        net_lookup(nets, name) == net_lookup(nets.subrange(i, nets.len() as int), name),
    decreases i,
{
    if i > 0 {
        assert(nets.drop_first().subrange(i - 1, nets.drop_first().len() as int) =~= nets.subrange(
            i,
            nets.len() as int,
        ));
        assert(nets[0].0 != name);
        lemma_net_lookup_index(nets.drop_first(), name, i - 1);
    } else {
        assert(nets.subrange(0, nets.len() as int) =~= nets);
    }
}

fn select_container_ip(svc: &DiscoveredService) -> (r: Result<String, Error>)
    ensures
        match r {
            Ok(ip) => select_ip_spec(
                match svc.labels.network {
                    Some(n) => Some(n@),
                    None => None,
                },
                nets_view(svc.networks@),
            ) == Some(ip@),
            Err(e) => select_ip_spec(
                match svc.labels.network {
                    Some(n) => Some(n@),
                    None => None,
                },
                nets_view(svc.networks@),
            ) is None && e is AmbiguousBackend,
        },
        svc.labels.network matches Some(n) ==> (r is Err ==> (r matches Err(Error::AmbiguousBackend(m)) && m@
            == "network "@ + n@ + " not found"@)),
{
    let nets = &svc.networks;
    let ghost nv = nets_view(nets@);
    match &svc.labels.network {
        Some(net) => {
            let want = to_chars(net.as_str());
            let mut i: usize = 0;
            while i < nets.len()
                invariant
                    i <= nets.len(),
                    nv == nets_view(nets@),
                    nets@ == svc.networks@,
                    want@ == net@,
                    svc.labels.network matches Some(n) && n@ == net@,
                    forall|j: int| 0 <= j < i ==> (#[trigger] nv[j]).0 != net@,
                decreases nets.len() - i,
            {
                assert(nv[i as int] == (nets@[i as int].0@, nets@[i as int].1@));
                let k = to_chars(nets[i].0.as_str());
                if chars_eq(&k, &want) {
                    proof {
                        lemma_net_lookup_index(nv, net@, i as int);
                        assert(nv.subrange(i as int, nv.len() as int)[0] == nv[i as int]);
                    }
                    return Ok(nets[i].1.clone());
                }
                i = i + 1;
            }
            proof {
                lemma_net_lookup_index(nv, net@, i as int);
            }
            let mut msg: Vec<char> = Vec::new();
            push_str(&mut msg, "network ");
            push_str(&mut msg, net.as_str());
            push_str(&mut msg, " not found");
            Err(Error::AmbiguousBackend(from_chars(&msg)))
        },
        None => {
            if nets.len() == 0 {
                Err(Error::AmbiguousBackend("no container IP".to_string()))
            } else if nets.len() == 1 {
                assert(nv[0] == (nets@[0].0@, nets@[0].1@));
                Ok(nets[0].1.clone())
            } else {
                Err(Error::AmbiguousBackend("multiple networks; set tailsvc.network".to_string()))
            }
        },
    }
}

/// Backend resolution priority:
/// 1. Explicit tailsvc.backend
/// 2. Published host port
/// 3. network_mode=host
/// 4. Container network IP
/// 5. Reject as ambiguous or unreachable
pub fn resolve_backend(svc: &DiscoveredService) -> (r: Result<Backend, Error>)
    ensures
        match r {
            Ok(b) => resolve_spec(*svc) == Some((b.host@, b.port)),
            Err(e) => resolve_spec(*svc) is None && e is AmbiguousBackend,
        },
{
    if let Some(b) = &svc.labels.backend {
        return Ok(b.duplicate());
    }
    let port: u16 = match svc.labels.port {
        Some(p) => p,
        None => match single_exposed_port(svc) {
            Some(p) => p,
            None => match single_published_container_port(svc) {
                Some(p) => p,
                None => return Err(Error::AmbiguousBackend("no port specified".to_string())),
            },
        },
    };
    match select_published_port(svc, port) {
        Err(e) => return Err(e),
        Ok(Some(pubp)) => {
            let is_unspec = str_is(&pubp.host_ip, "0.0.0.0") || to_chars(pubp.host_ip.as_str()).len()
                == 0;
            let host = if is_unspec {
                "127.0.0.1".to_string()
            } else {
                pubp.host_ip.clone()
            };
            return Ok(Backend { host, port: pubp.host_port });
        },
        Ok(None) => {},
    }
    let is_host = match &svc.network_mode {
        Some(m) => str_is(m, "host"),
        None => false,
    };
    if is_host {
        return Ok(Backend { host: "127.0.0.1".to_string(), port });
    }
    let ip = select_container_ip(svc)?;
    Ok(Backend { host: ip, port })
}

/// `http://{authority}/` for a backend.
pub fn backend_url(backend: &Backend) -> (r: String)
    ensures
        r@ == crate::backend::base_url_spec(backend.host@, backend.port),
{
    backend.base_url()
}


// ---------------------------------------------------------------- sorted sets of ports

pub open spec fn strictly_sorted(s: Seq<u16>) -> bool {
    forall|i: int, j: int| 0 <= i < j < s.len() ==> s[i] < s[j]
}

/// The distinct values of `v`, ascending (what `sort_unstable` then `dedup` gives).
pub fn sorted_unique(v: &Vec<u16>) -> (r: Vec<u16>)
    ensures
        strictly_sorted(r@),
        forall|x: u16| r@.contains(x) <==> v@.contains(x),
{
    let mut out: Vec<u16> = Vec::new();
    let mut i: usize = 0;
    while i < v.len()
        invariant
            i <= v.len(),
            strictly_sorted(out@),
            forall|x: u16| out@.contains(x) <==> v@.take(i as int).contains(x),
        decreases v.len() - i,
    {
        let x = v[i];
        let mut k: usize = 0;
        while k < out.len() && out[k] < x
            invariant
                k <= out.len(),
                strictly_sorted(out@),
                forall|j: int| 0 <= j < k ==> out@[j] < x,
            decreases out.len() - k,
        {
            k = k + 1;
        }
        let ghost before = out@;
        if k < out.len() && out[k] == x {
        } else {
            out.insert(k, x);
            assert(out@ == before.insert(k as int, x));
            assert forall|a: int, b: int| 0 <= a < b < out@.len() implies out@[a] < out@[b] by {
                if b < k {
                } else if a < k && b == k {
                } else if a < k && b > k {
                    assert(out@[b] == before[b - 1]);
                    assert(before[k as int] > x || before[k as int] >= x);
                } else if a == k {
                    assert(out@[b] == before[b - 1]);
                    if b - 1 > k {
                        assert(before[k as int] < before[b - 1]);
                    }
                } else {
                    assert(out@[a] == before[a - 1]);
                    assert(out@[b] == before[b - 1]);
                }
            }
        }
        let ghost t1 = v@.take(i as int);
        let ghost t2 = v@.take(i + 1);
        assert(t2 == t1.push(x));
        assert forall|y: u16| out@.contains(y) <==> t2.contains(y) by {
            if out@.contains(y) {
                let j = choose|j: int| 0 <= j < out@.len() && out@[j] == y;
                if y != x {
                    if k < before.len() && before[k as int] == x {
                        assert(before[j] == y);
                    } else if j < k {
                        assert(before[j] == y);
                    } else {
                        assert(before[j - 1] == y);
                    }
                    assert(before.contains(y));
                    assert(t1.contains(y));
                    let m = choose|m: int| 0 <= m < t1.len() && t1[m] == y;
                    assert(t2[m] == y);
                } else {
                    assert(t2[t1.len() as int] == y);
                }
            }
            if t2.contains(y) {
                let m = choose|m: int| 0 <= m < t2.len() && t2[m] == y;
                if m < t1.len() {
                    assert(t1[m] == y);
                    assert(before.contains(y));
                    let j = choose|j: int| 0 <= j < before.len() && before[j] == y;
                    if k < before.len() && before[k as int] == x {
                        assert(out@[j] == y);
                    } else if j < k {
                        assert(out@[j] == y);
                    } else {
                        assert(out@[j + 1] == y);
                    }
                } else {
                    assert(y == x);
                    assert(out@[k as int] == y);
                }
            }
        }
        i = i + 1;
    }
    assert(v@.take(v.len() as int) == v@);
    out
}

// ---------------------------------------------------------------- events

/// The part of a Docker event that decides whether to reconcile.
#[derive(Clone, Debug)]
pub struct EventMessage {
    pub action: Option<String>,
}

/// Actions that trigger a rescan.
pub open spec fn relevant_action(a: Seq<char>) -> bool {
    ||| a == "start"@
    ||| a == "stop"@
    ||| a == "die"@
    ||| a == "destroy"@
    ||| a == "rename"@
    ||| a == "connect"@
    ||| a == "disconnect"@
    ||| starts_with(a, "health_status"@)
}

/// Relevant Docker event actions.
pub fn is_relevant_event(msg: &EventMessage) -> (r: bool)
    ensures
        r == relevant_action(
            match msg.action {
                Some(a) => a@,
                None => Seq::<char>::empty(),
            },
        ),
{
    let a: Vec<char> = match &msg.action {
        Some(s) => to_chars(s.as_str()),
        None => Vec::new(),
    };
    let mut hs: Vec<char> = Vec::new();
    push_str(&mut hs, "health_status");
    let names = ["start", "stop", "die", "destroy", "rename", "connect", "disconnect"];
    let mut hit = false;
    let mut i: usize = 0;
    while i < 7
        invariant
            i <= 7,
            names@ == seq!["start", "stop", "die", "destroy", "rename", "connect", "disconnect"],
            hit == (exists|j: int| 0 <= j < i && a@ == names@[j]@),
        decreases 7 - i,
    {
        let n = to_chars(names[i]);
        if chars_eq(&a, &n) {
            hit = true;
        }
        i = i + 1;
    }
    let r = hit || has_prefix(&a, &hs);
    proof {
        if hit {
            let j = choose|j: int| 0 <= j < 7 && a@ == names@[j]@;
            assert(0 <= j < 7);
        }
        if a@ == "start"@ { assert(a@ == names@[0]@); }
        if a@ == "stop"@ { assert(a@ == names@[1]@); }
        if a@ == "die"@ { assert(a@ == names@[2]@); }
        if a@ == "destroy"@ { assert(a@ == names@[3]@); }
        if a@ == "rename"@ { assert(a@ == names@[4]@); }
        if a@ == "connect"@ { assert(a@ == names@[5]@); }
        if a@ == "disconnect"@ { assert(a@ == names@[6]@); }
    }
    r
}

// ---------------------------------------------------------------- container inspection

/// One host binding of a container port, as the Docker API reports it.
#[derive(Clone, Debug)]
pub struct PortBinding {
    pub host_ip: Option<String>,
    pub host_port: Option<String>,
}

/// What the container inspection gives that discovery reads.
#[derive(Clone, Debug)]
pub struct ContainerInspect {
    pub running: Option<bool>,
    pub name: Option<String>,
    pub labels: Option<Vec<(String, String)>>,
    pub image: Option<String>,
    pub network_mode: Option<String>,
    /// Port key (`"80/tcp"`) and its host bindings.
    pub ports: Option<Vec<(String, Option<Vec<PortBinding>>)>>,
    /// Network name and the container's IP address on it.
    pub networks: Option<Vec<(String, Option<String>)>>,
    /// Exposed port keys (`"80/tcp"`).
    pub exposed_ports: Option<Vec<String>>,
}

pub open spec fn sv(o: Option<String>) -> Option<Seq<char>> {
    match o {
        Some(s) => Some(s@),
        None => None,
    }
}

/// What `str::parse::<u16>` gives back.
pub open spec fn parse_u16_spec(s: Seq<char>) -> Option<u16> {
    match parse_u32_spec(s) {
        Some(n) => if n <= 65535 {
            Some(n as u16)
        } else {
            None
        },
        None => None,
    }
}

pub fn parse_u16(s: &[char]) -> (r: Option<u16>)
    ensures
        r == parse_u16_spec(s@),
{
    match parse_u32(s) {
        Some(n) => if n <= 65535 {
            Some(n as u16)
        } else {
            None
        },
        None => None,
    }
}

/// Port number before the `/` of a port key such as `80/tcp`.
pub open spec fn port_of_key(key: Seq<char>) -> Option<u16> {
    parse_u16_spec(split_seq(key, '/')[0])
}

pub fn port_of_key_exec(key: &String) -> (r: Option<u16>)
    ensures
        r == port_of_key(key@),
{
    let k = to_chars(key.as_str());
    let parts = split_chars(&k, '/');
    proof {
        lemma_split_nonempty(k@, '/');
        assert(parts@.map_values(|p: Vec<char>| p@)[0] == parts@[0]@);
    }
    parse_u16(&parts[0])
}

pub open spec fn binding_view(b: PortBinding) -> (Option<Seq<char>>, Option<Seq<char>>) {
    (sv(b.host_ip), sv(b.host_port))
}

/// Published ports of one port key's bindings (those with a numeric host port).
pub open spec fn bindings_ports(cp: u16, bs: Seq<PortBinding>) -> Seq<(u16, Seq<char>, u16)>
    decreases bs.len(),
{
    if bs.len() == 0 {
        Seq::empty()
    } else {
        let prev = bindings_ports(cp, bs.drop_last());
        let b = bs.last();
        match b.host_port {
            Some(hp) => match parse_u16_spec(hp@) {
                Some(h) => prev.push(
                    (
                        cp,
                        match b.host_ip {
                            Some(ip) => ip@,
                            None => "0.0.0.0"@,
                        },
                        h,
                    ),
                ),
                None => prev,
            },
            None => prev,
        }
    }
}

/// Published ports of all port keys, in order.
pub open spec fn ports_from(entries: Seq<(String, Option<Vec<PortBinding>>)>) -> Seq<
    (u16, Seq<char>, u16),
>
    decreases entries.len(),
{
    if entries.len() == 0 {
        Seq::empty()
    } else {
        let e = entries.last();
        let cp: u16 = match port_of_key(e.0@) {
            Some(p) => p,
            None => 0,
        };
        ports_from(entries.drop_last()) + match e.1 {
            Some(bs) => bindings_ports(cp, bs@),
            None => Seq::empty(),
        }
    }
}

/// Networks on which the container has a non-empty IP address.
pub open spec fn nets_from(entries: Seq<(String, Option<String>)>) -> Seq<(Seq<char>, Seq<char>)>
    decreases entries.len(),
{
    if entries.len() == 0 {
        Seq::empty()
    } else {
        let e = entries.last();
        match e.1 {
            Some(ip) => if ip@.len() > 0 {
                nets_from(entries.drop_last()).push((e.0@, ip@))
            } else {
                nets_from(entries.drop_last())
            },
            None => nets_from(entries.drop_last()),
        }
    }
}

/// A TCP port key: `80/tcp`, or a bare `80` (Docker's default protocol is TCP).
pub open spec fn tcp_key(key: Seq<char>) -> bool {
    let parts = split_seq(key, '/');
    parts.len() == 1 || (parts.len() == 2 && parts[1] == "tcp"@)
}

fn tcp_key_exec(key: &String) -> (r: bool)
    ensures
        r == tcp_key(key@),
{
    let k = to_chars(key.as_str());
    let parts = split_chars(&k, '/');
    proof {
        assert(parts@.map_values(|p: Vec<char>| p@).len() == parts@.len());
    }
    if parts.len() == 1 {
        return true;
    }
    if parts.len() != 2 {
        return false;
    }
    let t = to_chars("tcp");
    proof {
        assert(parts@.map_values(|p: Vec<char>| p@)[1] == parts@[1]@);
    }
    chars_eq(&parts[1], &t)
}

/// Exposed TCP port numbers that parse, in order; other protocols are left out.
pub open spec fn exposed_from(keys: Seq<String>) -> Seq<u16>
    decreases keys.len(),
{
    if keys.len() == 0 {
        Seq::empty()
    } else if !tcp_key(keys.last()@) {
        exposed_from(keys.drop_last())
    } else {
        match port_of_key(keys.last()@) {
            Some(p) => exposed_from(keys.drop_last()).push(p),
            None => exposed_from(keys.drop_last()),
        }
    }
}

/// Leading `/` characters removed (`trim_start_matches('/')`).
pub open spec fn strip_slashes(s: Seq<char>) -> Seq<char>
    decreases s.len(),
{
    if s.len() > 0 && s[0] == '/' {
        strip_slashes(s.drop_first())
    } else {
        s
    }
}

fn binding_ports_exec(cp: u16, bs: &Vec<PortBinding>, out: &mut Vec<PublishedPort>)
    ensures
        ports_view(final(out)@) == ports_view(old(out)@) + bindings_ports(cp, bs@),
{
    let ghost start = ports_view(out@);
    let mut i: usize = 0;
    while i < bs.len()
        invariant
            i <= bs.len(),
            ports_view(out@) == start + bindings_ports(cp, bs@.take(i as int)),
        decreases bs.len() - i,
    {
        assert(bs@.take(i + 1).drop_last() == bs@.take(i as int));
        assert(bs@.take(i + 1).last() == bs@[i as int]);
        let b = &bs[i];
        if let Some(hp) = &b.host_port {
            let hc = to_chars(hp.as_str());
            if let Some(h) = parse_u16(&hc) {
                let ip = match &b.host_ip {
                    Some(x) => x.clone(),
                    None => "0.0.0.0".to_string(),
                };
                let p = PublishedPort { container_port: cp, host_ip: ip, host_port: h };
                let ghost before = ports_view(out@);
                out.push(p);
                assert(ports_view(out@) =~= before.push(p@));
            }
        }
        i = i + 1;
    }
    assert(bs@.take(bs.len() as int) == bs@);
}

fn ports_from_exec(entries: &Vec<(String, Option<Vec<PortBinding>>)>) -> (r: Vec<PublishedPort>)
    ensures
        ports_view(r@) == ports_from(entries@),
{
    let mut out: Vec<PublishedPort> = Vec::new();
    let mut i: usize = 0;
    while i < entries.len()
        invariant
            i <= entries.len(),
            ports_view(out@) == ports_from(entries@.take(i as int)),
        decreases entries.len() - i,
    {
        assert(entries@.take(i + 1).drop_last() == entries@.take(i as int));
        assert(entries@.take(i + 1).last() == entries@[i as int]);
        let cp: u16 = match port_of_key_exec(&entries[i].0) {
            Some(p) => p,
            None => 0,
        };
        match &entries[i].1 {
            Some(bs) => binding_ports_exec(cp, bs, &mut out),
            None => {
                assert(ports_view(out@) =~= ports_view(out@) + Seq::<(u16, Seq<char>, u16)>::empty());
            },
        }
        i = i + 1;
    }
    assert(entries@.take(entries.len() as int) == entries@);
    out
}

fn nets_from_exec(entries: &Vec<(String, Option<String>)>) -> (r: Vec<(String, String)>)
    ensures
        nets_view(r@) == nets_from(entries@),
{
    let mut out: Vec<(String, String)> = Vec::new();
    let mut i: usize = 0;
    while i < entries.len()
        invariant
            i <= entries.len(),
            nets_view(out@) == nets_from(entries@.take(i as int)),
        decreases entries.len() - i,
    {
        assert(entries@.take(i + 1).drop_last() == entries@.take(i as int));
        assert(entries@.take(i + 1).last() == entries@[i as int]);
        if let Some(ip) = &entries[i].1 {
            if to_chars(ip.as_str()).len() > 0 {
                let pair = (entries[i].0.clone(), ip.clone());
                let ghost before = nets_view(out@);
                out.push(pair);
                assert(nets_view(out@) =~= before.push((pair.0@, pair.1@)));
            }
        }
        i = i + 1;
    }
    assert(entries@.take(entries.len() as int) == entries@);
    out
}

/// Exposed port numbers that parse, in order, whatever their protocol.
pub open spec fn exposed_any(keys: Seq<String>) -> Seq<u16>
    decreases keys.len(),
{
    if keys.len() == 0 {
        Seq::empty()
    } else {
        match port_of_key(keys.last()@) {
            Some(p) => exposed_any(keys.drop_last()).push(p),
            None => exposed_any(keys.drop_last()),
        }
    }
}

pub open spec fn exposed_any_or_empty(e: Option<Vec<String>>) -> Seq<u16> {
    match e {
        Some(v) => exposed_any(v@),
        None => Seq::empty(),
    }
}

fn exposed_any_exec(keys: &Vec<String>) -> (r: Vec<u16>)
    ensures
        r@ == exposed_any(keys@),
{
    let mut out: Vec<u16> = Vec::new();
    let mut i: usize = 0;
    while i < keys.len()
        invariant
            i <= keys.len(),
            out@ == exposed_any(keys@.take(i as int)),
        decreases keys.len() - i,
    {
        assert(keys@.take(i + 1).drop_last() == keys@.take(i as int));
        assert(keys@.take(i + 1).last() == keys@[i as int]);
        if let Some(p) = port_of_key_exec(&keys[i]) {
            out.push(p);
        }
        i = i + 1;
    }
    assert(keys@.take(keys.len() as int) == keys@);
    out
}

fn exposed_from_exec(keys: &Vec<String>) -> (r: Vec<u16>)
    ensures
        r@ == exposed_from(keys@),
{
    let mut out: Vec<u16> = Vec::new();
    let mut i: usize = 0;
    while i < keys.len()
        invariant
            i <= keys.len(),
            out@ == exposed_from(keys@.take(i as int)),
        decreases keys.len() - i,
    {
        assert(keys@.take(i + 1).drop_last() == keys@.take(i as int));
        assert(keys@.take(i + 1).last() == keys@[i as int]);
        if tcp_key_exec(&keys[i]) {
            if let Some(p) = port_of_key_exec(&keys[i]) {
                out.push(p);
            }
        }
        i = i + 1;
    }
    assert(keys@.take(keys.len() as int) == keys@);
    out
}

proof fn lemma_strip_slashes_skip(s: Seq<char>, i: int)
    requires
        0 <= i <= s.len(),
        forall|j: int| 0 <= j < i ==> s[j] == '/',
    ensures
        strip_slashes(s) == strip_slashes(s.subrange(i, s.len() as int)),
    decreases i,
{
    if i > 0 {
        assert(s.drop_first().subrange(i - 1, s.drop_first().len() as int) =~= s.subrange(
            i,
            s.len() as int,
        ));
        lemma_strip_slashes_skip(s.drop_first(), i - 1);
    } else {
        assert(s.subrange(0, s.len() as int) =~= s);
    }
}

fn strip_slashes_exec(s: &str) -> (r: String)
    ensures
        r@ == strip_slashes(s@),
{
    let c = to_chars(s);
    let mut i: usize = 0;
    while i < c.len() && c[i] == '/'
        invariant
            i <= c.len(),
            forall|j: int| 0 <= j < i ==> c@[j] == '/',
        decreases c.len() - i,
    {
        i = i + 1;
    }
    proof {
        lemma_strip_slashes_skip(c@, i as int);
    }
    let rest = crate::text::slice_range(&c, i, c.len());
    from_chars(&rest)
}

/// Container name: the inspected name (or the id) without leading `/`.
pub open spec fn container_name_spec(id: Seq<char>, name: Option<String>) -> Seq<char> {
    strip_slashes(
        match name {
            Some(n) => n@,
            None => id,
        },
    )
}

pub open spec fn labels_or_empty(l: Option<Vec<(String, String)>>) -> Seq<(Seq<char>, Seq<char>)> {
    match l {
        Some(v) => pairs_view(v@),
        None => Seq::empty(),
    }
}

pub open spec fn ports_or_empty(p: Option<Vec<(String, Option<Vec<PortBinding>>)>>) -> Seq<
    (u16, Seq<char>, u16),
> {
    match p {
        Some(v) => ports_from(v@),
        None => Seq::empty(),
    }
}

pub open spec fn nets_or_empty(n: Option<Vec<(String, Option<String>)>>) -> Seq<
    (Seq<char>, Seq<char>),
> {
    match n {
        Some(v) => nets_from(v@),
        None => Seq::empty(),
    }
}

pub open spec fn exposed_or_empty(e: Option<Vec<String>>) -> Seq<u16> {
    match e {
        Some(v) => exposed_from(v@),
        None => Seq::empty(),
    }
}

fn label_pairs(l: &Option<Vec<(String, String)>>) -> (r: Vec<(String, String)>)
    ensures
        pairs_view(r@) == labels_or_empty(*l),
{
    match l {
        Some(v) => {
            let mut out: Vec<(String, String)> = Vec::new();
            let mut i: usize = 0;
            while i < v.len()
                invariant
                    i <= v.len(),
                    pairs_view(out@) == pairs_view(v@.take(i as int)),
                decreases v.len() - i,
            {
                let k = v[i].0.clone();
                let w = v[i].1.clone();
                assert(k@ == v@[i as int].0@ && w@ == v@[i as int].1@);
                let ghost before = pairs_view(out@);
                out.push((k, w));
                assert(pairs_view(out@) =~= before.push((k@, w@)));
                assert(v@.take(i + 1) == v@.take(i as int).push(v@[i as int]));
                assert(pairs_view(out@) =~= pairs_view(v@.take(i + 1)));
                i = i + 1;
            }
            assert(v@.take(v.len() as int) == v@);
            out
        },
        None => {
            let out: Vec<(String, String)> = Vec::new();
            assert(pairs_view(out@) =~= Seq::<(Seq<char>, Seq<char>)>::empty());
            out
        },
    }
}

/// The discovered service of an inspected container: `None` unless it is
/// running and its `tailsvc.*` labels are valid.
pub fn service_from_inspect(id: &str, inspect: &ContainerInspect) -> (r: Option<DiscoveredService>)
    ensures
        match r {
            None => !(inspect.running == Some(true)) || labels_spec(labels_or_empty(inspect.labels))
                is None,
            Some(s) => {
                &&& inspect.running == Some(true)
                &&& labels_spec(labels_or_empty(inspect.labels)) == Some(s.labels@)
                &&& s.container_id@ == id@
                &&& s.container_name@ == container_name_spec(id@, inspect.name)
                &&& sv(s.network_mode) == sv(inspect.network_mode)
                &&& ports_view(s.published_ports@) == ports_or_empty(inspect.ports)
                &&& nets_view(s.networks@) == nets_or_empty(inspect.networks)
                &&& s.exposed_ports@ == exposed_or_empty(inspect.exposed_ports)
            },
        },
{
    let running = match inspect.running {
        Some(b) => b,
        None => false,
    };
    if !running {
        return None;
    }
    let raw = label_pairs(&inspect.labels);
    let labels = match labels_from_map(&raw) {
        Some(l) => l,
        None => return None,
    };
    if validate_service_labels(&labels).is_err() {
        proof {
            crate::hostname::lemma_parse_host_list_nonempty(labels@.0);
        }
        return None;
    }
    let name_raw = match &inspect.name {
        Some(n) => n.clone(),
        None => id.to_string(),
    };
    let name = strip_slashes_exec(name_raw.as_str());
    let published_ports = match &inspect.ports {
        Some(p) => ports_from_exec(p),
        None => Vec::new(),
    };
    let networks = match &inspect.networks {
        Some(n) => nets_from_exec(n),
        None => Vec::new(),
    };
    let exposed_ports = match &inspect.exposed_ports {
        Some(e) => exposed_from_exec(e),
        None => Vec::new(),
    };
    assert(ports_view(published_ports@) == ports_or_empty(inspect.ports)) by {
        if inspect.ports is None {
            assert(ports_view(published_ports@) =~= Seq::<(u16, Seq<char>, u16)>::empty());
        }
    }
    assert(nets_view(networks@) == nets_or_empty(inspect.networks)) by {
        if inspect.networks is None {
            assert(nets_view(networks@) =~= Seq::<(Seq<char>, Seq<char>)>::empty());
        }
    }
    Some(DiscoveredService {
        container_id: id.to_string(),
        container_name: name,
        labels,
        network_mode: inspect.network_mode.clone(),
        published_ports,
        networks,
        exposed_ports,
    })
}

// ---------------------------------------------------------------- candidates

/// Image name fragments of data stores that are not offered as web services.
pub open spec fn skip_prefixes() -> Seq<Seq<char>> {
    seq![
        "redis:"@,
        "postgres:"@,
        "mysql:"@,
        "mongo:"@,
        "mariadb:"@,
        "memcached:"@,
        "rabbitmq:"@,
        "pgvector/"@,
        "tensorchord/"@,
    ]
}

pub open spec fn skip_image_spec(image: Seq<char>) -> bool {
    exists|i: int| 0 <= i < skip_prefixes().len() && contains_seq(lower_seq(image), #[trigger] skip_prefixes()[i])
}

/// True for images of data stores (redis, postgres, ...), matched ignoring ASCII case.
pub fn should_skip_image(image: &str) -> (r: bool)
    ensures
        r == skip_image_spec(image@),
{
    let c = to_chars(image);
    let lower = lower_chars(&c);
    let pats = [
        "redis:",
        "postgres:",
        "mysql:",
        "mongo:",
        "mariadb:",
        "memcached:",
        "rabbitmq:",
        "pgvector/",
        "tensorchord/",
    ];
    let mut i: usize = 0;
    while i < 9
        invariant
            i <= 9,
            lower@ == lower_seq(image@),
            forall|k: int| 0 <= k < 9 ==> (#[trigger] pats@[k])@ == skip_prefixes()[k],
            forall|k: int| 0 <= k < i ==> !contains_seq(lower_seq(image@), #[trigger] skip_prefixes()[k]),
        decreases 9 - i,
    {
        let p = to_chars(pats[i]);
        if contains_pat(&lower, &p) {
            assert(contains_seq(lower_seq(image@), skip_prefixes()[i as int]));
            return true;
        }
        i = i + 1;
    }
    false
}

/// A backend suggestion for a container without `tailsvc` labels.
pub open spec fn suggest_spec(
    network_mode: Option<Seq<char>>,
    published: Seq<(u16, Seq<char>, u16)>,
    exposed: Seq<u16>,
    nets: Seq<(Seq<char>, Seq<char>)>,
) -> Option<(Seq<char>, u16)> {
    if published.len() == 1 {
        Some((published_host(published[0].1), published[0].2))
    } else if network_mode == Some("host"@) {
        if exposed.len() == 1 {
            Some(("127.0.0.1"@, exposed[0]))
        } else {
            None
        }
    } else if nets.len() == 1 && exposed.len() == 1 {
        Some((nets[0].1, exposed[0]))
    } else {
        None
    }
}

pub open spec fn backend_opt_view(b: Option<Backend>) -> Option<(Seq<char>, u16)> {
    match b {
        Some(x) => Some((x.host@, x.port)),
        None => None,
    }
}

/// Suggests a backend: single published port, host network with one exposed
/// port, or one network with one exposed port.
pub fn suggest_backend(
    network_mode: &Option<String>,
    published: &Vec<PublishedPort>,
    exposed: &Vec<u16>,
    networks: &Vec<(String, String)>,
) -> (r: Option<Backend>)
    ensures
        backend_opt_view(r) == suggest_spec(sv(*network_mode), ports_view(published@), exposed@, nets_view(networks@)),
{
    if published.len() == 1 {
        let p = &published[0];
        assert(ports_view(published@)[0] == p@);
        let is_unspec = str_is(&p.host_ip, "0.0.0.0") || to_chars(p.host_ip.as_str()).len() == 0;
        let host = if is_unspec {
            "127.0.0.1".to_string()
        } else {
            p.host_ip.clone()
        };
        return Some(Backend { host, port: p.host_port });
    }
    let is_host = match network_mode {
        Some(m) => str_is(m, "host"),
        None => false,
    };
    if is_host {
        if exposed.len() == 1 {
            return Some(Backend { host: "127.0.0.1".to_string(), port: exposed[0] });
        }
        return None;
    }
    if networks.len() == 1 && exposed.len() == 1 {
        assert(nets_view(networks@)[0] == (networks@[0].0@, networks@[0].1@));
        return Some(Backend { host: networks[0].1.clone(), port: exposed[0] });
    }
    None
}

/// A running container as offered for "click to enable".
#[derive(Clone, Debug)]
pub struct ContainerCandidate {
    pub identity_key: String,
    pub container_id: String,
    pub container_name: String,
    pub image: String,
    pub network_mode: Option<String>,
    pub published_ports: Vec<PublishedPort>,
    pub exposed_ports: Vec<u16>,
    pub networks: Vec<(String, String)>,
    pub compose_project: Option<String>,
    pub compose_service: Option<String>,
    pub has_tailsvc_labels: bool,
    pub suggested_backend: Option<Backend>,
}

/// Trailing `/` characters removed (`trim_end_matches('/')`).
pub open spec fn strip_trailing_slashes(s: Seq<char>) -> Seq<char>
    decreases s.len(),
{
    if s.len() > 0 && s.last() == '/' {
        strip_trailing_slashes(s.drop_last())
    } else {
        s
    }
}

proof fn lemma_strip_trailing_skip(s: Seq<char>, k: int)
    requires
        0 <= k <= s.len(),
        forall|j: int| k <= j < s.len() ==> s[j] == '/',
    ensures
        strip_trailing_slashes(s) == strip_trailing_slashes(s.subrange(0, k)),
    decreases s.len() - k,
{
    if k < s.len() {
        assert(s.drop_last().subrange(0, k) =~= s.subrange(0, k));
        lemma_strip_trailing_skip(s.drop_last(), k);
    } else {
        assert(s.subrange(0, k) =~= s);
    }
}

fn strip_trailing_exec(s: &String) -> (r: String)
    ensures
        r@ == strip_trailing_slashes(s@),
{
    let c = to_chars(s.as_str());
    let mut k: usize = c.len();
    while k > 0 && c[k - 1] == '/'
        invariant
            k <= c.len(),
            forall|j: int| k <= j < c.len() ==> c@[j] == '/',
        decreases k,
    {
        k = k - 1;
    }
    proof {
        lemma_strip_trailing_skip(c@, k as int);
        let u = c@.subrange(0, k as int);
        if u.len() > 0 {
            assert(u.last() == c@[k - 1]);
        }
    }
    let part = crate::text::slice_range(&c, 0, k);
    from_chars(&part)
}

fn host_ports(pp: &Vec<PublishedPort>) -> (r: Vec<u16>)
    ensures
        r@ == ports_view(pp@).map_values(|p: (u16, Seq<char>, u16)| p.2),
{
    let mut out: Vec<u16> = Vec::new();
    let mut i: usize = 0;
    while i < pp.len()
        invariant
            i <= pp.len(),
            out@ == ports_view(pp@.take(i as int)).map_values(|p: (u16, Seq<char>, u16)| p.2),
        decreases pp.len() - i,
    {
        out.push(pp[i].host_port);
        assert(pp@.take(i + 1) == pp@.take(i as int).push(pp@[i as int]));
        assert(out@ =~= ports_view(pp@.take(i + 1)).map_values(|p: (u16, Seq<char>, u16)| p.2));
        i = i + 1;
    }
    assert(pp@.take(pp.len() as int) == pp@);
    out
}

impl ContainerCandidate {
    /// The admin view of this candidate.
    pub fn to_dto(&self) -> (r: DiscoveredContainerDto)
        ensures
            r.identity_key@ == self.identity_key@,
            r.container_id@ == self.container_id@,
            r.container_name@ == self.container_name@,
            r.image@ == self.image@,
            sv(r.network_mode) == sv(self.network_mode),
            sv(r.suggested_backend) == match self.suggested_backend {
                Some(b) => Some(strip_trailing_slashes(base_url_spec(b.host@, b.port))),
                None => None,
            },
            strictly_sorted(r.published_ports@),
            forall|x: u16| #[trigger] r.published_ports@.contains(x) <==> ports_view(self.published_ports@).map_values(|p: (u16, Seq<char>, u16)| p.2).contains(x),
            r.exposed_ports@ == self.exposed_ports@,
            sv(r.compose_project) == sv(self.compose_project),
            sv(r.compose_service) == sv(self.compose_service),
            r.has_tailsvc_labels == self.has_tailsvc_labels,
    {
        let suggested = match &self.suggested_backend {
            Some(b) => {
                let u = b.base_url();
                Some(strip_trailing_exec(&u))
            },
            None => None,
        };
        let hp = host_ports(&self.published_ports);
        DiscoveredContainerDto {
            identity_key: self.identity_key.clone(),
            container_id: self.container_id.clone(),
            container_name: self.container_name.clone(),
            image: self.image.clone(),
            network_mode: clone_opt(&self.network_mode),
            suggested_backend: suggested,
            published_ports: sorted_unique(&hp),
            exposed_ports: self.exposed_ports.clone(),
            compose_project: clone_opt(&self.compose_project),
            compose_service: clone_opt(&self.compose_service),
            has_tailsvc_labels: self.has_tailsvc_labels,
        }
    }
}

pub fn clone_opt(o: &Option<String>) -> (r: Option<String>)
    ensures
        sv(r) == sv(*o),
{
    match o {
        Some(s) => Some(s.clone()),
        None => None,
    }
}

/// Value of the first label whose key is exactly `key`.
pub open spec fn exact_label(m: Seq<(Seq<char>, Seq<char>)>, key: Seq<char>) -> Option<Seq<char>>
    decreases m.len(),
{
    if m.len() == 0 {
        None
    } else if m[0].0 == key {
        Some(m[0].1)
    } else {
        exact_label(m.drop_first(), key)
    }
}

proof fn lemma_exact_label_index(m: Seq<(Seq<char>, Seq<char>)>, key: Seq<char>, i: int)
    requires
        0 <= i <= m.len(),
        forall|j: int| 0 <= j < i ==> (#[trigger] m[j]).0 != key,
    ensures
        exact_label(m, key) == exact_label(m.subrange(i, m.len() as int), key),
    decreases i,
{
    if i > 0 {
        assert(m.drop_first().subrange(i - 1, m.drop_first().len() as int) =~= m.subrange(
            i,
            m.len() as int,
        ));
        assert(m[0].0 != key);
        lemma_exact_label_index(m.drop_first(), key, i - 1);
    } else {
        assert(m.subrange(0, m.len() as int) =~= m);
    }
}

fn exact_lookup(m: &Vec<(String, String)>, key: &str) -> (r: Option<String>)
    ensures
        sv(r) == exact_label(pairs_view(m@), key@),
{
    let want = to_chars(key);
    let ghost mv = pairs_view(m@);
    let mut i: usize = 0;
    while i < m.len()
        invariant
            i <= m.len(),
            mv == pairs_view(m@),
            want@ == key@,
            forall|j: int| 0 <= j < i ==> (#[trigger] mv[j]).0 != key@,
        decreases m.len() - i,
    {
        assert(mv[i as int] == (m@[i as int].0@, m@[i as int].1@));
        let k = to_chars(m[i].0.as_str());
        if chars_eq(&k, &want) {
            proof {
                lemma_exact_label_index(mv, key@, i as int);
                assert(mv.subrange(i as int, mv.len() as int)[0] == mv[i as int]);
            }
            return Some(m[i].1.clone());
        }
        i = i + 1;
    }
    proof {
        lemma_exact_label_index(mv, key@, i as int);
    }
    None
}

/// `compose:{project}/{service}` for Compose containers, else `name:{name}`.
pub open spec fn identity_key_spec(project: Option<Seq<char>>, service: Option<Seq<char>>, name: Seq<char>) -> Seq<char> {
    match (project, service) {
        (Some(p), Some(s)) => "compose:"@ + p + "/"@ + s,
        _ => "name:"@ + name,
    }
}

pub fn identity_key(project: &Option<String>, service: &Option<String>, name: &String) -> (r: String)
    ensures
        r@ == identity_key_spec(sv(*project), sv(*service), name@),
{
    let mut out: Vec<char> = Vec::new();
    match (project, service) {
        (Some(p), Some(s)) => {
            push_str(&mut out, "compose:");
            push_str(&mut out, p.as_str());
            push_str(&mut out, "/");
            push_str(&mut out, s.as_str());
        },
        _ => {
            push_str(&mut out, "name:");
            push_str(&mut out, name.as_str());
        },
    }
    from_chars(&out)
}

/// The candidate of an inspected container; `None` unless it is running.
pub fn candidate_from_inspect(id: &str, inspect: &ContainerInspect) -> (r: Option<ContainerCandidate>)
    ensures
        r is Some <==> inspect.running == Some(true),
        r matches Some(c) ==> {
            let labels = labels_or_empty(inspect.labels);
            let project = exact_label(labels, "com.docker.compose.project"@);
            let service = exact_label(labels, "com.docker.compose.service"@);
            let name = container_name_spec(id@, inspect.name);
            &&& c.container_id@ == id@
            &&& c.container_name@ == name
            &&& c.image@ == match inspect.image {
                Some(i) => i@,
                None => Seq::<char>::empty(),
            }
            &&& sv(c.network_mode) == sv(inspect.network_mode)
            &&& sv(c.compose_project) == project
            &&& sv(c.compose_service) == service
            &&& c.identity_key@ == identity_key_spec(project, service, name)
            &&& c.has_tailsvc_labels == labels_spec(labels) is Some
            &&& ports_view(c.published_ports@) == ports_or_empty(inspect.ports)
            &&& nets_view(c.networks@) == nets_or_empty(inspect.networks)
            &&& strictly_sorted(c.exposed_ports@)
            &&& forall|x: u16| #[trigger] c.exposed_ports@.contains(x) <==> exposed_any_or_empty(inspect.exposed_ports).contains(x)
            &&& exists|tcp: Seq<u16>|
                {
                    &&& strictly_sorted(tcp)
                    &&& forall|x: u16| #[trigger] tcp.contains(x) <==> exposed_or_empty(inspect.exposed_ports).contains(x)
                    &&& backend_opt_view(c.suggested_backend) == suggest_spec(
                        sv(inspect.network_mode),
                        ports_or_empty(inspect.ports),
                        tcp,
                        nets_or_empty(inspect.networks),
                    )
                }
        },
{
    let running = match inspect.running {
        Some(b) => b,
        None => false,
    };
    if !running {
        return None;
    }
    let raw = label_pairs(&inspect.labels);
    let name_raw = match &inspect.name {
        Some(n) => n.clone(),
        None => id.to_string(),
    };
    let name = strip_slashes_exec(name_raw.as_str());
    let image = match &inspect.image {
        Some(i) => i.clone(),
        None => String::new(),
    };
    let network_mode = clone_opt(&inspect.network_mode);
    let compose_project = exact_lookup(&raw, "com.docker.compose.project");
    let compose_service = exact_lookup(&raw, "com.docker.compose.service");
    let identity = identity_key(&compose_project, &compose_service, &name);
    let has_tailsvc_labels = labels_from_map(&raw).is_some();
    let published_ports = match &inspect.ports {
        Some(p) => ports_from_exec(p),
        None => Vec::new(),
    };
    let networks = match &inspect.networks {
        Some(n) => nets_from_exec(n),
        None => Vec::new(),
    };
    let exposed_raw = match &inspect.exposed_ports {
        Some(e) => exposed_any_exec(e),
        None => Vec::new(),
    };
    let exposed_ports = sorted_unique(&exposed_raw);
    let tcp_raw = match &inspect.exposed_ports {
        Some(e) => exposed_from_exec(e),
        None => Vec::new(),
    };
    let tcp_ports = sorted_unique(&tcp_raw);
    assert(ports_view(published_ports@) == ports_or_empty(inspect.ports)) by {
        if inspect.ports is None {
            assert(ports_view(published_ports@) =~= Seq::<(u16, Seq<char>, u16)>::empty());
        }
    }
    assert(nets_view(networks@) == nets_or_empty(inspect.networks)) by {
        if inspect.networks is None {
            assert(nets_view(networks@) =~= Seq::<(Seq<char>, Seq<char>)>::empty());
        }
    }
    let suggested = suggest_backend(&network_mode, &published_ports, &tcp_ports, &networks);
    assert(tcp_raw@ == exposed_or_empty(inspect.exposed_ports));
    assert(exposed_raw@ == exposed_any_or_empty(inspect.exposed_ports));
    Some(ContainerCandidate {
        identity_key: identity,
        container_id: id.to_string(),
        container_name: name,
        image,
        network_mode,
        published_ports,
        exposed_ports,
        networks,
        compose_project,
        compose_service,
        has_tailsvc_labels,
        suggested_backend: suggested,
    })
}

// ---------------------------------------------------------------- candidate listing

/// Candidates whose image is not skipped.
pub open spec fn offered(c: ContainerCandidate) -> bool {
    !skip_image_spec(c.image@)
}

pub open spec fn offered_fn() -> spec_fn(ContainerCandidate) -> bool {
    |c: ContainerCandidate| offered(c)
}

/// Sorted by container name.
pub open spec fn sorted_by_name(s: Seq<ContainerCandidate>) -> bool {
    forall|i: int, j: int| 0 <= i < j < s.len() ==> crate::text::lex_le(s[i].container_name@, s[j].container_name@)
}

/// The candidates offered for enabling: skipped images dropped, sorted by name.
pub fn order_candidates(cands: Vec<ContainerCandidate>) -> (r: Vec<ContainerCandidate>)
    ensures
        sorted_by_name(r@),
        r@.to_multiset() == cands@.filter(offered_fn()).to_multiset(),
{
    broadcast use vstd::multiset::group_multiset_axioms;
    let ghost orig = cands@;
    let mut rest = cands;
    let mut out: Vec<ContainerCandidate> = Vec::new();
    proof {
        out@.to_multiset_ensures();
        assert(out@.to_multiset() =~= vstd::multiset::Multiset::<ContainerCandidate>::empty());
        assert(rest@.filter(offered_fn()).to_multiset().add(out@.to_multiset()) =~= rest@.filter(
            offered_fn(),
        ).to_multiset());
    }
    while rest.len() > 0
        invariant
            sorted_by_name(out@),
            orig.filter(offered_fn()).to_multiset() == rest@.filter(offered_fn()).to_multiset().add(out@.to_multiset()),
        decreases rest.len(),
    {
        let ghost before = rest@;
        let c = rest.pop().unwrap();
        proof {
            reveal(Seq::filter);
            assert(before.drop_last() == rest@);
            assert(before.last() == c);
        }
        let skip = should_skip_image(c.image.as_str());
        let ghost out0 = out@;
        proof {
            let rf = rest@.filter(offered_fn());
            if offered(c) {
                assert(before.filter(offered_fn()) == rf.push(c));
                rf.to_multiset_ensures();
            } else {
                assert(before.filter(offered_fn()) == rf);
            }
        }
        if !skip {
            let name = to_chars(c.container_name.as_str());
            let mut p: usize = 0;
            while p < out.len() && crate::text::lex_le_exec(
                to_chars(out[p].container_name.as_str()).as_slice(),
                name.as_slice(),
            )
                invariant
                    p <= out.len(),
                    name@ == c.container_name@,
                    forall|k: int| 0 <= k < p ==> crate::text::lex_le(#[trigger] out@[k].container_name@, name@),
                decreases out.len() - p,
            {
                p = p + 1;
            }
            let ghost ov = out@;
            proof {
                if p < ov.len() {
                    assert(!crate::text::lex_le(ov[p as int].container_name@, name@));
                    crate::text::lemma_lex_total(ov[p as int].container_name@, name@);
                }
                vstd::seq_lib::to_multiset_insert(ov, p as int, c);
            }
            out.insert(p, c);
            proof {
                let nv = out@;
                assert(nv == ov.insert(p as int, c));
                assert forall|i: int, j: int| 0 <= i < j < nv.len() implies crate::text::lex_le(
                    nv[i].container_name@,
                    nv[j].container_name@,
                ) by {
                    if i < p && j < p {
                        assert(nv[i] == ov[i] && nv[j] == ov[j]);
                    } else if i < p && j == p {
                        assert(nv[i] == ov[i]);
                    } else if i < p && j > p {
                        assert(nv[i] == ov[i] && nv[j] == ov[j - 1]);
                        assert(crate::text::lex_le(ov[p as int].container_name@, ov[j - 1].container_name@) || p
                            == j - 1);
                        if p < j - 1 {
                            crate::text::lemma_lex_trans(ov[i].container_name@, name@, ov[p as int].container_name@);
                            crate::text::lemma_lex_trans(
                                ov[i].container_name@,
                                ov[p as int].container_name@,
                                ov[j - 1].container_name@,
                            );
                        } else {
                            crate::text::lemma_lex_trans(ov[i].container_name@, name@, ov[p as int].container_name@);
                        }
                    } else if i == p {
                        assert(nv[j] == ov[j - 1]);
                        if p < j - 1 {
                            crate::text::lemma_lex_trans(name@, ov[p as int].container_name@, ov[j - 1].container_name@);
                        }
                    } else {
                        assert(nv[i] == ov[i - 1] && nv[j] == ov[j - 1]);
                    }
                }
                let rf = rest@.filter(offered_fn());
                assert(rf.push(c).to_multiset() =~= rf.to_multiset().insert(c));
                assert(rf.to_multiset().insert(c).add(out0.to_multiset()) =~= rf.to_multiset().add(
                    out0.to_multiset().insert(c),
                ));
            }
        }
    }
    proof {
        reveal(Seq::filter);
        assert(rest@.filter(offered_fn()) =~= Seq::<ContainerCandidate>::empty());
        rest@.filter(offered_fn()).to_multiset_ensures();
        assert(rest@.filter(offered_fn()).to_multiset() =~= vstd::multiset::Multiset::<ContainerCandidate>::empty());
        assert(vstd::multiset::Multiset::<ContainerCandidate>::empty().add(out@.to_multiset()) =~= out@.to_multiset());
    }
    out
}

// ---------------------------------------------------------------- laws

proof fn lemma_filter_cp_none(s: Seq<(u16, Seq<char>, u16)>, cp: u16)
    requires
        forall|i: int| 0 <= i < s.len() ==> (#[trigger] s[i]).0 != cp,
    ensures
        filter_cp(s, cp).len() == 0,
    decreases s.len(),
{
    if s.len() > 0 {
        assert(s.last() == s[s.len() - 1]);
        lemma_filter_cp_none(s.drop_last(), cp);
    }
}

/// A `tailsvc.port` label fixes the container port. With no explicit backend,
/// no published binding of that port and no host networking, the backend is
/// the selected container address at the labelled port, whatever ports the
/// image exposes: the address of the only network, or of the first network
/// named by `tailsvc.network`; and nothing when the network is ambiguous or
/// missing.
pub proof fn lemma_port_label_wins(svc: DiscoveredService, p: u16, other_exposed: Vec<u16>)
    requires
        svc.labels.backend is None,
        svc.labels.port == Some(p),
        forall|i: int| 0 <= i < svc.published_ports@.len() ==> (#[trigger] svc.published_ports@[i]).container_port != p,
        !(svc.network_mode matches Some(m) && m@ == "host"@),
    ensures
        svc.labels.network is None && svc.networks@.len() == 1 ==> resolve_spec(svc) == Some(
            (svc.networks@[0].1@, p),
        ),
        svc.labels.network is None && svc.networks@.len() != 1 ==> resolve_spec(svc) is None,
        forall|k: int|
            0 <= k < svc.networks@.len() && (svc.labels.network matches Some(n) && svc.networks@[k].0@ == n@)
                && (forall|j: int| 0 <= j < k ==> !(svc.labels.network matches Some(n) && (#[trigger] svc.networks@[j]).0@ == n@))
                ==> resolve_spec(svc) == Some((#[trigger] svc.networks@[k].1@, p)),
        resolve_spec(DiscoveredService { exposed_ports: other_exposed, ..svc }) == resolve_spec(svc),
{
    let pv = ports_view(svc.published_ports@);
    assert forall|i: int| 0 <= i < pv.len() implies (#[trigger] pv[i]).0 != p by {
        assert(pv[i] == svc.published_ports@[i]@);
    }
    lemma_filter_cp_none(pv, p);
    let nv = nets_view(svc.networks@);
    if svc.labels.network is None && svc.networks@.len() == 1 {
        assert(nv[0] == (svc.networks@[0].0@, svc.networks@[0].1@));
    }
    assert forall|k: int|
        0 <= k < svc.networks@.len() && (svc.labels.network matches Some(n) && svc.networks@[k].0@ == n@)
            && (forall|j: int| 0 <= j < k ==> !(svc.labels.network matches Some(n) && (#[trigger] svc.networks@[j]).0@ == n@))
            implies resolve_spec(svc) == Some((#[trigger] svc.networks@[k].1@, p)) by {
        let n = svc.labels.network->Some_0;
        assert forall|j: int| 0 <= j < k implies (#[trigger] nv[j]).0 != n@ by {
            assert(nv[j] == (svc.networks@[j].0@, svc.networks@[j].1@));
            assert(!(svc.labels.network matches Some(n) && svc.networks@[j].0@ == n@));
        }
        lemma_net_lookup_index(nv, n@, k);
        assert(nv.subrange(k, nv.len() as int)[0] == nv[k]);
        assert(nv[k] == (svc.networks@[k].0@, svc.networks@[k].1@));
    }
}

/// Whether an inspected network has a non-empty address.
pub open spec fn has_address(e: (String, Option<String>)) -> bool {
    e.1 matches Some(ip) && ip@.len() > 0
}

/// The name and address of an inspected network.
pub open spec fn name_and_address(e: (String, Option<String>)) -> (Seq<char>, Seq<char>) {
    (e.0@, e.1->Some_0@)
}

/// The discovered networks are exactly the inspected networks that have an
/// address, in order, each with its name and address: every such network
/// is kept and nothing else is.
pub proof fn lemma_networks_with_addresses(entries: Seq<(String, Option<String>)>)
    ensures
        nets_from(entries) == entries.filter(|e: (String, Option<String>)| has_address(e)).map_values(
            |e: (String, Option<String>)| name_and_address(e),
        ),
        forall|i: int|
            0 <= i < entries.len() && has_address(#[trigger] entries[i]) ==> nets_from(entries).contains(
                name_and_address(entries[i]),
            ),
        forall|x: (Seq<char>, Seq<char>)|
            #[trigger] nets_from(entries).contains(x) ==> exists|i: int|
                0 <= i < entries.len() && has_address(entries[i]) && x == name_and_address(#[trigger] entries[i]),
    decreases entries.len(),
{
    reveal(Seq::filter);
    let f = |e: (String, Option<String>)| has_address(e);
    let g = |e: (String, Option<String>)| name_and_address(e);
    if entries.len() > 0 {
        lemma_networks_with_addresses(entries.drop_last());
        let t = entries.drop_last();
        let prev = nets_from(t);
        assert(prev == t.filter(f).map_values(g));
        if f(entries.last()) {
            assert(entries.filter(f) == t.filter(f).push(entries.last()));
            assert(t.filter(f).push(entries.last()).map_values(g) =~= t.filter(f).map_values(g).push(g(entries.last())));
        } else {
            assert(entries.filter(f) == t.filter(f));
        }
        assert(nets_from(entries) == entries.filter(f).map_values(g));
        assert forall|i: int| 0 <= i < entries.len() && has_address(#[trigger] entries[i]) implies nets_from(
            entries,
        ).contains(name_and_address(entries[i])) by {
            if i < entries.len() - 1 {
                assert(t[i] == entries[i]);
                assert(prev.contains(name_and_address(t[i])));
                let k = choose|k: int| 0 <= k < prev.len() && prev[k] == name_and_address(t[i]);
                assert(nets_from(entries)[k] == prev[k]);
            } else {
                assert(entries[i] == entries.last());
                assert(nets_from(entries)[prev.len() as int] == name_and_address(entries[i]));
            }
        }
        assert forall|x: (Seq<char>, Seq<char>)| #[trigger] nets_from(entries).contains(x) implies exists|i: int|
            0 <= i < entries.len() && has_address(entries[i]) && x == name_and_address(#[trigger] entries[i]) by {
            let k = choose|k: int| 0 <= k < nets_from(entries).len() && nets_from(entries)[k] == x;
            if k < prev.len() {
                assert(nets_from(entries)[k] == prev[k]);
                assert(prev.contains(x));
                let i = choose|i: int| 0 <= i < t.len() && has_address(t[i]) && x == name_and_address(#[trigger] t[i]);
                assert(t[i] == entries[i]);
            } else {
                let i = entries.len() - 1;
                assert(entries[i] == entries.last());
            }
        }
    } else {
        assert(entries.filter(f).map_values(g) =~= Seq::<(Seq<char>, Seq<char>)>::empty());
    }
}

/// On the host network, with no single published binding, a container that
/// exposes exactly one port `p` is suggested at `127.0.0.1:p`, whatever
/// networks it reports.
pub proof fn lemma_host_network_suggestion(
    published: Seq<(u16, Seq<char>, u16)>,
    exposed: Seq<u16>,
    nets: Seq<(Seq<char>, Seq<char>)>,
)
    requires
        published.len() != 1,
        exposed.len() == 1,
    ensures
        suggest_spec(Some("host"@), published, exposed, nets) == Some(("127.0.0.1"@, exposed[0])),
{
}

/// A strictly ascending list holding exactly one value is that value alone
/// (so the TCP port list a candidate is suggested from is `[p]` when `p` is
/// its only exposed TCP port).
pub proof fn lemma_sorted_single(s: Seq<u16>, p: u16)
    requires
        strictly_sorted(s),
        forall|x: u16| #[trigger] s.contains(x) <==> x == p,
    ensures
        s == seq![p],
{
    assert(s.contains(p));
    let k = choose|k: int| 0 <= k < s.len() && s[k] == p;
    if s.len() > 1 {
        let other = if k == 0 { 1int } else { 0int };
        assert(s.contains(s[other]));
        assert(s[other] == p);
        if other < k {
            assert(s[other] < s[k]);
        } else {
            assert(s[k] < s[other]);
        }
    }
    assert(s =~= seq![p]);
}
} // verus!
