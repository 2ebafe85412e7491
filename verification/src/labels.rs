//! Docker label parsing (`tailsvc.*`).

use vstd::prelude::*;
use crate::backend::{parse_backend_spec, parse_backend_url, Backend};
use crate::error::Error;
use crate::hostname::{host_views, parse_host_list, parse_host_list_spec, NormalizedHostname};
use crate::text::{
    chars_eq_ignore_case, eq_ignore_case, from_chars, parse_u32, parse_u32_spec, push_str,
    to_chars, trim_chars, trim_seq,
};

verus! {

/// What a container's `tailsvc.*` labels ask for.
#[derive(Clone, Debug, PartialEq, Eq)]
pub struct ServiceLabels {
    pub hosts: Vec<NormalizedHostname>,
    pub port: Option<u16>,
    pub backend: Option<Backend>,
    pub network: Option<String>,
}

pub open spec fn backend_view(b: Option<Backend>) -> Option<(Seq<char>, u16)> {
    match b {
        Some(x) => Some((x.host@, x.port)),
        None => None,
    }
}

pub open spec fn string_opt_view(o: Option<String>) -> Option<Seq<char>> {
    match o {
        Some(s) => Some(s@),
        None => None,
    }
}

impl View for ServiceLabels {
    type V = (Seq<Seq<char>>, Option<u16>, Option<(Seq<char>, u16)>, Option<Seq<char>>);

    open spec fn view(&self) -> Self::V {
        (host_views(self.hosts@), self.port, backend_view(self.backend), string_opt_view(self.network))
    }
}

/// Label pairs as text.
pub open spec fn pairs_view(m: Seq<(String, String)>) -> Seq<(Seq<char>, Seq<char>)> {
    m.map_values(|p: (String, String)| (p.0@, p.1@))
}

/// `tailsvc.` followed by `name`.
pub open spec fn label_key(name: Seq<char>) -> Seq<char> {
    "tailsvc."@ + name
}

/// Value of the first label whose key is `tailsvc.{name}`, ignoring ASCII case.
pub open spec fn find_label(m: Seq<(Seq<char>, Seq<char>)>, name: Seq<char>) -> Option<Seq<char>>
    decreases m.len(),
{
    if m.len() == 0 {
        None
    } else if eq_ignore_case(m[0].0, label_key(name)) {
        Some(m[0].1)
    } else {
        find_label(m.drop_first(), name)
    }
}

/// Result of `parse_port` (1..=65535 after trimming).
pub open spec fn parse_port_spec(s: Seq<char>) -> Option<u16> {
    match parse_u32_spec(trim_seq(s)) {
        Some(n) => if 1 <= n <= 65535 {
            Some(n as u16)
        } else {
            None
        },
        None => None,
    }
}

/// Result of `labels_from_map` for label pairs.
pub open spec fn labels_spec(m: Seq<(Seq<char>, Seq<char>)>) -> Option<
    (Seq<Seq<char>>, Option<u16>, Option<(Seq<char>, u16)>, Option<Seq<char>>),
> {
    match find_label(m, "enable"@) {
        None => None,
        Some(enable) => if !eq_ignore_case(enable, "true"@) {
            None
        } else {
            match find_label(m, "hosts"@) {
                None => None,
                Some(hosts_raw) => match parse_host_list_spec(hosts_raw) {
                    None => None,
                    Some(hosts) => {
                        let port = match find_label(m, "port"@) {
                            Some(v) => parse_port_spec(v),
                            None => None,
                        };
                        let backend = match find_label(m, "backend"@) {
                            Some(v) => parse_backend_spec(v),
                            None => None,
                        };
                        let network = match find_label(m, "network"@) {
                            Some(v) => if trim_seq(v).len() > 0 {
                                Some(trim_seq(v))
                            } else {
                                None
                            },
                            None => None,
                        };
                        Some((hosts, port, backend, network))
                    },
                },
            }
        },
    }
}

proof fn lemma_find_label_index(m: Seq<(Seq<char>, Seq<char>)>, name: Seq<char>, i: int)
    requires
        0 <= i <= m.len(),
        forall|j: int| 0 <= j < i ==> !eq_ignore_case(#[trigger] m[j].0, label_key(name)),
    ensures
        find_label(m, name) == find_label(m.subrange(i, m.len() as int), name),
    decreases i,
{
    if i > 0 {
        assert(m.drop_first().subrange(i - 1, m.drop_first().len() as int) =~= m.subrange(
            i,
            m.len() as int,
        ));
        assert(!eq_ignore_case(m[0].0, label_key(name)));
        lemma_find_label_index(m.drop_first(), name, i - 1);
    } else {
        assert(m.subrange(0, m.len() as int) =~= m);
    }
}

fn find(labels: &Vec<(String, String)>, name: &str) -> (r: Option<String>)
    ensures
        string_opt_view(r) == find_label(pairs_view(labels@), name@),
{
    let mut key: Vec<char> = Vec::new();
    push_str(&mut key, "tailsvc.");
    push_str(&mut key, name);
    let ghost m = pairs_view(labels@);
    let mut i: usize = 0;
    while i < labels.len()
        invariant
            i <= labels.len(),
            m == pairs_view(labels@),
            key@ == label_key(name@),
            forall|j: int| 0 <= j < i ==> !eq_ignore_case(#[trigger] m[j].0, label_key(name@)),
        decreases labels.len() - i,
    {
        let k = to_chars(labels[i].0.as_str());
        assert(m[i as int].0 == labels@[i as int].0@);
        if chars_eq_ignore_case(&k, &key) {
            proof {
                lemma_find_label_index(m, name@, i as int);
                assert(m.subrange(i as int, m.len() as int)[0] == m[i as int]);
            }
            return Some(labels[i].1.clone());
        }
        i = i + 1;
    }
    proof {
        lemma_find_label_index(m, name@, i as int);
    }
    None
}

/// Parses a port label: an integer from 1 to 65535.
pub fn parse_port(s: &str) -> (r: Result<u16, Error>)
    ensures
        match r {
            Ok(p) => parse_port_spec(s@) == Some(p),
            Err(e) => parse_port_spec(s@) is None && e is LabelParse,
        },
{
    let c = to_chars(s);
    let t = trim_chars(&c);
    match parse_u32(&t) {
        None => Err(Error::LabelParse("invalid port".to_string())),
        Some(n) => {
            if !(1 <= n && n <= 65535) {
                return Err(Error::LabelParse("port out of range".to_string()));
            }
            Ok(n as u16)
        },
    }
}

/// Reads the `tailsvc.*` labels; `None` unless `tailsvc.enable` is `true`
/// (any case) and `tailsvc.hosts` is a valid host list.
pub fn labels_from_map(labels: &Vec<(String, String)>) -> (r: Option<ServiceLabels>)
    ensures
        match r {
            Some(l) => labels_spec(pairs_view(labels@)) == Some(l@),
            None => labels_spec(pairs_view(labels@)) is None,
        },
{
    let enable = match find(labels, "enable") {
        Some(e) => e,
        None => return None,
    };
    let e = to_chars(enable.as_str());
    let t = to_chars("true");
    if !chars_eq_ignore_case(&e, &t) {
        return None;
    }
    let hosts_raw = match find(labels, "hosts") {
        Some(h) => h,
        None => return None,
    };
    let hosts = match parse_host_list(hosts_raw.as_str()) {
        Ok(h) => h,
        Err(_) => return None,
    };
    let port = match find(labels, "port") {
        Some(v) => match parse_port(v.as_str()) {
            Ok(p) => Some(p),
            Err(_) => None,
        },
        None => None,
    };
    let backend = match find(labels, "backend") {
        Some(v) => match parse_backend_url(v.as_str()) {
            Ok(b) => Some(b),
            Err(_) => None,
        },
        None => None,
    };
    let network = match find(labels, "network") {
        Some(v) => {
            let vc = to_chars(v.as_str());
            let tv = trim_chars(&vc);
            if tv.len() > 0 {
                Some(from_chars(&tv))
            } else {
                None
            }
        },
        None => None,
    };
    Some(ServiceLabels { hosts, port, backend, network })
}

/// Checks that parsed labels name at least one host.
pub fn validate_service_labels(labels: &ServiceLabels) -> (r: Result<(), Error>)
    ensures
        r is Ok <==> labels.hosts@.len() > 0,
        r matches Err(e) ==> e is LabelParse,
{
    if labels.hosts.len() == 0 {
        return Err(Error::LabelParse("no hosts".to_string()));
    }
    Ok(())
}

} // verus!
