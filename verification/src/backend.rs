//! Validated HTTP backend targets (`http://host:port` only).

use vstd::prelude::*;
use crate::error::Error;
use crate::text::{
    chars_eq, contains_char, decimal_chars, decimal_seq, from_chars, has_control, has_control_char,
    push_chars, push_str, to_chars, trim_chars, trim_seq,
};

verus! {

/// Validated HTTP backend target for v1 (`http://host:port` only).
#[derive(Clone, Debug, PartialEq, Eq)]
pub struct Backend {
    pub host: String,
    pub port: u16,
}

/// `host:port`, with IPv6 literals put in brackets.
pub open spec fn authority_spec(host: Seq<char>, port: u16) -> Seq<char> {
    if host.contains(':') && !(host.len() > 0 && host[0] == '[') {
        "["@ + host + "]:"@ + decimal_seq(port as nat)
    } else {
        host + ":"@ + decimal_seq(port as nat)
    }
}

/// `http://{authority}/`.
pub open spec fn base_url_spec(host: Seq<char>, port: u16) -> Seq<char> {
    "http://"@ + authority_spec(host, port) + "/"@
}

impl Backend {
    /// A copy of this backend.
    pub fn duplicate(&self) -> (r: Backend)
        ensures
            r.host@ == self.host@,
            r.port == self.port,
    {
        Backend { host: self.host.clone(), port: self.port }
    }

    pub fn authority_chars(&self) -> (r: Vec<char>)
        ensures
            r@ == authority_spec(self.host@, self.port),
    {
        let h = to_chars(self.host.as_str());
        let mut out: Vec<char> = Vec::new();
        let bracket = contains_char(&h, ':') && !(h.len() > 0 && h[0] == '[');
        if bracket {
            push_str(&mut out, "[");
            push_chars(&mut out, &h);
            push_str(&mut out, "]:");
        } else {
            push_chars(&mut out, &h);
            push_str(&mut out, ":");
        }
        let d = decimal_chars(self.port as u64);
        push_chars(&mut out, &d);
        out
    }

    pub fn authority(&self) -> (r: String)
        ensures
            r@ == authority_spec(self.host@, self.port),
    {
        let a = self.authority_chars();
        from_chars(&a)
    }

    pub fn base_url(&self) -> (r: String)
        ensures
            r@ == base_url_spec(self.host@, self.port),
    {
        let mut out: Vec<char> = Vec::new();
        push_str(&mut out, "http://");
        let a = self.authority_chars();
        push_chars(&mut out, &a);
        push_str(&mut out, "/");
        from_chars(&out)
    }

    pub fn fingerprint(&self) -> (r: String)
        ensures
            r@ == base_url_spec(self.host@, self.port),
    {
        self.base_url()
    }
}

/// The parts of a parsed URL that the backend rules read.
pub struct UrlParts {
    pub scheme: String,
    pub username: String,
    pub password: Option<String>,
    pub path: String,
    pub query: Option<String>,
    pub host: Option<String>,
    pub port: Option<u16>,
}

pub open spec fn opt_view(o: Option<String>) -> Option<Seq<char>> {
    match o {
        Some(s) => Some(s@),
        None => None,
    }
}

impl View for UrlParts {
    type V = (
        Seq<char>,
        Seq<char>,
        Option<Seq<char>>,
        Seq<char>,
        Option<Seq<char>>,
        Option<Seq<char>>,
        Option<u16>,
    );

    open spec fn view(&self) -> Self::V {
        (
            self.scheme@,
            self.username@,
            opt_view(self.password),
            self.path@,
            opt_view(self.query),
            opt_view(self.host),
            self.port,
        )
    }
}

/// What `url::Url::parse` gives for an input: scheme, username, password,
/// path, query, host and explicit port of the URL, or the error's text.
pub uninterp spec fn url_parse(input: Seq<char>) -> Result<
    (
        Seq<char>,
        Seq<char>,
        Option<Seq<char>>,
        Seq<char>,
        Option<Seq<char>>,
        Option<Seq<char>>,
        Option<u16>,
    ),
    Seq<char>,
>;

/// Calls `url::Url::parse` and reads `scheme()`, `username()`, `password()`,
/// `path()`, `query()`, `host_str()` and `port()` of the result. The contract
/// only ties the result to the input through `url_parse`; the WHATWG parsing
/// rules themselves are not stated.
#[verifier::external_body]
fn parse_url(input: &str) -> (r: Result<UrlParts, String>)
    ensures
        match r {
            Ok(p) => url_parse(input@) == Ok::<_, Seq<char>>(p@),
            Err(m) => url_parse(input@) == Err::<
                (
                    Seq<char>,
                    Seq<char>,
                    Option<Seq<char>>,
                    Seq<char>,
                    Option<Seq<char>>,
                    Option<Seq<char>>,
                    Option<u16>,
                ),
                Seq<char>,
            >(m@),
        },
{
    match url::Url::parse(input) {
        Ok(u) => Ok(UrlParts {
            scheme: u.scheme().to_string(),
            username: u.username().to_string(),
            password: u.password().map(|s| s.to_string()),
            path: u.path().to_string(),
            query: u.query().map(|s| s.to_string()),
            host: u.host_str().map(|s| s.to_string()),
            port: u.port(),
        }),
        Err(e) => Err(e.to_string()),
    }
}

/// The backend that the URL parts describe, if they are an `http://host[:port]` URL.
pub open spec fn backend_from_parts_spec(
    p: (
        Seq<char>,
        Seq<char>,
        Option<Seq<char>>,
        Seq<char>,
        Option<Seq<char>>,
        Option<Seq<char>>,
        Option<u16>,
    ),
) -> Option<(Seq<char>, u16)> {
    let (scheme, username, password, path, query, host, port) = p;
    if scheme != "http"@ {
        None
    } else if username.len() != 0 || password is Some {
        None
    } else if path != "/"@ && path.len() != 0 {
        None
    } else if query is Some {
        None
    } else if host is None {
        None
    } else {
        let pt: u16 = match port {
            Some(x) => x,
            None => 80,
        };
        if pt == 0 {
            None
        } else {
            Some((host->Some_0, pt))
        }
    }
}

/// Result of `parse_backend_url`: the backend, or `None` when it is rejected.
pub open spec fn parse_backend_spec(raw: Seq<char>) -> Option<(Seq<char>, u16)> {
    let t = trim_seq(raw);
    if t.len() == 0 || has_control(t) {
        None
    } else {
        match url_parse(t) {
            Err(_) => None,
            Ok(p) => backend_from_parts_spec(p),
        }
    }
}

fn str_is(s: &String, lit: &str) -> (r: bool)
    ensures
        r == (s@ == lit@),
{
    let a = to_chars(s.as_str());
    let b = to_chars(lit);
    chars_eq(&a, &b)
}

/// Checks the parts of a parsed URL against the v1 backend rules.
pub fn backend_from_url_parts(p: &UrlParts) -> (r: Result<Backend, Error>)
    ensures
        match r {
            Ok(b) => backend_from_parts_spec(p@) == Some((b.host@, b.port)),
            Err(e) => backend_from_parts_spec(p@) is None && e is InvalidBackend,
        },
{
    if !str_is(&p.scheme, "http") {
        return Err(Error::InvalidBackend("only http scheme supported".to_string()));
    }
    if to_chars(p.username.as_str()).len() != 0 || p.password.is_some() {
        return Err(Error::InvalidBackend("credentials not allowed".to_string()));
    }
    if !str_is(&p.path, "/") && to_chars(p.path.as_str()).len() != 0 {
        return Err(Error::InvalidBackend("path not allowed".to_string()));
    }
    if p.query.is_some() {
        return Err(Error::InvalidBackend("query not allowed".to_string()));
    }
    match &p.host {
        None => Err(Error::InvalidBackend("missing host".to_string())),
        Some(h) => {
            let port: u16 = match p.port {
                Some(x) => x,
                None => 80,
            };
            if port == 0 {
                return Err(Error::InvalidBackend("invalid port".to_string()));
            }
            Ok(Backend { host: h.clone(), port })
        },
    }
}

/// Parses an `http://host:port` backend URL.
pub fn parse_backend_url(raw: &str) -> (r: Result<Backend, Error>)
    ensures
        match r {
            Ok(b) => parse_backend_spec(raw@) == Some((b.host@, b.port)),
            Err(e) => parse_backend_spec(raw@) is None && e is InvalidBackend,
        },
{
    let chars = to_chars(raw);
    let trimmed = trim_chars(&chars);
    if trimmed.len() == 0 {
        return Err(Error::InvalidBackend("empty".to_string()));
    }
    if has_control_char(&trimmed) {
        return Err(Error::InvalidBackend("control characters".to_string()));
    }
    let t = from_chars(&trimmed);
    match parse_url(t.as_str()) {
        Err(m) => Err(Error::InvalidBackend(m)),
        Ok(parts) => backend_from_url_parts(&parts),
    }
}

} // verus!
