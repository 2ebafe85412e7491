//! Error type shared by the hostname, label and backend rules.

use vstd::prelude::*;

verus! {

/// Errors of validation and resolution; each carries a short reason.
#[derive(Debug, Clone)]
pub enum Error {
    InvalidHostname(String),
    InvalidBackend(String),
    LabelParse(String),
    AmbiguousBackend(String),
    Auth,
    Conflict(String),
    Other(String),
}

impl Error {
    /// Human-readable message, as the error prints.
    pub fn message(&self) -> (r: String)
        ensures
            r@ == self.message_spec(),
    {
        match self {
            Error::InvalidHostname(m) => prefixed("invalid hostname: ", m),
            Error::InvalidBackend(m) => prefixed("invalid backend URL: ", m),
            Error::LabelParse(m) => prefixed("label parse error: ", m),
            Error::AmbiguousBackend(m) => prefixed("ambiguous backend resolution: ", m),
            Error::Auth => "authentication failed".to_string(),
            Error::Conflict(m) => prefixed("conflict: ", m),
            Error::Other(m) => m.clone(),
        }
    }

    pub open spec fn message_spec(&self) -> Seq<char> {
        match self {
            Error::InvalidHostname(m) => "invalid hostname: "@ + m@,
            Error::InvalidBackend(m) => "invalid backend URL: "@ + m@,
            Error::LabelParse(m) => "label parse error: "@ + m@,
            Error::AmbiguousBackend(m) => "ambiguous backend resolution: "@ + m@,
            Error::Auth => "authentication failed"@,
            Error::Conflict(m) => "conflict: "@ + m@,
            Error::Other(m) => m@,
        }
    }
}

fn prefixed(p: &str, m: &String) -> (r: String)
    ensures
        r@ == p@ + m@,
{
    let s = p.to_string();
    s.concat(m.as_str())
}

} // verus!
