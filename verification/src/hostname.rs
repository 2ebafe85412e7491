//! Hostname normalization and validation (lowercase, IDNA punycode).

use vstd::prelude::*;
use crate::error::Error;
use crate::text::{
    all_digits, contains_char, from_chars, is_ascii_upper, lower_chars, lower_seq, split_chars,
    split_seq, to_chars, trim_chars, trim_seq, push_str,
};

verus! {

/// What `idna::domain_to_ascii` gives back for a domain: the ASCII form, or
/// the text of its error.
pub uninterp spec fn idna_domain_to_ascii(domain: Seq<char>) -> Result<Seq<char>, Seq<char>>;

/// Calls `idna::domain_to_ascii` (UTS #46 "domain to ASCII", punycode for
/// non-ASCII labels); an error is handed back as its text (`to_string`). The
/// contract only ties the result to the argument through
/// `idna_domain_to_ascii`; what that mapping is, is not stated.
#[verifier::external_body]
fn domain_to_ascii(domain: &str) -> (r: Result<String, String>)
    ensures
        match r {
            Ok(a) => idna_domain_to_ascii(domain@) == Ok::<Seq<char>, Seq<char>>(a@),
            Err(m) => idna_domain_to_ascii(domain@) == Err::<Seq<char>, Seq<char>>(m@),
        },
{
    idna::domain_to_ascii(domain).map_err(|e| e.to_string())
}

/// Normalized hostname (lowercase, IDNA punycode for internationalized labels).
#[derive(Clone, Debug, PartialEq, Eq, Hash)]
pub struct NormalizedHostname(String);

impl View for NormalizedHostname {
    type V = Seq<char>;

    closed spec fn view(&self) -> Seq<char> {
        self.0@
    }
}

impl NormalizedHostname {
    pub fn as_str(&self) -> (r: &str)
        ensures
            r@ == self@,
    {
        self.0.as_str()
    }

    pub fn into_inner(self) -> (r: String)
        ensures
            r@ == self@,
    {
        self.0
    }

    /// A copy of this hostname.
    pub fn duplicate(&self) -> (r: NormalizedHostname)
        ensures
            r@ == self@,
    {
        NormalizedHostname(self.0.clone())
    }

    /// The hostname text, as it prints.
    pub fn to_string(&self) -> (r: String)
        ensures
            r@ == self@,
    {
        self.0.clone()
    }
}

pub open spec fn is_ascii_alnum(c: char) -> bool {
    ('a' <= c <= 'z') || ('A' <= c <= 'Z') || ('0' <= c <= '9')
}

pub open spec fn is_label_char(c: char) -> bool {
    is_ascii_alnum(c) || c == '-'
}

/// One DNS label as the syntax check accepts it.
pub open spec fn valid_label(l: Seq<char>) -> bool {
    &&& 0 < l.len() <= 63
    &&& l[0] != '-'
    &&& l.last() != '-'
    &&& forall|i: int| 0 <= i < l.len() ==> is_label_char(#[trigger] l[i])
}

/// Hostname syntax: at most 253 characters, no trailing dot, every
/// dot-separated label valid.
pub open spec fn valid_hostname(h: Seq<char>) -> bool {
    &&& h.len() <= 253
    &&& !(h.len() > 0 && h.last() == '.')
    &&& forall|i: int|
        0 <= i < split_seq(h, '.').len() ==> valid_label(#[trigger] split_seq(h, '.')[i])
}

/// The first character of a label that is not a letter, digit or `-`.
pub open spec fn first_bad_char(l: Seq<char>) -> Option<char> {
    if exists|i: int| 0 <= i < l.len() && !is_label_char(#[trigger] l[i]) {
        let i = choose|i: int|
            0 <= i < l.len() && !is_label_char(#[trigger] l[i]) && forall|j: int| 0 <= j < i ==> is_label_char(l[j]);
        Some(l[i])
    } else {
        None
    }
}

/// Why a label is refused, checked in this order: empty, longer than 63,
/// a hyphen at either end, a character other than a letter, digit or `-`.
pub open spec fn label_error(l: Seq<char>) -> Option<Seq<char>> {
    if l.len() == 0 {
        Some("empty label"@)
    } else if l.len() > 63 {
        Some("label too long"@)
    } else if l[0] == '-' || l.last() == '-' {
        Some("label hyphen placement"@)
    } else {
        match first_bad_char(l) {
            Some(c) => Some("invalid char: "@ + seq![c]),
            None => None,
        }
    }
}

/// Why a hostname is refused: too long, a trailing dot, else the refusal of
/// its first refused label.
pub open spec fn syntax_error(h: Seq<char>) -> Option<Seq<char>> {
    let ls = split_seq(h, '.');
    if h.len() > 253 {
        Some("too long"@)
    } else if h.len() > 0 && h.last() == '.' {
        Some("trailing dot not allowed"@)
    } else if exists|k: int| 0 <= k < ls.len() && label_error(#[trigger] ls[k]) is Some {
        let k = choose|k: int|
            0 <= k < ls.len() && label_error(#[trigger] ls[k]) is Some && forall|j: int|
                0 <= j < k ==> label_error(ls[j]) is None;
        label_error(ls[k])
    } else {
        None
    }
}

/// The message `normalize_hostname` fails with, when it fails.
pub open spec fn normalize_error(input: Seq<char>) -> Seq<char> {
    let t = trim_seq(input);
    if t.len() == 0 {
        "empty"@
    } else if t.contains(':') {
        "port not allowed in hostname"@
    } else if t.contains('/') {
        "path not allowed in hostname"@
    } else {
        match idna_domain_to_ascii(t) {
            Err(m) => "idna: "@ + m,
            Ok(a) => match syntax_error(lower_seq(a)) {
                Some(m) => m,
                None => Seq::empty(),
            },
        }
    }
}

proof fn lemma_label_error_none(l: Seq<char>)
    ensures
        label_error(l) is None <==> valid_label(l),
{
    if valid_label(l) {
        assert(!exists|i: int| 0 <= i < l.len() && !is_label_char(#[trigger] l[i]));
    }
}

proof fn lemma_syntax_error_none(h: Seq<char>)
    ensures
        syntax_error(h) is None <==> valid_hostname(h),
{
    let ls = split_seq(h, '.');
    assert forall|k: int| 0 <= k < ls.len() implies (label_error(#[trigger] ls[k]) is None <==> valid_label(ls[k])) by {
        lemma_label_error_none(ls[k]);
    }
    if h.len() <= 253 && !(h.len() > 0 && h.last() == '.') {
        if exists|k: int| 0 <= k < ls.len() && label_error(#[trigger] ls[k]) is Some {
            let k0 = choose|k: int| 0 <= k < ls.len() && label_error(#[trigger] ls[k]) is Some;
            lemma_first_index(ls, k0);
        }
    }
}

/// A label with an error has a first such label.
proof fn lemma_first_index(ls: Seq<Seq<char>>, k0: int)
    requires
        0 <= k0 < ls.len(),
        label_error(ls[k0]) is Some,
    ensures
        exists|k: int|
            0 <= k < ls.len() && label_error(#[trigger] ls[k]) is Some && forall|j: int|
                0 <= j < k ==> label_error(ls[j]) is None,
    decreases k0,
{
    if exists|j: int| 0 <= j < k0 && label_error(#[trigger] ls[j]) is Some {
        let j = choose|j: int| 0 <= j < k0 && label_error(#[trigger] ls[j]) is Some;
        lemma_first_index(ls, j);
    } else {
        assert(0 <= k0 < ls.len() && label_error(ls[k0]) is Some && forall|j: int|
            0 <= j < k0 ==> label_error(ls[j]) is None);
    }
}

pub open spec fn all_lower(h: Seq<char>) -> bool {
    forall|i: int| 0 <= i < h.len() ==> !is_ascii_upper(#[trigger] h[i])
}

/// Result of `normalize_hostname` for an input text.
pub open spec fn normalize_spec(input: Seq<char>) -> Option<Seq<char>> {
    let t = trim_seq(input);
    if t.len() == 0 || t.contains(':') || t.contains('/') {
        None
    } else {
        match idna_domain_to_ascii(t) {
            Err(_) => None,
            Ok(a) => {
                let l = lower_seq(a);
                if valid_hostname(l) {
                    Some(l)
                } else {
                    None
                }
            },
        }
    }
}

fn label_check(l: &[char]) -> (r: Option<String>)
    ensures
        match r {
            Some(m) => label_error(l@) == Some(m@),
            None => label_error(l@) is None,
        },
{
    if l.len() == 0 {
        return Some("empty label".to_string());
    }
    if l.len() > 63 {
        return Some("label too long".to_string());
    }
    if l[0] == '-' || l[l.len() - 1] == '-' {
        return Some("label hyphen placement".to_string());
    }
    let mut i: usize = 0;
    while i < l.len()
        invariant
            i <= l.len(),
            0 < l@.len() <= 63,
            !(l@[0] == '-' || l@.last() == '-'),
            forall|j: int| 0 <= j < i ==> is_label_char(#[trigger] l@[j]),
        decreases l.len() - i,
    {
        let c = l[i];
        let ok = ('a' <= c && c <= 'z') || ('A' <= c && c <= 'Z') || ('0' <= c && c <= '9') || c
            == '-';
        if !ok {
            proof {
                assert(!is_label_char(l@[i as int]));
                let k = choose|k: int|
                    0 <= k < l@.len() && !is_label_char(#[trigger] l@[k]) && forall|j: int|
                        0 <= j < k ==> is_label_char(l@[j]);
                if k < i {
                    assert(is_label_char(l@[k]));
                }
                if k > i {
                    assert(is_label_char(l@[i as int]));
                }
                assert(first_bad_char(l@) == Some(c));
            }
            let mut out: Vec<char> = Vec::new();
            push_str(&mut out, "invalid char: ");
            out.push(c);
            proof {
                reveal_strlit("invalid char: ");
                assert(out@ =~= "invalid char: "@ + seq![c]);
                assert(l@.len() > 0 && l@.len() <= 63);
                assert(!(l@[0] == '-' || l@.last() == '-'));
                assert(label_error(l@) == Some("invalid char: "@ + seq![c]));
            }
            let msg = from_chars(&out);
            assert(msg@ == out@);
            return Some(msg);
        }
        i = i + 1;
    }
    None
}

fn hostname_check(h: &[char]) -> (r: Option<String>)
    ensures
        match r {
            Some(m) => syntax_error(h@) == Some(m@),
            None => syntax_error(h@) is None,
        },
{
    if h.len() > 253 {
        return Some("too long".to_string());
    }
    if h.len() > 0 && h[h.len() - 1] == '.' {
        return Some("trailing dot not allowed".to_string());
    }
    let labels = split_chars(h, '.');
    let ghost pieces = split_seq(h@, '.');
    assert(labels@.map_values(|p: Vec<char>| p@) == pieces);
    let mut i: usize = 0;
    while i < labels.len()
        invariant
            i <= labels.len(),
            labels@.map_values(|p: Vec<char>| p@) == pieces,
            pieces == split_seq(h@, '.'),
            h@.len() <= 253,
            !(h@.len() > 0 && h@.last() == '.'),
            forall|j: int| 0 <= j < i ==> label_error(#[trigger] pieces[j]) is None,
        decreases labels.len() - i,
    {
        assert(pieces[i as int] == labels@[i as int]@);
        match label_check(&labels[i]) {
            Some(m) => {
                proof {
                    let k = choose|k: int|
                        0 <= k < pieces.len() && label_error(#[trigger] pieces[k]) is Some && forall|j: int|
                            0 <= j < k ==> label_error(pieces[j]) is None;
                    if k < i {
                        assert(label_error(pieces[k]) is None);
                    }
                    if k > i {
                        assert(label_error(pieces[i as int]) is None);
                    }
                }
                return Some(m);
            },
            None => {},
        }
        i = i + 1;
    }
    None
}

/// Checks hostname syntax (length, labels, characters); the error says which
/// check failed.
pub fn validate_hostname_syntax(host: &str) -> (r: Result<(), Error>)
    ensures
        r is Ok <==> valid_hostname(host@),
        r is Ok <==> syntax_error(host@) is None,
        r matches Err(e) ==> (e matches Error::InvalidHostname(m) && syntax_error(host@) == Some(m@)),
{
    let h = to_chars(host);
    proof {
        lemma_syntax_error_none(host@);
    }
    match hostname_check(&h) {
        None => Ok(()),
        Some(m) => Err(Error::InvalidHostname(m)),
    }
}

proof fn lemma_lower_is_lower(a: Seq<char>)
    ensures
        all_lower(lower_seq(a)),
{
    assert forall|i: int| 0 <= i < lower_seq(a).len() implies !is_ascii_upper(
        #[trigger] lower_seq(a)[i],
    ) by {
        let c = a[i];
        if is_ascii_upper(c) {
            assert((c as u32) + 32 <= 'z' as u32);
        }
    }
}

/// Lower-cases an ASCII domain and checks its syntax.
pub fn hostname_from_ascii(ascii: &str) -> (r: Result<NormalizedHostname, Error>)
    ensures
        match r {
            Ok(h) => valid_hostname(lower_seq(ascii@)) && h@ == lower_seq(ascii@),
            Err(e) => !valid_hostname(lower_seq(ascii@)) && (e matches Error::InvalidHostname(m) && syntax_error(
                lower_seq(ascii@),
            ) == Some(m@)),
        },
{
    let a = to_chars(ascii);
    let lower = lower_chars(&a);
    proof {
        lemma_syntax_error_none(lower@);
    }
    match hostname_check(&lower) {
        None => Ok(NormalizedHostname(from_chars(&lower))),
        Some(m) => Err(Error::InvalidHostname(m)),
    }
}

/// Normalize and validate a hostname for registration/DNS.
pub fn normalize_hostname(input: &str) -> (r: Result<NormalizedHostname, Error>)
    ensures
        match r {
            Ok(h) => normalize_spec(input@) == Some(h@),
            Err(e) => normalize_spec(input@) is None && (e matches Error::InvalidHostname(m) && m@ == normalize_error(
                input@,
            )),
        },
        r matches Ok(h) ==> valid_hostname(h@) && all_lower(h@),
{
    let raw = to_chars(input);
    let trimmed = trim_chars(&raw);
    if trimmed.len() == 0 {
        return Err(Error::InvalidHostname("empty".to_string()));
    }
    if contains_char(&trimmed, ':') {
        return Err(Error::InvalidHostname("port not allowed in hostname".to_string()));
    }
    if contains_char(&trimmed, '/') {
        return Err(Error::InvalidHostname("path not allowed in hostname".to_string()));
    }
    let t = from_chars(&trimmed);
    match domain_to_ascii(t.as_str()) {
        Err(m) => {
            let mut out: Vec<char> = Vec::new();
            push_str(&mut out, "idna: ");
            let mc = to_chars(m.as_str());
            crate::text::push_chars(&mut out, &mc);
            Err(Error::InvalidHostname(from_chars(&out)))
        },
        Ok(ascii) => {
            let r = hostname_from_ascii(ascii.as_str());
            proof {
                lemma_lower_is_lower(ascii@);
            }
            r
        },
    }
}

// ---------------------------------------------------------------- host lists

/// Each piece normalized, or `None` if any piece fails.
pub open spec fn normalize_parts(parts: Seq<Seq<char>>) -> Option<Seq<Seq<char>>>
    decreases parts.len(),
{
    if parts.len() == 0 {
        Some(Seq::empty())
    } else {
        match (normalize_parts(parts.drop_last()), normalize_spec(parts.last())) {
            (Some(a), Some(b)) => Some(a.push(b)),
            _ => None,
        }
    }
}

/// First occurrences only, in order.
pub open spec fn dedupe<A>(s: Seq<A>) -> Seq<A>
    decreases s.len(),
{
    if s.len() == 0 {
        Seq::empty()
    } else {
        let d = dedupe(s.drop_last());
        if d.contains(s.last()) {
            d
        } else {
            d.push(s.last())
        }
    }
}

/// Result of `parse_host_list` for a raw comma-separated list.
pub open spec fn parse_host_list_spec(raw: Seq<char>) -> Option<Seq<Seq<char>>> {
    match normalize_parts(split_seq(raw, ',')) {
        None => None,
        Some(n) => if dedupe(n).len() == 0 {
            None
        } else {
            Some(dedupe(n))
        },
    }
}

pub open spec fn host_views(v: Seq<NormalizedHostname>) -> Seq<Seq<char>> {
    v.map_values(|h: NormalizedHostname| h@)
}

pub open spec fn no_duplicates<A>(s: Seq<A>) -> bool {
    forall|i: int, j: int| 0 <= i < j < s.len() ==> s[i] != s[j]
}

proof fn lemma_normalize_parts_prefix_none(parts: Seq<Seq<char>>, k: int)
    requires
        0 <= k <= parts.len(),
        normalize_parts(parts.take(k)) is None,
    ensures
        normalize_parts(parts) is None,
    decreases parts.len() - k,
{
    if k < parts.len() {
        assert(parts.drop_last().take(k) == parts.take(k));
        lemma_normalize_parts_prefix_none(parts.drop_last(), k);
    } else {
        assert(parts.take(k) == parts);
    }
}

pub proof fn lemma_dedupe_no_duplicates<A>(s: Seq<A>)
    ensures
        no_duplicates(dedupe(s)),
        forall|x: A| #[trigger] dedupe(s).contains(x) <==> s.contains(x),
    decreases s.len(),
{
    if s.len() > 0 {
        let t = s.drop_last();
        let d = dedupe(t);
        lemma_dedupe_no_duplicates(t);
        assert forall|x: A| #[trigger] dedupe(s).contains(x) <==> s.contains(x) by {
            if s.contains(x) {
                let i = choose|i: int| 0 <= i < s.len() && s[i] == x;
                if i < s.len() - 1 {
                    assert(t[i] == x);
                    assert(t.contains(x));
                    assert(d.contains(x));
                    if !d.contains(s.last()) {
                        assert(d.push(s.last())[d.push(s.last()).len() - 1] == s.last());
                        let k = choose|k: int| 0 <= k < d.len() && d[k] == x;
                        assert(d.push(s.last())[k] == x);
                    }
                } else {
                    assert(x == s.last());
                    if !d.contains(s.last()) {
                        assert(d.push(s.last())[d.len() as int] == x);
                    }
                }
            }
            if dedupe(s).contains(x) {
                if d.contains(x) {
                    assert(t.contains(x));
                    let i = choose|i: int| 0 <= i < t.len() && t[i] == x;
                    assert(s[i] == x);
                } else {
                    let k = choose|k: int| 0 <= k < dedupe(s).len() && dedupe(s)[k] == x;
                    assert(!d.contains(s.last()));
                    if k < d.len() {
                        assert(d.push(s.last())[k] == d[k]);
                        assert(d.contains(x));
                    }
                    assert(x == s.last());
                    assert(s[s.len() - 1] == x);
                }
            }
        }
        if !d.contains(s.last()) {
            let e = d.push(s.last());
            assert forall|i: int, j: int| 0 <= i < j < e.len() implies e[i] != e[j] by {
                if j == e.len() - 1 {
                    assert(e[i] == d[i]);
                    if e[i] == e[j] {
                        assert(d.contains(s.last()));
                    }
                }
            }
        }
    }
}

proof fn lemma_normalize_parts_valid(parts: Seq<Seq<char>>, n: Seq<Seq<char>>)
    requires
        normalize_parts(parts) == Some(n),
    ensures
        n.len() == parts.len(),
        forall|i: int| 0 <= i < n.len() ==> normalize_spec(parts[i]) == Some(#[trigger] n[i]),
    decreases parts.len(),
{
    if parts.len() > 0 {
        let a = normalize_parts(parts.drop_last())->Some_0;
        lemma_normalize_parts_valid(parts.drop_last(), a);
        assert forall|i: int| 0 <= i < n.len() implies normalize_spec(parts[i]) == Some(
            #[trigger] n[i],
        ) by {
            if i < n.len() - 1 {
                assert(n[i] == a[i]);
                assert(parts[i] == parts.drop_last()[i]);
            }
        }
    }
}

fn contains_host(out: &Vec<NormalizedHostname>, h: &NormalizedHostname) -> (r: bool)
    ensures
        r == host_views(out@).contains(h@),
{
    let mut i: usize = 0;
    while i < out.len()
        invariant
            i <= out.len(),
            forall|j: int| 0 <= j < i ==> out@[j]@ != h@,
        decreases out.len() - i,
    {
        if out[i].0 == h.0 {
            assert(host_views(out@)[i as int] == h@);
            return true;
        }
        i = i + 1;
    }
    assert forall|j: int| 0 <= j < host_views(out@).len() implies host_views(out@)[j] != h@ by {
        assert(host_views(out@)[j] == out@[j]@);
    }
    false
}

/// Parse comma-separated host list; dedupe; reject on any invalid entry.
pub fn parse_host_list(raw: &str) -> (r: Result<Vec<NormalizedHostname>, Error>)
    ensures
        match r {
            Ok(v) => parse_host_list_spec(raw@) == Some(host_views(v@)),
            Err(e) => parse_host_list_spec(raw@) is None && e is InvalidHostname,
        },
        r matches Ok(v) ==> v@.len() >= 1 && no_duplicates(host_views(v@)),
{
    let chars = to_chars(raw);
    let parts = split_chars(&chars, ',');
    let ghost pv = split_seq(raw@, ',');
    let mut out: Vec<NormalizedHostname> = Vec::new();
    let mut i: usize = 0;
    let ghost mut n: Seq<Seq<char>> = Seq::empty();
    assert(pv.take(0) =~= Seq::<Seq<char>>::empty());
    while i < parts.len()
        invariant
            i <= parts.len(),
            parts@.map_values(|p: Vec<char>| p@) == pv,
            pv == split_seq(raw@, ','),
            normalize_parts(pv.take(i as int)) == Some(n),
            host_views(out@) == dedupe(n),
        decreases parts.len() - i,
    {
        assert(pv[i as int] == parts@[i as int]@);
        assert(pv.take(i + 1).drop_last() == pv.take(i as int));
        let s = from_chars(&parts[i]);
        match normalize_hostname(s.as_str()) {
            Err(e) => {
                proof {
                    assert(pv.take(i + 1).last() == pv[i as int]);
                    assert(normalize_spec(pv.take(i + 1).last()) is None);
                    lemma_normalize_parts_prefix_none(pv, i + 1);
                }
                return Err(e);
            },
            Ok(h) => {
                let ghost old_n = n;
                proof {
                    n = n.push(h@);
                }
                assert(n.drop_last() == old_n);
                if !contains_host(&out, &h) {
                    out.push(h);
                    assert(host_views(out@) =~= dedupe(old_n).push(n.last()));
                }
            },
        }
        i = i + 1;
    }
    assert(pv.take(parts.len() as int) == pv);
    proof {
        lemma_dedupe_no_duplicates(n);
    }
    if out.len() == 0 {
        return Err(Error::InvalidHostname("at least one hostname required".to_string()));
    }
    Ok(out)
}

/// A parsed host list is never empty.
pub proof fn lemma_parse_host_list_nonempty(hosts: Seq<Seq<char>>)
    ensures
        forall|raw: Seq<char>| parse_host_list_spec(raw) == Some(hosts) ==> hosts.len() >= 1,
{
}

} // verus!
