//! IPv4 addresses in dotted-quad text, and finding the host's Tailscale address
//! in what `tailscale` and `ip` print.

use vstd::prelude::*;
use crate::error::Error;
use crate::text::{
    all_digits, contains_seq, decimal_chars, decimal_seq, digit_value, digits_value, find_pat,
    first_occurrence, has_prefix, is_digit, occurs_at, push_chars, slice_range, split_any_chars,
    split_any_seq, split_chars, split_seq, starts_with, to_chars, trim_chars, trim_seq, from_chars,
};

verus! {

/// An IPv4 address by its four octets.
pub type Ipv4 = (u8, u8, u8, u8);

/// An octet as `Ipv4Addr::from_str` reads it: one to three digits, no leading
/// zero unless the octet is `0`, value at most 255.
pub open spec fn octet_spec(p: Seq<char>) -> Option<u8> {
    if 1 <= p.len() <= 3 && all_digits(p) && !(p.len() > 1 && p[0] == '0') && digits_value(p) <= 255 {
        Some(digits_value(p) as u8)
    } else {
        None
    }
}

/// What `Ipv4Addr::from_str` gives back: four octets separated by dots.
pub open spec fn ipv4_spec(s: Seq<char>) -> Option<Ipv4> {
    let parts = split_seq(s, '.');
    if parts.len() == 4 && octet_spec(parts[0]) is Some && octet_spec(parts[1]) is Some && octet_spec(
        parts[2],
    ) is Some && octet_spec(parts[3]) is Some {
        Some(
            (
                octet_spec(parts[0])->Some_0,
                octet_spec(parts[1])->Some_0,
                octet_spec(parts[2])->Some_0,
                octet_spec(parts[3])->Some_0,
            ),
        )
    } else {
        None
    }
}

fn parse_octet(p: &[char]) -> (r: Option<u8>)
    ensures
        r == octet_spec(p@),
{
    if p.len() == 0 || p.len() > 3 {
        return None;
    }
    if p.len() > 1 && p[0] == '0' {
        return None;
    }
    let mut acc: u32 = 0;
    let mut i: usize = 0;
    while i < p.len()
        invariant
            1 <= p.len() <= 3,
            i <= p.len(),
            all_digits(p@.take(i as int)),
            acc == digits_value(p@.take(i as int)),
            i == 0 ==> acc == 0,
            i == 1 ==> acc < 10,
            i == 2 ==> acc < 100,
            i == 3 ==> acc < 1000,
        decreases p.len() - i,
    {
        let c = p[i];
        if !('0' <= c && c <= '9') {
            assert(!is_digit(p@[i as int]));
            assert(!all_digits(p@));
            return None;
        }
        assert(p@.take(i + 1).drop_last() == p@.take(i as int));
        assert(p@.take(i + 1).last() == c);
        let d: u32 = c as u32 - '0' as u32;
        assert(digit_value(c) == d);
        acc = acc * 10 + d;
        i = i + 1;
    }
    assert(p@.take(p.len() as int) == p@);
    if acc > 255 {
        return None;
    }
    Some(acc as u8)
}

/// Parses dotted-quad text as `Ipv4Addr::from_str` does.
pub fn parse_ipv4(s: &str) -> (r: Option<Ipv4>)
    ensures
        r == ipv4_spec(s@),
{
    let cs = to_chars(s);
    let parts = split_chars(&cs, '.');
    let ghost pv = parts@.map_values(|p: Vec<char>| p@);
    assert(pv == split_seq(s@, '.'));
    if parts.len() != 4 {
        return None;
    }
    assert(pv[0] == parts@[0]@ && pv[1] == parts@[1]@ && pv[2] == parts@[2]@ && pv[3] == parts@[3]@);
    let a = match parse_octet(parts[0].as_slice()) {
        Some(v) => v,
        None => {
            return None;
        },
    };
    let b = match parse_octet(parts[1].as_slice()) {
        Some(v) => v,
        None => {
            return None;
        },
    };
    let c = match parse_octet(parts[2].as_slice()) {
        Some(v) => v,
        None => {
            return None;
        },
    };
    let d = match parse_octet(parts[3].as_slice()) {
        Some(v) => v,
        None => {
            return None;
        },
    };
    Some((a, b, c, d))
}

pub open spec fn is_loopback(ip: Ipv4) -> bool {
    ip.0 == 127
}

pub open spec fn is_unspecified(ip: Ipv4) -> bool {
    ip.0 == 0 && ip.1 == 0 && ip.2 == 0 && ip.3 == 0
}

pub open spec fn is_broadcast(ip: Ipv4) -> bool {
    ip.0 == 255 && ip.1 == 255 && ip.2 == 255 && ip.3 == 255
}

/// Inside Tailscale's address range 100.64.0.0/10.
pub open spec fn in_cgnat(ip: Ipv4) -> bool {
    ip.0 == 100 && 64 <= ip.1 <= 127
}

/// A Tailscale address: dotted-quad text starting with `100.`, inside
/// 100.64.0.0/10, not loopback, unspecified or broadcast.
pub open spec fn ts_ip_spec(s: Seq<char>) -> Option<Ipv4> {
    match ipv4_spec(s) {
        None => None,
        Some(ip) => if !starts_with(s, "100."@) || !in_cgnat(ip) || is_loopback(ip) || is_unspecified(ip)
            || is_broadcast(ip) {
            None
        } else {
            Some(ip)
        },
    }
}

pub open spec fn other_error(e: Error, m: Seq<char>) -> bool {
    e matches Error::Other(x) && x@ == m
}

/// Parses a Tailscale address; the error says which check failed.
pub fn parse_ts_ip(s: &str) -> (r: Result<Ipv4, Error>)
    ensures
        match ipv4_spec(s@) {
            None => r matches Err(e) && other_error(e, "parse ip"@),
            Some(ip) => if !starts_with(s@, "100."@) || !in_cgnat(ip) {
                r matches Err(e) && other_error(e, "not a tailscale CGNAT address"@)
            } else if is_loopback(ip) || is_unspecified(ip) || is_broadcast(ip) {
                r matches Err(e) && other_error(e, "invalid address class"@)
            } else {
                r == Ok::<Ipv4, Error>(ip)
            },
        },
        r is Ok <==> ts_ip_spec(s@) is Some,
        r matches Ok(ip) ==> ts_ip_spec(s@) == Some(ip),
{
    let ip = match parse_ipv4(s) {
        Some(ip) => ip,
        None => {
            return Err(Error::Other("parse ip".to_string()));
        },
    };
    let cs = to_chars(s);
    let prefix = to_chars("100.");
    if !has_prefix(&cs, &prefix) || !(ip.0 == 100 && 64 <= ip.1 && ip.1 <= 127) {
        return Err(Error::Other("not a tailscale CGNAT address".to_string()));
    }
    if ip.0 == 127 || (ip.0 == 0 && ip.1 == 0 && ip.2 == 0 && ip.3 == 0) || (ip.0 == 255 && ip.1 == 255
        && ip.2 == 255 && ip.3 == 255) {
        return Err(Error::Other("invalid address class".to_string()));
    }
    Ok(ip)
}

fn ts_ip_chars(s: &[char]) -> (r: Option<Ipv4>)
    ensures
        r == ts_ip_spec(s@),
{
    let t = from_chars(s);
    match parse_ts_ip(t.as_str()) {
        Ok(ip) => Some(ip),
        Err(_) => None,
    }
}

// ---------------------------------------------------------------- LocalAPI status

/// The first piece, trimmed, that starts with `100.` and is a Tailscale address.
pub open spec fn first_ts_piece(parts: Seq<Seq<char>>) -> Option<Ipv4>
    decreases parts.len(),
{
    if parts.len() == 0 {
        None
    } else {
        let p = trim_seq(parts[0]);
        if starts_with(p, "100."@) && ts_ip_spec(p) is Some {
            ts_ip_spec(p)
        } else {
            first_ts_piece(parts.drop_first())
        }
    }
}

/// The Tailscale address that the LocalAPI status body lists: the first
/// `100.` address after the `"TailscaleIPs"` key, the text being cut at quotes,
/// brackets and commas.
pub open spec fn status_ip_spec(body: Seq<char>) -> Option<Ipv4> {
    match first_occurrence(body, "\"TailscaleIPs\""@) {
        None => None,
        Some(i) => first_ts_piece(split_any_seq(body.subrange(i, body.len() as int), seq!['"', '[', ']', ','])),
    }
}

/// Finds the Tailscale address in a LocalAPI status body.
pub fn parse_status_json_ip(body: &str) -> (r: Option<Ipv4>)
    ensures
        r == status_ip_spec(body@),
{
    let b = to_chars(body);
    let key = to_chars("\"TailscaleIPs\"");
    let idx = match find_pat(&b, &key) {
        Some(i) => i,
        None => {
            return None;
        },
    };
    let rest = slice_range(&b, idx, b.len());
    let delims: Vec<char> = vec!['"', '[', ']', ','];
    assert(delims@ == seq!['"', '[', ']', ',']);
    let parts = split_any_chars(&rest, &delims);
    let ghost pv = parts@.map_values(|p: Vec<char>| p@);
    let prefix = to_chars("100.");
    assert(pv.subrange(0, pv.len() as int) =~= pv);
    assert(first_ts_piece(pv) == status_ip_spec(body@));
    let mut i: usize = 0;
    while i < parts.len()
        invariant
            i <= parts.len(),
            pv == parts@.map_values(|p: Vec<char>| p@),
            prefix@ == "100."@,
            first_ts_piece(pv) == status_ip_spec(body@),
            first_ts_piece(pv) == first_ts_piece(pv.subrange(i as int, pv.len() as int)),
        decreases parts.len() - i,
    {
        let ghost tail = pv.subrange(i as int, pv.len() as int);
        assert(tail[0] == parts@[i as int]@);
        assert(tail.drop_first() =~= pv.subrange(i + 1, pv.len() as int));
        let p = trim_chars(parts[i].as_slice());
        if has_prefix(&p, &prefix) {
            match ts_ip_chars(&p) {
                Some(ip) => {
                    return Some(ip);
                },
                None => {},
            }
        }
        i = i + 1;
    }
    None
}

// ---------------------------------------------------------------- command output

/// The address on the first line of `tailscale ip -4` output.
pub open spec fn cli_ip_spec(out: Seq<char>) -> Option<Ipv4> {
    ts_ip_spec(trim_seq(split_seq(out, '\n')[0]))
}

/// Reads the address from `tailscale ip -4` output.
pub fn cli_ip_from_output(out: &str) -> (r: Option<Ipv4>)
    ensures
        r == cli_ip_spec(out@),
{
    let cs = to_chars(out);
    let lines = split_chars(&cs, '\n');
    proof {
        crate::text::lemma_split_nonempty(out@, '\n');
    }
    assert(lines@.map_values(|p: Vec<char>| p@)[0] == lines@[0]@);
    let first = trim_chars(lines[0].as_slice());
    ts_ip_chars(&first)
}

/// The address of the first `inet` line (trimmed, up to `/`) that is a Tailscale address.
pub open spec fn first_inet(lines: Seq<Seq<char>>) -> Option<Ipv4>
    decreases lines.len(),
{
    if lines.len() == 0 {
        None
    } else {
        let t = trim_seq(lines[0]);
        let found = if starts_with(t, "inet "@) {
            ts_ip_spec(trim_seq(split_seq(t.subrange(5, t.len() as int), '/')[0]))
        } else {
            None
        };
        if found is Some {
            found
        } else {
            first_inet(lines.drop_first())
        }
    }
}

/// Reads the Tailscale address from `ip -4 addr show` output.
pub fn interfaces_ip_from_output(text: &str) -> (r: Option<Ipv4>)
    ensures
        r == first_inet(split_seq(text@, '\n')),
{
    let cs = to_chars(text);
    let lines = split_chars(&cs, '\n');
    let ghost lv = lines@.map_values(|p: Vec<char>| p@);
    let inet = to_chars("inet ");
    proof {
        reveal_strlit("inet ");
    }
    assert(lv.subrange(0, lv.len() as int) =~= lv);
    let mut i: usize = 0;
    while i < lines.len()
        invariant
            i <= lines.len(),
            lv == lines@.map_values(|p: Vec<char>| p@),
            lv == split_seq(text@, '\n'),
            inet@ == "inet "@,
            inet@.len() == 5,
            first_inet(lv) == first_inet(lv.subrange(i as int, lv.len() as int)),
        decreases lines.len() - i,
    {
        let ghost tail = lv.subrange(i as int, lv.len() as int);
        assert(tail[0] == lines@[i as int]@);
        assert(tail.drop_first() =~= lv.subrange(i + 1, lv.len() as int));
        let t = trim_chars(lines[i].as_slice());
        if has_prefix(&t, &inet) {
            let rest = slice_range(&t, 5, t.len());
            let pieces = split_chars(&rest, '/');
            proof {
                crate::text::lemma_split_nonempty(rest@, '/');
            }
            assert(pieces@.map_values(|p: Vec<char>| p@)[0] == pieces@[0]@);
            let addr = trim_chars(pieces[0].as_slice());
            match ts_ip_chars(&addr) {
                Some(ip) => {
                    return Some(ip);
                },
                None => {},
            }
        }
        i = i + 1;
    }
    None
}

/// A configured address, trimmed, checked as a Tailscale address.
pub fn configured_ts_ip(s: &str) -> (r: Result<Ipv4, Error>)
    ensures
        r is Ok <==> ts_ip_spec(trim_seq(s@)) is Some,
        r matches Ok(ip) ==> ts_ip_spec(trim_seq(s@)) == Some(ip),
{
    let cs = to_chars(s);
    let t = trim_chars(&cs);
    let ts = from_chars(&t);
    parse_ts_ip(ts.as_str())
}

// ---------------------------------------------------------------- printing

/// Dotted-quad text of an address, as `Ipv4Addr` displays it.
pub open spec fn ipv4_text(ip: Ipv4) -> Seq<char> {
    decimal_seq(ip.0 as nat) + "."@ + decimal_seq(ip.1 as nat) + "."@ + decimal_seq(ip.2 as nat) + "."@
        + decimal_seq(ip.3 as nat)
}

pub fn format_ipv4(ip: Ipv4) -> (r: String)
    ensures
        r@ == ipv4_text(ip),
{
    let mut v: Vec<char> = Vec::new();
    let a = decimal_chars(ip.0 as u64);
    let b = decimal_chars(ip.1 as u64);
    let c = decimal_chars(ip.2 as u64);
    let d = decimal_chars(ip.3 as u64);
    let dot: Vec<char> = vec!['.'];
    proof {
        reveal_strlit(".");
    }
    assert(dot@ == "."@);
    push_chars(&mut v, &a);
    push_chars(&mut v, &dot);
    push_chars(&mut v, &b);
    push_chars(&mut v, &dot);
    push_chars(&mut v, &c);
    push_chars(&mut v, &dot);
    push_chars(&mut v, &d);
    from_chars(&v)
}


// ---------------------------------------------------------------- round trip

proof fn lemma_decimal_facts(n: nat)
    ensures
        decimal_seq(n).len() >= 1,
        all_digits(decimal_seq(n)),
        !decimal_seq(n).contains('.'),
        digits_value(decimal_seq(n)) == n,
        n >= 1 ==> decimal_seq(n)[0] != '0',
        n < 10 ==> decimal_seq(n).len() == 1,
        10 <= n < 100 ==> decimal_seq(n).len() == 2,
        100 <= n < 1000 ==> decimal_seq(n).len() == 3,
    decreases n,
{
    if n < 10 {
        assert(decimal_seq(n) == seq![crate::text::digit_char(n)]);
        assert(digits_value(decimal_seq(n)) == digits_value(decimal_seq(n).drop_last()) * 10 + digit_value(
            decimal_seq(n).last(),
        ));
        assert(decimal_seq(n).drop_last() =~= Seq::<char>::empty());
    } else {
        let q = n / 10;
        let m = n % 10;
        vstd::arithmetic::div_mod::lemma_fundamental_div_mod(n as int, 10);
        lemma_decimal_facts(q);
        let s = decimal_seq(n);
        assert(s == decimal_seq(q).push(crate::text::digit_char(m)));
        assert(s.drop_last() =~= decimal_seq(q));
        assert forall|i: int| 0 <= i < s.len() implies is_digit(#[trigger] s[i]) by {
            if i < s.len() - 1 {
                assert(s[i] == decimal_seq(q)[i]);
            }
        }
        if s.contains('.') {
            let k = choose|k: int| 0 <= k < s.len() && s[k] == '.';
            if k < s.len() - 1 {
                assert(decimal_seq(q)[k] == '.');
            }
        }
        assert(s[0] == decimal_seq(q)[0]);
    }
}

proof fn lemma_octet_of_decimal(n: u8)
    ensures
        octet_spec(decimal_seq(n as nat)) == Some(n),
{
    lemma_decimal_facts(n as nat);
}

proof fn lemma_split_no_sep(p: Seq<char>, y: Seq<char>)
    requires
        !y.contains('.'),
    ensures
        split_seq(p + y, '.') == {
            let sp = split_seq(p, '.');
            sp.update(sp.len() - 1, sp.last() + y)
        },
    decreases y.len(),
{
    crate::text::lemma_split_nonempty(p, '.');
    if y.len() == 0 {
        assert(p + y =~= p);
        let sp = split_seq(p, '.');
        assert(sp.last() + y =~= sp.last());
        assert(sp.update(sp.len() - 1, sp.last()) =~= sp);
    } else {
        let y0 = y.drop_last();
        assert(!y0.contains('.')) by {
            if y0.contains('.') {
                let k = choose|k: int| 0 <= k < y0.len() && y0[k] == '.';
                assert(y[k] == '.');
            }
        }
        lemma_split_no_sep(p, y0);
        assert((p + y).drop_last() =~= p + y0);
        assert((p + y).last() == y.last());
        assert(y.last() != '.') by {
            assert(y[y.len() - 1] == y.last());
        }
        let sp = split_seq(p, '.');
        let mid = sp.update(sp.len() - 1, sp.last() + y0);
        assert(split_seq(p + y, '.') == mid.update(mid.len() - 1, mid.last().push(y.last())));
        assert(mid.last().push(y.last()) =~= sp.last() + y);
        assert(mid.update(mid.len() - 1, mid.last().push(y.last())) =~= sp.update(sp.len() - 1, sp.last() + y));
    }
}

proof fn lemma_split_dot_then(p: Seq<char>, y: Seq<char>)
    requires
        !y.contains('.'),
    ensures
        split_seq(p + "."@ + y, '.') == split_seq(p, '.').push(y),
{
    reveal_strlit(".");
    let pd = p + "."@;
    assert(pd.drop_last() =~= p);
    assert(pd.last() == '.');
    assert(split_seq(pd, '.') == split_seq(p, '.').push(Seq::<char>::empty()));
    lemma_split_no_sep(pd, y);
    let sp = split_seq(p, '.').push(Seq::<char>::empty());
    assert(Seq::<char>::empty() + y =~= y);
    assert(sp.update(sp.len() - 1, sp.last() + y) =~= split_seq(p, '.').push(y));
}

/// Printing an address and parsing the text gives the address back.
pub proof fn lemma_ipv4_text_round_trip(ip: Ipv4)
    ensures
        ipv4_spec(ipv4_text(ip)) == Some(ip),
{
    let a = decimal_seq(ip.0 as nat);
    let b = decimal_seq(ip.1 as nat);
    let c = decimal_seq(ip.2 as nat);
    let d = decimal_seq(ip.3 as nat);
    lemma_decimal_facts(ip.0 as nat);
    lemma_decimal_facts(ip.1 as nat);
    lemma_decimal_facts(ip.2 as nat);
    lemma_decimal_facts(ip.3 as nat);
    lemma_octet_of_decimal(ip.0);
    lemma_octet_of_decimal(ip.1);
    lemma_octet_of_decimal(ip.2);
    lemma_octet_of_decimal(ip.3);
    lemma_split_no_sep(Seq::<char>::empty(), a);
    assert(Seq::<char>::empty() + a =~= a);
    assert(split_seq(Seq::<char>::empty(), '.') == seq![Seq::<char>::empty()]);
    assert(split_seq(a, '.') =~= seq![a]);
    let ab = a + "."@ + b;
    lemma_split_dot_then(a, b);
    let abc = ab + "."@ + c;
    lemma_split_dot_then(ab, c);
    lemma_split_dot_then(abc, d);
    assert(ipv4_text(ip) == abc + "."@ + d);
    let parts = split_seq(ipv4_text(ip), '.');
    assert(parts =~= seq![a, b, c, d]);
}
} // verus!
