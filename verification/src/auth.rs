//! Credential helpers: random tokens, token hashing and comparison.

use vstd::prelude::*;
use crate::text::from_chars;

verus! {

/// Compares two byte strings in time independent of where they first differ.
pub fn constant_time_eq(a: &[u8], b: &[u8]) -> (res: bool)
    ensures
        res == (a@ == b@),
{
    if a.len() != b.len() {
        return false;
    }
    let mut diff: u8 = 0;
    let mut i: usize = 0;
    while i < a.len()
        invariant
            a.len() == b.len(),
            i <= a.len(),
            (diff == 0) == (forall|j: int| 0 <= j < i ==> a@[j] == b@[j]),
        decreases a.len() - i,
    {
        let ai: u8 = a[i];
        let bi: u8 = b[i];
        let x: u8 = ai ^ bi;
        assert((x == 0) == (ai == bi)) by (bit_vector)
            requires
                x == ai ^ bi,
        ;
        let nd: u8 = diff | x;
        assert((nd == 0) == (diff == 0 && x == 0)) by (bit_vector)
            requires
                nd == diff | x,
        ;
        diff = nd;
        i = i + 1;
    }
    if diff == 0 {
        assert(a@ =~= b@);
    }
    diff == 0
}

/// Same as `constant_time_eq`, over characters.
pub fn constant_time_eq_chars(a: &[char], b: &[char]) -> (res: bool)
    ensures
        res == (a@ == b@),
{
    if a.len() != b.len() {
        return false;
    }
    let mut diff: u32 = 0;
    let mut i: usize = 0;
    while i < a.len()
        invariant
            a.len() == b.len(),
            i <= a.len(),
            (diff == 0) == (forall|j: int| 0 <= j < i ==> a@[j] == b@[j]),
        decreases a.len() - i,
    {
        let ai: u32 = a[i] as u32;
        let bi: u32 = b[i] as u32;
        let x: u32 = ai ^ bi;
        assert((x == 0) == (ai == bi)) by (bit_vector)
            requires
                x == ai ^ bi,
        ;
        proof {
            vstd::utf8::char_u32_cast(a@[i as int], ai);
            vstd::utf8::char_u32_cast(b@[i as int], bi);
        }
        assert((ai == bi) == (a@[i as int] == b@[i as int]));
        let nd: u32 = diff | x;
        assert((nd == 0) == (diff == 0 && x == 0)) by (bit_vector)
            requires
                nd == diff | x,
        ;
        diff = nd;
        i = i + 1;
    }
    if diff == 0 {
        assert(a@ =~= b@);
    }
    diff == 0
}

// ---------------------------------------------------------------- hex

pub open spec fn hex_digit(v: u8) -> char {
    if v < 10 {
        (('0' as u8) + v) as char
    } else {
        (('a' as u8) + v - 10) as char
    }
}

/// Lower-case hexadecimal text of bytes, two characters per byte.
pub open spec fn hex_seq(bytes: Seq<u8>) -> Seq<char>
    decreases bytes.len(),
{
    if bytes.len() == 0 {
        Seq::empty()
    } else {
        hex_seq(bytes.drop_last()).push(hex_digit(bytes.last() / 16)).push(
            hex_digit(bytes.last() % 16),
        )
    }
}

pub open spec fn is_hex_char(c: char) -> bool {
    ('0' <= c <= '9') || ('a' <= c <= 'f')
}

proof fn lemma_hex_shape(bytes: Seq<u8>)
    ensures
        hex_seq(bytes).len() == 2 * bytes.len(),
        forall|i: int| 0 <= i < hex_seq(bytes).len() ==> is_hex_char(#[trigger] hex_seq(bytes)[i]),
    decreases bytes.len(),
{
    if bytes.len() > 0 {
        lemma_hex_shape(bytes.drop_last());
    }
}

fn hex_digit_exec(v: u8) -> (c: char)
    requires
        v < 16,
    ensures
        c == hex_digit(v),
{
    if v < 10 {
        (('0' as u8) + v) as char
    } else {
        (('a' as u8) + v - 10) as char
    }
}

/// Lower-case hexadecimal encoding.
pub fn hex_encode(bytes: &[u8]) -> (r: String)
    ensures
        r@ == hex_seq(bytes@),
{
    let mut out: Vec<char> = Vec::new();
    let mut i: usize = 0;
    while i < bytes.len()
        invariant
            i <= bytes.len(),
            out@ == hex_seq(bytes@.take(i as int)),
        decreases bytes.len() - i,
    {
        let b = bytes[i];
        out.push(hex_digit_exec(b / 16));
        out.push(hex_digit_exec(b % 16));
        assert(bytes@.take(i + 1).drop_last() == bytes@.take(i as int));
        i = i + 1;
    }
    assert(bytes@.take(bytes.len() as int) == bytes@);
    from_chars(&out)
}

// ---------------------------------------------------------------- outside calls

/// What `sha2::Sha256::digest` gives back for some bytes.
pub uninterp spec fn sha256_spec(data: Seq<u8>) -> Seq<u8>;

/// Calls `sha2::Sha256::digest`. States that the digest is `sha256_spec` of
/// the input and 32 bytes long; SHA-256 itself is not stated.
#[verifier::external_body]
fn sha256(data: &[u8]) -> (r: Vec<u8>)
    ensures
        r@ == sha256_spec(data@),
        r@.len() == 32,
{
    <sha2::Sha256 as sha2::Digest>::digest(data).to_vec()
}

/// Calls `rand_core::RngCore::try_fill_bytes` on `rand::rngs::OsRng` (the
/// operating system's generator). States only the length of the bytes; what
/// they are is chance. `None` when the operating system generator fails.
#[verifier::external_body]
fn os_random_bytes(n: usize) -> (r: Option<Vec<u8>>)
    ensures
        r matches Some(v) ==> v@.len() == n,
{
    let mut v = vec![0u8; n];
    match rand::RngCore::try_fill_bytes(&mut rand::rngs::OsRng, &mut v) {
        Ok(()) => Some(v),
        Err(_) => None,
    }
}

// ---------------------------------------------------------------- tokens

/// Stored form of a credential: hex SHA-256 of its UTF-8 bytes.
pub open spec fn hash_token_spec(token: Seq<char>) -> Seq<char> {
    hex_seq(sha256_spec(vstd::utf8::encode_utf8(token)))
}

/// Hashes a bearer token for storage.
pub fn hash_token(token: &str) -> (r: String)
    ensures
        r@ == hash_token_spec(token@),
        r@.len() == 64,
{
    let digest = sha256(token.as_bytes());
    proof {
        lemma_hex_shape(digest@);
    }
    hex_encode(&digest)
}

/// True when `token` hashes to `hash` (compared in constant time).
pub fn verify_token(hash: &str, token: &str) -> (r: bool)
    ensures
        r == (hash@ == hash_token_spec(token@)),
{
    let h = hash_token(token);
    let a = crate::text::to_chars(hash);
    let b = crate::text::to_chars(h.as_str());
    constant_time_eq_chars(&a, &b)
}

/// A fresh random token of `n_bytes` random bytes in lower-case hex;
/// `None` when the operating system generator fails. Which bytes come out is
/// chance.
pub fn generate_token(n_bytes: usize) -> (r: Option<String>)
    ensures
        r matches Some(t) ==> (exists|b: Seq<u8>| b.len() == n_bytes && t@ == #[trigger] hex_seq(b)),
        r matches Some(t) ==> t@.len() == 2 * n_bytes && forall|i: int|
            0 <= i < t@.len() ==> is_hex_char(#[trigger] t@[i]),
{
    match os_random_bytes(n_bytes) {
        None => None,
        Some(bytes) => {
            proof {
                lemma_hex_shape(bytes@);
            }
            Some(hex_encode(&bytes))
        },
    }
}

} // verus!
