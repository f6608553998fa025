//! Framing and checking of the short-lived tokens that peers present.
//!
//! A token carries the time it was minted, as eight big-endian bytes,
//! followed by a MAC over those eight bytes under the cluster's shared
//! secret. Computing the MAC and the text encoding of the token are the
//! caller's; this module puts the bytes together, takes them apart, and
//! decides whether a presented token is accepted.

use vstd::prelude::*;

verus! {

/// Name of the request header that carries the token.
pub const HEADER_NAME: &'static str = "internal-auth";

/// How long a token stays valid after it was minted.
pub const TOKEN_VALIDITY_MICROS: u64 = 1_000_000;

/// The eight big-endian bytes of `x`.
pub open spec fn be_bytes(x: u64) -> Seq<u8> {
    seq![
        ((x >> 56u64) & 0xff) as u8,
        ((x >> 48u64) & 0xff) as u8,
        ((x >> 40u64) & 0xff) as u8,
        ((x >> 32u64) & 0xff) as u8,
        ((x >> 24u64) & 0xff) as u8,
        ((x >> 16u64) & 0xff) as u8,
        ((x >> 8u64) & 0xff) as u8,
        (x & 0xff) as u8,
    ]
}

/// The number that eight big-endian bytes spell.
pub open spec fn be_value(b: Seq<u8>) -> u64 {
    (b[0] as u64) << 56u64 | (b[1] as u64) << 48u64 | (b[2] as u64) << 40u64 | (b[3] as u64) << 32u64
        | (b[4] as u64) << 24u64 | (b[5] as u64) << 16u64 | (b[6] as u64) << 8u64 | (b[7] as u64)
}

/// The bytes of a token minted at `minted_micros` with `mac`: the time,
/// then the MAC.
pub open spec fn token_bytes(minted_micros: u64, mac: Seq<u8>) -> Seq<u8> {
    be_bytes(minted_micros) + mac
}

/// A decoded token is accepted at `now` against the MAC that the receiver
/// computes over its first eight bytes: it holds the eight time bytes and
/// at least a MAC's length more, what follows the time is exactly that MAC,
/// and it was minted less than `TOKEN_VALIDITY_MICROS` ago.
pub open spec fn token_accepted(decoded: Seq<u8>, expected_mac: Seq<u8>, now: u64) -> bool {
    &&& decoded.len() >= 8 + expected_mac.len()
    &&& decoded.subrange(8, decoded.len() as int) == expected_mac
    &&& be_value(decoded.subrange(0, 8)) > now - TOKEN_VALIDITY_MICROS
}

proof fn lemma_be_round_trip(x: u64)
    ensures
        be_value(be_bytes(x)) == x,
{
    let b = be_bytes(x);
    assert(((((x >> 56u64) & 0xff) as u8) as u64) << 56u64 | ((((x >> 48u64) & 0xff) as u8) as u64)
        << 48u64 | ((((x >> 40u64) & 0xff) as u8) as u64) << 40u64 | ((((x >> 32u64) & 0xff) as u8) as u64)
        << 32u64 | ((((x >> 24u64) & 0xff) as u8) as u64) << 24u64 | ((((x >> 16u64) & 0xff) as u8) as u64)
        << 16u64 | ((((x >> 8u64) & 0xff) as u8) as u64) << 8u64 | (((x & 0xff) as u8) as u64) == x)
        by (bit_vector);
}

/// The bytes a token minted at `now_micros` authenticates: the time, as
/// eight big-endian bytes.
pub fn token_message(now_micros: u64) -> (r: Vec<u8>)
    ensures
        r@ == be_bytes(now_micros),
{
    let mut r: Vec<u8> = Vec::new();
    r.push(((now_micros >> 56u64) & 0xff) as u8);
    r.push(((now_micros >> 48u64) & 0xff) as u8);
    r.push(((now_micros >> 40u64) & 0xff) as u8);
    r.push(((now_micros >> 32u64) & 0xff) as u8);
    r.push(((now_micros >> 24u64) & 0xff) as u8);
    r.push(((now_micros >> 16u64) & 0xff) as u8);
    r.push(((now_micros >> 8u64) & 0xff) as u8);
    r.push((now_micros & 0xff) as u8);
    assert(r@ =~= be_bytes(now_micros));
    r
}

/// The bytes of a token minted at `now_micros` whose MAC over
/// `token_message(now_micros)` is `mac`.
pub fn assemble_token(now_micros: u64, mac: &[u8]) -> (r: Vec<u8>)
    ensures
        r@ == token_bytes(now_micros, mac@),
{
    let mut r = token_message(now_micros);
    let mut i: usize = 0;
    while i < mac.len()
        invariant
            i <= mac.len(),
            r@ == be_bytes(now_micros) + mac@.subrange(0, i as int),
        decreases mac.len() - i,
    {
        r.push(mac[i]);
        i = i + 1;
        assert(r@ =~= be_bytes(now_micros) + mac@.subrange(0, i as int));
    }
    assert(mac@.subrange(0, mac@.len() as int) =~= mac@);
    r
}

/// The part of a decoded token over which its MAC is computed: its first
/// eight bytes, if it has them.
pub fn token_time_bytes(decoded: &[u8]) -> (r: Option<Vec<u8>>)
    ensures
        decoded@.len() < 8 ==> r is None,
        decoded@.len() >= 8 ==> (r matches Some(b) && b@ == decoded@.subrange(0, 8)),
{
    if decoded.len() < 8 {
        return None;
    }
    let mut r: Vec<u8> = Vec::new();
    let mut i: usize = 0;
    while i < 8
        invariant
            i <= 8 <= decoded.len(),
            r@ == decoded@.subrange(0, i as int),
        decreases 8 - i,
    {
        r.push(decoded[i]);
        i = i + 1;
        assert(r@ =~= decoded@.subrange(0, i as int));
    }
    Some(r)
}

/// Whether `a[from..]` equals `b`, looking at every byte whatever the
/// earlier ones were.
fn equal_in_constant_time(a: &[u8], from: usize, b: &[u8]) -> (r: bool)
    requires
        from <= a.len(),
    ensures
        r == (a@.subrange(from as int, a@.len() as int) == b@),
{
    if a.len() - from != b.len() {
        proof {
            assert(a@.subrange(from as int, a@.len() as int).len() != b@.len());
        }
        return false;
    }
    let mut diff: u8 = 0;
    let mut i: usize = 0;
    while i < b.len()
        invariant
            i <= b.len(),
            from + b.len() == a.len(),
            (diff == 0) == (forall|j: int| 0 <= j < i ==> a@[from + j] == b@[j]),
        decreases b.len() - i,
    {
        let x = a[from + i];
        let y = b[i];
        let d = diff | (x ^ y);
        proof {
            assert((d == 0) == (diff == 0 && x == y)) by (bit_vector)
                requires
                    d == diff | (x ^ y),
            ;
            if diff == 0 && x == y {
                assert forall|j: int| 0 <= j < i + 1 implies a@[from + j] == b@[j] by {}
            }
        }
        diff = d;
        i = i + 1;
    }
    proof {
        if diff == 0 {
            assert(a@.subrange(from as int, a@.len() as int) =~= b@);
        } else {
            if a@.subrange(from as int, a@.len() as int) == b@ {
                assert forall|j: int| 0 <= j < b@.len() implies a@[from + j] == b@[j] by {
                    assert(a@.subrange(from as int, a@.len() as int)[j] == b@[j]);
                }
            }
        }
    }
    diff == 0
}

/// Decide whether a presented token is accepted at `now_micros`. `decoded`
/// is the token's bytes, `None` where the header was absent or did not
/// decode; `expected_mac` is the MAC the receiver computed over the token's
/// first eight bytes.
pub fn is_token_valid(decoded: Option<&[u8]>, expected_mac: &[u8], now_micros: u64) -> (r: bool)
    ensures
        r == (decoded matches Some(d) && token_accepted(d@, expected_mac@, now_micros)),
{
    match decoded {
        None => false,
        Some(d) => {
            if d.len() < 8 || d.len() - 8 < expected_mac.len() {
                return false;
            }
            let ghost time = d@.subrange(0, 8);
            let ts = (d[0] as u64) << 56u64 | (d[1] as u64) << 48u64 | (d[2] as u64) << 40u64 | (
            d[3] as u64) << 32u64 | (d[4] as u64) << 24u64 | (d[5] as u64) << 16u64 | (d[6] as u64)
                << 8u64 | (d[7] as u64);
            assert(ts == be_value(time));
            let same = equal_in_constant_time(d, 8, expected_mac);
            let fresh = now_micros < TOKEN_VALIDITY_MICROS || ts > now_micros - TOKEN_VALIDITY_MICROS;
            same && fresh
        },
    }
}

/// A token minted with some MAC is accepted, against that same MAC, at any
/// time less than `TOKEN_VALIDITY_MICROS` after it was minted.
pub proof fn lemma_fresh_token_accepted(minted_micros: u64, mac: Seq<u8>, now_micros: u64)
    requires
        now_micros < minted_micros + TOKEN_VALIDITY_MICROS,
    ensures
        token_accepted(token_bytes(minted_micros, mac), mac, now_micros),
{
    let t = token_bytes(minted_micros, mac);
    assert(t.subrange(8, t.len() as int) =~= mac);
    assert(t.subrange(0, 8) =~= be_bytes(minted_micros));
    lemma_be_round_trip(minted_micros);
}

/// A token whose time is `TOKEN_VALIDITY_MICROS` or more in the past is
/// refused, whatever its MAC.
pub proof fn lemma_stale_token_refused(decoded: Seq<u8>, expected_mac: Seq<u8>, now_micros: u64)
    requires
        decoded.len() >= 8,
        be_value(decoded.subrange(0, 8)) + TOKEN_VALIDITY_MICROS <= now_micros,
    ensures
        !token_accepted(decoded, expected_mac, now_micros),
{
}

} // verus!
