use vstd::prelude::*;
use vstd::utf8::{decode_utf8, valid_utf8};

verus! {

/// The SHA-1 digest of `data`, as the `sha1` crate computes it.
pub uninterp spec fn sha1_digest(data: Seq<u8>) -> Seq<u8>;

/// `sha1::Sha1::digest`: the SHA-1 digest of `data`. Trusted to be the same
/// 20 bytes for the same input every time; nothing else is claimed of it.
#[verifier::external_body]
pub(crate) fn sha1(data: &[u8]) -> (r: [u8; 20])
    ensures
        r@ == sha1_digest(data@),
{
    <sha1::Sha1 as sha1::Digest>::digest(data).into()
}

/// The first second chrono's `DateTime<Utc>` can hold, counted from the Unix
/// epoch: midnight on January 1 of year -262143.
pub const MIN_TIMESTAMP: i64 = -8334601228800;

/// The last second chrono's `DateTime<Utc>` can hold: 23:59:59 on December
/// 31 of year 262142.
pub const MAX_TIMESTAMP: i64 = 8210266876799;

/// Whether `secs` seconds after the Unix epoch is an instant chrono can hold.
pub open spec fn timestamp_in_range(secs: i64) -> bool {
    MIN_TIMESTAMP <= secs <= MAX_TIMESTAMP
}

/// `chrono::DateTime::<Utc>::from_timestamp(secs, 0)`, reduced to whether it
/// gave an instant. It gives one exactly when the day `secs` falls on lies
/// between chrono's first and last representable years, which makes the
/// range of seconds above.
#[verifier::external_body]
pub(crate) fn timestamp_is_valid(secs: i64) -> (r: bool)
    ensures
        r == timestamp_in_range(secs),
{
    match chrono::DateTime::<chrono::Utc>::from_timestamp(secs, 0) {
        Some(_) => true,
        None => false,
    }
}

/// `String::from_utf8`: the text `bytes` spell, when they are valid UTF-8,
/// and nothing otherwise.
#[verifier::external_body]
pub(crate) fn utf8_to_string(bytes: Vec<u8>) -> (r: Option<String>)
    ensures
        r is Some <==> valid_utf8(bytes@),
        r matches Some(s) ==> s@ == decode_utf8(bytes@),
{
    match String::from_utf8(bytes) {
        Ok(s) => Some(s),
        Err(_) => None,
    }
}

/// `String::push`: appends one character.
#[verifier::external_body]
pub(crate) fn push_char(s: &mut String, c: char)
    ensures
        final(s)@ == old(s)@.push(c),
{
    s.push(c);
}

/// `rand::Rng::fill` on the thread-local generator: random bytes. Every
/// value is possible, so nothing is claimed of them.
#[verifier::external_body]
pub(crate) fn random_bytes() -> (r: [u8; 14]) {
    let mut bytes = [0u8; 14];
    rand::Rng::fill(&mut rand::rng(), &mut bytes);
    bytes
}

/// `rand::seq::IndexedRandom::choose` on the thread-local generator: one of
/// `peers`, picked at random, or nothing when there is none. Which one is
/// left open.
#[verifier::external_body]
pub(crate) fn choose_peer(peers: &[crate::tracker::Peer]) -> (r: Option<crate::tracker::Peer>)
    ensures
        r is None <==> peers@.len() == 0,
        r matches Some(p) ==> exists|i: int| 0 <= i < peers@.len() && p == peers@[i],
{
    rand::seq::IndexedRandom::choose(peers, &mut rand::rng()).cloned()
}

/// The lowercase hex digit for `n`.
pub open spec fn hex_lower(n: u8) -> char {
    if n < 10 {
        (48 + n) as char
    } else {
        (87 + n) as char
    }
}

/// The uppercase hex digit for `n`.
pub open spec fn hex_upper(n: u8) -> char {
    if n < 10 {
        (48 + n) as char
    } else {
        (55 + n) as char
    }
}

/// Two lowercase hex digits per byte.
pub open spec fn spec_hex(bytes: Seq<u8>) -> Seq<char>
    decreases bytes.len(),
{
    if bytes.len() == 0 {
        Seq::empty()
    } else {
        spec_hex(bytes.drop_last()) + seq![hex_lower(bytes.last() / 16), hex_lower(bytes.last() % 16)]
    }
}

/// Bytes that stand for themselves in a URL: `A-Z a-z 0-9 - _ . ~`.
pub open spec fn is_unreserved(b: u8) -> bool {
    (65 <= b <= 90) || (97 <= b <= 122) || (48 <= b <= 57) || b == 45 || b == 46 || b == 95 || b == 126
}

/// One byte percent-encoded: unreserved bytes literal, everything else
/// `%XX` in uppercase hex.
pub open spec fn url_encode_byte(b: u8) -> Seq<char> {
    if is_unreserved(b) {
        seq![b as char]
    } else {
        seq!['%', hex_upper(b / 16), hex_upper(b % 16)]
    }
}

/// A byte string percent-encoded for a tracker announce URL.
pub open spec fn spec_url_encode(bytes: Seq<u8>) -> Seq<char>
    decreases bytes.len(),
{
    if bytes.len() == 0 {
        Seq::empty()
    } else {
        spec_url_encode(bytes.drop_last()) + url_encode_byte(bytes.last())
    }
}

fn hex_digit_lower(n: u8) -> (c: char)
    requires
        n < 16,
    ensures
        c == hex_lower(n),
{
    if n < 10 {
        (48 + n) as char
    } else {
        (87 + n) as char
    }
}

fn hex_digit_upper(n: u8) -> (c: char)
    requires
        n < 16,
    ensures
        c == hex_upper(n),
{
    if n < 10 {
        (48 + n) as char
    } else {
        (55 + n) as char
    }
}

/// Lowercase hex of any bytes.
pub fn hex_string(bytes: &[u8]) -> (s: String)
    ensures
        s@ == spec_hex(bytes@),
{
    let mut s = String::new();
    let mut k: usize = 0;
    while k < bytes.len()
        invariant
            k <= bytes@.len(),
            s@ == spec_hex(bytes@.take(k as int)),
        decreases bytes@.len() - k,
    {
        let b = bytes[k];
        push_char(&mut s, hex_digit_lower(b / 16));
        push_char(&mut s, hex_digit_lower(b % 16));
        proof {
            let t = bytes@.take(k + 1);
            assert(t.drop_last() =~= bytes@.take(k as int));
            assert(t.last() == b);
        }
        k = k + 1;
        assert(s@ =~= spec_hex(bytes@.take(k as int)));
    }
    assert(bytes@.take(k as int) =~= bytes@);
    s
}

/// Lowercase hex of an info hash, e.g. "2b6694...".
pub fn hex_string_info_hash(hash: &[u8; 20]) -> (s: String)
    ensures
        s@ == spec_hex(hash@),
{
    hex_string(hash.as_slice())
}

/// Percent-encodes bytes for a tracker announce URL: unreserved bytes stay
/// literal, everything else becomes `%XX`.
pub fn url_encode_bytes(bytes: &[u8]) -> (s: String)
    ensures
        s@ == spec_url_encode(bytes@),
{
    let mut s = String::new();
    let mut k: usize = 0;
    while k < bytes.len()
        invariant
            k <= bytes@.len(),
            s@ == spec_url_encode(bytes@.take(k as int)),
        decreases bytes@.len() - k,
    {
        let b = bytes[k];
        let ghost before = s@;
        if (65 <= b && b <= 90) || (97 <= b && b <= 122) || (48 <= b && b <= 57) || b == 45 || b == 46 || b == 95
            || b == 126 {
            push_char(&mut s, b as char);
        } else {
            push_char(&mut s, '%');
            push_char(&mut s, hex_digit_upper(b / 16));
            push_char(&mut s, hex_digit_upper(b % 16));
        }
        proof {
            let t = bytes@.take(k + 1);
            assert(t.drop_last() =~= bytes@.take(k as int));
            assert(t.last() == b);
            assert(s@ =~= before + url_encode_byte(b));
        }
        k = k + 1;
    }
    assert(bytes@.take(k as int) =~= bytes@);
    s
}

/// The percent-encoded form of an info hash, as announce URLs carry it.
pub fn url_safe_string_info_hash(hash: &[u8; 20]) -> (s: String)
    ensures
        s@ == spec_url_encode(hash@),
{
    url_encode_bytes(hash.as_slice())
}

/// The fixed start of our peer id: `-DH01-` (client `DH`, version 0.1).
pub open spec fn peer_id_prefix() -> Seq<u8> {
    seq![45u8, 68u8, 72u8, 48u8, 49u8, 45u8]
}

/// A peer id made of our prefix and `random` for the remaining bytes.
pub fn peer_id_with(random: [u8; 14]) -> (id: [u8; 20])
    ensures
        id@.subrange(0, 6) == peer_id_prefix(),
        id@.subrange(6, 20) == random@,
{
    let mut id = [0u8; 20];
    id[0] = 45;
    id[1] = 68;
    id[2] = 72;
    id[3] = 48;
    id[4] = 49;
    id[5] = 45;
    let mut k: usize = 0;
    while k < 14
        invariant
            k <= 14,
            id@.len() == 20,
            id@.subrange(0, 6) == peer_id_prefix(),
            forall|j: int| 0 <= j < k ==> id@[6 + j] == random@[j],
        decreases 14 - k,
    {
        id[6 + k] = random[k];
        k = k + 1;
        assert(id@.subrange(0, 6) =~= peer_id_prefix());
    }
    assert(id@.subrange(6, 20) =~= random@);
    id
}

/// A fresh peer id: our prefix, then random bytes.
pub fn generate_random_peer_id() -> (id: [u8; 20])
    ensures
        id@.subrange(0, 6) == peer_id_prefix(),
{
    peer_id_with(random_bytes())
}

} // verus!
