//! Checksums, random bytes, and their written forms.
use base64::engine::general_purpose::URL_SAFE_NO_PAD;
use base64::Engine;
use sha1::Sha1;
use sha2::{Digest, Sha256};
use vstd::prelude::*;
use vstd::utf8::encode_utf8;

verus! {

// ---------------------------------------------------------------------------------------------
// Hexadecimal
// ---------------------------------------------------------------------------------------------
/// The hexadecimal digit for `d` below sixteen, with small letters.
pub open spec fn hex_small(d: u8) -> char {
    if d < 10 {
        (48 + d) as char
    } else {
        (87 + d) as char
    }
}

/// `bytes` in hexadecimal, two digits for each.
pub open spec fn hex_of(bytes: Seq<u8>) -> Seq<char> {
    Seq::new(
        2 * bytes.len(),
        |i: int|
            if i % 2 == 0 {
                hex_small(bytes[i / 2] / 16)
            } else {
                hex_small(bytes[i / 2] % 16)
            },
    )
}

fn hex_char(d: u8) -> (r: char)
    requires
        d < 16,
    ensures
        r == hex_small(d),
{
    if d < 10 {
        (48 + d) as char
    } else {
        (87 + d) as char
    }
}

/// `bytes` in hexadecimal.
pub fn hex_encode(bytes: &[u8]) -> (r: String)
    ensures
        r@ == hex_of(bytes@),
{
    let mut out = String::new();
    let n: usize = bytes.len();
    let ghost want = hex_of(bytes@);
    assert(out@ == want.take(0));
    for i in 0..n
        invariant
            n == bytes@.len(),
            want == hex_of(bytes@),
            out@ == want.take(2 * i as int),
    {
        let ghost o0 = out@;
        out.push(hex_char(bytes[i] / 16));
        out.push(hex_char(bytes[i] % 16));
        assert(want[2 * i as int] == hex_small(bytes@[i as int] / 16));
        assert(want[2 * i as int + 1] == hex_small(bytes@[i as int] % 16));
        assert(want.take(2 * (i + 1)) == want.take(2 * i as int).push(want[2 * i as int]).push(
            want[2 * i as int + 1],
        ));
    }
    assert(want.take(2 * n as int) == want);
    out
}

/// Different bytes have different hexadecimal forms.
pub proof fn law_hex_tells_bytes_apart(a: Seq<u8>, b: Seq<u8>)
    requires
        hex_of(a) == hex_of(b),
    ensures
        a == b,
{
    assert(hex_of(a).len() == 2 * a.len());
    assert(hex_of(b).len() == 2 * b.len());
    assert(a.len() == b.len());
    assert forall|i: int| 0 <= i < a.len() implies a[i] == b[i] by {
        assert((2 * i) / 2 == i && (2 * i) % 2 == 0);
        assert((2 * i + 1) / 2 == i && (2 * i + 1) % 2 == 1);
        assert(hex_of(a)[2 * i] == hex_small(a[i] / 16));
        assert(hex_of(b)[2 * i] == hex_small(b[i] / 16));
        assert(hex_of(a)[2 * i + 1] == hex_small(a[i] % 16));
        assert(hex_of(b)[2 * i + 1] == hex_small(b[i] % 16));
        assert(hex_small(a[i] / 16) == hex_small(b[i] / 16));
        assert(hex_small(a[i] % 16) == hex_small(b[i] % 16));
    }
}

// ---------------------------------------------------------------------------------------------
// Checksums
// ---------------------------------------------------------------------------------------------
/// What `sha1::Sha1` makes of bytes.
pub uninterp spec fn sha1_sum(bytes: Seq<u8>) -> Seq<u8>;

/// What `sha2::Sha256` makes of bytes.
pub uninterp spec fn sha256_sum(bytes: Seq<u8>) -> Seq<u8>;

/// `Sha1::digest`: twenty bytes that depend on `bytes` alone.
#[verifier::external_body]
fn sha1(bytes: &[u8]) -> (r: Vec<u8>)
    ensures
        r@ == sha1_sum(bytes@),
        r@.len() == 20,
{
    Sha1::digest(bytes).to_vec()
}

/// `Sha256::digest`: 32 bytes that depend on `bytes` alone.
#[verifier::external_body]
pub(crate) fn sha256(bytes: &[u8]) -> (r: Vec<u8>)
    ensures
        r@ == sha256_sum(bytes@),
        r@.len() == 32,
{
    Sha256::digest(bytes).to_vec()
}

/// The SHA-1 checksum of `bytes` in hexadecimal: forty digits.
pub fn sha1_hex(bytes: &[u8]) -> (r: String)
    ensures
        r@ == hex_of(sha1_sum(bytes@)),
        r@.len() == 40,
{
    hex_encode(&sha1(bytes))
}

/// The SHA-256 checksum of `bytes` in hexadecimal: 64 digits.
pub fn sha256_hex(bytes: &[u8]) -> (r: String)
    ensures
        r@ == hex_of(sha256_sum(bytes@)),
        r@.len() == 64,
{
    hex_encode(&sha256(bytes))
}

// ---------------------------------------------------------------------------------------------
// Base64
// ---------------------------------------------------------------------------------------------
/// The character for the six bits `d`, in the alphabet for addresses.
pub open spec fn base64_char(d: u8) -> char {
    if d < 26 {
        (65 + d) as char
    } else if d < 52 {
        (71 + d) as char
    } else if d < 62 {
        (d - 4) as char
    } else if d == 62 {
        '-'
    } else {
        '_'
    }
}

/// `bytes` in Base64 for addresses, without padding: four characters for three bytes, three for
/// two, two for one.
pub open spec fn base64_of(bytes: Seq<u8>) -> Seq<char>
    decreases bytes.len(),
{
    if bytes.len() == 0 {
        Seq::empty()
    } else if bytes.len() == 1 {
        seq![base64_char(bytes[0] / 4), base64_char((bytes[0] % 4 * 16) as u8)]
    } else if bytes.len() == 2 {
        seq![
            base64_char(bytes[0] / 4),
            base64_char((bytes[0] % 4 * 16 + bytes[1] / 16) as u8),
            base64_char((bytes[1] % 16 * 4) as u8),
        ]
    } else {
        seq![
            base64_char(bytes[0] / 4),
            base64_char((bytes[0] % 4 * 16 + bytes[1] / 16) as u8),
            base64_char((bytes[1] % 16 * 4 + bytes[2] / 64) as u8),
            base64_char(bytes[2] % 64),
        ] + base64_of(bytes.skip(3))
    }
}

/// `Engine::encode` of `base64`, with the engine `URL_SAFE_NO_PAD`: the alphabet of letters,
/// digits, `-` and `_`, and no padding.
#[verifier::external_body]
fn base64_url(bytes: &[u8]) -> (r: String)
    ensures
        r@ == base64_of(bytes@),
{
    URL_SAFE_NO_PAD.encode(bytes)
}

// ---------------------------------------------------------------------------------------------
// The secret of a login
// ---------------------------------------------------------------------------------------------
/// Why there are no random bytes.
#[verifier::external_type_specification]
#[verifier::external_body]
pub struct ExRandomError(getrandom::Error);

/// `getrandom::getrandom`: on success, 32 bytes. Nothing is said of their values, which are
/// random.
#[verifier::external_body]
fn random_bytes() -> (r: Result<Vec<u8>, getrandom::Error>)
    ensures
        match r {
            Ok(v) => v@.len() == 32,
            Err(_) => true,
        },
{
    let mut raw = [0u8; 32];
    getrandom::getrandom(&mut raw)?;
    Ok(raw.to_vec())
}

/// The text of a `getrandom::Error`. Nothing is said of it: it comes from the operating system.
#[verifier::external_body]
fn random_error(e: &getrandom::Error) -> (r: String) {
    e.to_string()
}

/// The secret of a login, and what is shown of it beforehand.
pub struct Pkce {
    pub verifier: String,
    pub challenge: String,
}

/// Whether `p` is made from the bytes `raw`: the secret is their Base64 form, and what is shown
/// is the Base64 form of the secret's SHA-256 checksum.
pub open spec fn is_pair(p: Pkce, raw: Seq<u8>) -> bool {
    &&& p.verifier@ == base64_of(raw)
    &&& p.challenge@ == base64_of(sha256_sum(encode_utf8(base64_of(raw))))
}

/// Whether `p` is made from 32 bytes.
pub open spec fn is_made(p: Pkce) -> bool {
    exists|raw: Seq<u8>| raw.len() == 32 && #[trigger] is_pair(p, raw)
}

/// The secret of a login that is made from `raw`.
pub fn pkce_from(raw: &[u8]) -> (r: Pkce)
    ensures
        is_pair(r, raw@),
{
    let verifier = base64_url(raw);
    let challenge = base64_url(&sha256(verifier.as_str().as_bytes()));
    Pkce { verifier, challenge }
}

/// The secret of a login that is made from the bytes that were drawn; where none could be drawn,
/// there is none, for the reason that was given.
pub fn pkce_of(drawn: Result<Vec<u8>, String>) -> (r: Result<Pkce, String>)
    ensures
        match (drawn, r) {
            (Ok(raw), Ok(p)) => is_pair(p, raw@),
            (Err(why), Err(e)) => e@ == why@,
            _ => false,
        },
{
    match drawn {
        Ok(raw) => Ok(pkce_from(&raw)),
        Err(why) => Err(why),
    }
}

/// A new secret of a login, made from 32 random bytes. Whether they can be drawn, and what is
/// said where they cannot, is up to the operating system; [`pkce_of`] says what comes of either.
pub fn pkce_pair() -> (r: Result<Pkce, String>)
    ensures
        match r {
            Ok(p) => is_made(p),
            Err(_) => true,
        },
{
    let drawn = match random_bytes() {
        Ok(raw) => Ok(raw),
        Err(e) => Err(random_error(&e)),
    };
    pkce_of(drawn)
}

/// Whether `c` stands for six bits.
pub open spec fn is_base64_char(c: char) -> bool {
    crate::text::is_alphanumeric(c) || c == '-' || c == '_'
}

/// How long the Base64 form is, and what it is made of.
proof fn lemma_base64(bytes: Seq<u8>)
    ensures
        base64_of(bytes).len() == (4 * bytes.len() + 2) / 3,
        forall|i: int| 0 <= i < base64_of(bytes).len() ==> is_base64_char(#[trigger] base64_of(bytes)[i]),
    decreases bytes.len(),
{
    if bytes.len() >= 3 {
        lemma_base64(bytes.skip(3));
        let rest = base64_of(bytes.skip(3));
        assert forall|i: int| 0 <= i < base64_of(bytes).len() implies is_base64_char(
            #[trigger] base64_of(bytes)[i],
        ) by {
            if i >= 4 {
                assert(base64_of(bytes)[i] == rest[i - 4]);
            }
        }
    }
}

/// The secret of a login is 43 letters, digits, hyphens and underscores, whatever the random
/// bytes are.
pub proof fn law_secret_shape(p: Pkce, raw: Seq<u8>)
    requires
        raw.len() == 32,
        is_pair(p, raw),
    ensures
        p.verifier@.len() == 43,
        forall|i: int| 0 <= i < p.verifier@.len() ==> is_base64_char(#[trigger] p.verifier@[i]),
{
    lemma_base64(raw);
}

/// Each byte is two hexadecimal digits, its higher half first: `0` to `9`, then `a` to `f`.
pub proof fn law_hex_digits(bytes: Seq<u8>, i: int)
    requires
        0 <= i < bytes.len(),
    ensures
        hex_of(bytes).len() == 2 * bytes.len(),
        ({
            let hi = bytes[i] / 16;
            let lo = bytes[i] % 16;
            &&& hi < 10 ==> hex_of(bytes)[2 * i] as int == 48 + hi
            &&& hi >= 10 ==> hex_of(bytes)[2 * i] as int == 97 + (hi - 10)
            &&& lo < 10 ==> hex_of(bytes)[2 * i + 1] as int == 48 + lo
            &&& lo >= 10 ==> hex_of(bytes)[2 * i + 1] as int == 97 + (lo - 10)
        }),
{
    assert((2 * i) / 2 == i && (2 * i) % 2 == 0);
    assert((2 * i + 1) / 2 == i && (2 * i + 1) % 2 == 1);
    assert(hex_of(bytes)[2 * i] == hex_small(bytes[i] / 16));
    assert(hex_of(bytes)[2 * i + 1] == hex_small(bytes[i] % 16));
}

/// What is shown of a secret is made from the secret as it is written, not from the bytes behind it.
pub proof fn law_secret_and_what_is_shown(p: Pkce, raw: Seq<u8>)
    ensures
        is_pair(p, raw) <==> p.verifier@ == base64_of(raw) && p.challenge@ == base64_of(
            sha256_sum(encode_utf8(p.verifier@)),
        ),
        is_made(p) ==> exists|r: Seq<u8>| r.len() == 32 && p.verifier@ == #[trigger] base64_of(r),
{
    if is_made(p) {
        let r = choose|r: Seq<u8>| r.len() == 32 && #[trigger] is_pair(p, r);
        assert(p.verifier@ == base64_of(r));
    }
}

} // verus!
