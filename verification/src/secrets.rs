//! Member secrets: generated, never chosen. Thirty-two random bytes leave
//! nothing to guess.

use vstd::prelude::*;

verus! {

/// The length of a key or a secret in bytes.
pub const KEY_LEN: usize = 32;

/// `rand::rngs::OsRng::fill_bytes` on 32 bytes. Nothing is known of the
/// bytes but how many there are. Where the operating system hands out no
/// randomness, the call panics.
#[verifier::external_body]
pub(crate) fn random_bytes() -> (r: Vec<u8>)
    ensures
        r@.len() == KEY_LEN,
{
    let mut raw = vec![0u8; KEY_LEN];
    rand::RngCore::fill_bytes(&mut rand::rngs::OsRng, &mut raw);
    raw
}

/// What the URL-safe alphabet of base64 writes for some bytes, unpadded.
pub uninterp spec fn url_base64(data: Seq<u8>) -> Seq<char>;

/// What the standard alphabet of base64 writes for some bytes, padded.
pub uninterp spec fn base64_text(data: Seq<u8>) -> Seq<char>;

/// What padded standard base64 reads from a text, if the text is base64.
pub uninterp spec fn base64_bytes(text: Seq<char>) -> Option<Seq<u8>>;

/// A character of the URL-safe alphabet.
pub open spec fn url_safe(c: char) -> bool {
    ('a' <= c <= 'z') || ('A' <= c <= 'Z') || ('0' <= c <= '9') || c == '-' || c == '_'
}

/// `URL_SAFE_NO_PAD.encode` of the `base64` crate: a function of the bytes,
/// four characters for every three bytes and as many as needed for the rest,
/// all of them from the URL-safe alphabet.
#[verifier::external_body]
fn encode_url(data: &Vec<u8>) -> (r: String)
    requires
        data@.len() <= 0xffff_ffff,
    ensures
        r@ == url_base64(data@),
        r@.len() == (data@.len() * 4 + 2) / 3,
        forall|i: int| 0 <= i < r@.len() ==> url_safe(#[trigger] r@[i]),
{
    base64::Engine::encode(&base64::engine::general_purpose::URL_SAFE_NO_PAD, data)
}

/// `STANDARD.encode` of the `base64` crate: a function of the bytes, and
/// decoding the text gives the bytes back.
#[verifier::external_body]
pub(crate) fn encode_base64(data: &Vec<u8>) -> (r: String)
    requires
        data@.len() <= 0xffff_ffff,
    ensures
        r@ == base64_text(data@),
        base64_bytes(r@) == Some(data@),
{
    base64::Engine::encode(&base64::engine::general_purpose::STANDARD, data)
}

/// `STANDARD.decode` of the `base64` crate: a function of the text.
#[verifier::external_body]
pub(crate) fn decode_base64(text: &str) -> (r: Option<Vec<u8>>)
    ensures
        match r {
            Some(v) => base64_bytes(text@) == Some(v@),
            None => base64_bytes(text@) is None,
        },
{
    base64::Engine::decode(&base64::engine::general_purpose::STANDARD, text).ok()
}

/// The secret that some random bytes make.
pub fn secret_from(raw: &Vec<u8>) -> (r: String)
    requires
        raw@.len() <= 0xffff_ffff,
    ensures
        r@ == url_base64(raw@),
        r@.len() == (raw@.len() * 4 + 2) / 3,
        forall|i: int| 0 <= i < r@.len() ==> url_safe(#[trigger] r@[i]),
{
    encode_url(raw)
}

/// A secret with enough entropy that guessing is not a threat: 43 characters
/// that are safe in a URL.
pub fn generate_secret() -> (r: String)
    ensures
        r@.len() == 43,
        forall|i: int| 0 <= i < r@.len() ==> url_safe(#[trigger] r@[i]),
        exists|raw: Seq<u8>| raw.len() == KEY_LEN && r@ == #[trigger] url_base64(raw),
{
    let raw = random_bytes();
    secret_from(&raw)
}

/// Compare two secrets without leaking where they differ: every byte is
/// looked at, whatever the earlier ones were.
pub fn constant_time_eq(a: &str, b: &str) -> (r: bool)
    ensures
        r == (a@ == b@),
{
    let x = a.as_bytes();
    let y = b.as_bytes();
    let mut diff: u8 = if x.len() == y.len() {
        0
    } else {
        1
    };
    let n = if x.len() < y.len() {
        y.len()
    } else {
        x.len()
    };
    let mut i: usize = 0;
    while i < n
        invariant
            i <= n,
            n >= x@.len(),
            n >= y@.len(),
            n == x@.len() || n == y@.len(),
            x@.len() != y@.len() ==> diff != 0,
            x@.len() == y@.len() ==> (diff == 0 <==> forall|k: int|
                0 <= k < i ==> x@[k] == y@[k]),
        decreases n - i,
    {
        let p: u8 = if i < x.len() {
            x[i]
        } else {
            0
        };
        let q: u8 = if i < y.len() {
            y[i]
        } else {
            0
        };
        assert((diff | (p ^ q)) == 0 <==> diff == 0 && p == q) by (bit_vector);
        diff = diff | (p ^ q);
        i = i + 1;
    }
    proof {
        if diff == 0 {
            assert(x@ =~= y@);
            vstd::utf8::encode_utf8_decode_utf8(a@);
            vstd::utf8::encode_utf8_decode_utf8(b@);
        }
    }
    diff == 0
}

} // verus!
