//! X25519 keys in their text form, and what the key exchange makes of them.

use crate::text;
use base64::Engine;
use vstd::prelude::*;

verus! {

/// Why a text is not a key.
#[derive(Clone, Copy, Debug, PartialEq, Eq, Structural)]
pub enum KeyError {
    InvalidBase64,
    WrongLength,
}

/// What decoding standard base64, with padding, gives for a text; nothing where the text is not
/// base64.
pub uninterp spec fn base64_decoded(s: Seq<char>) -> Option<Seq<u8>>;

/// What encoding bytes as standard base64, with padding, gives.
pub uninterp spec fn base64_encoded(bytes: Seq<u8>) -> Seq<char>;

/// A character of the standard base64 alphabet, or padding.
pub open spec fn is_base64(c: char) -> bool {
    'A' <= c <= 'Z' || 'a' <= c <= 'z' || '0' <= c <= '9' || c == '+' || c == '/' || c == '='
}

/// `base64::engine::general_purpose::STANDARD.decode`: the bytes that the text encodes, or an
/// error where it is not canonical, padded base64. What it gives depends on the text alone.
#[verifier::external_body]
fn decode_base64(s: &str) -> (r: Option<Vec<u8>>)
    ensures
        match r {
            Some(v) => base64_decoded(s@) == Some(v@),
            None => base64_decoded(s@) is None,
        },
{
    base64::engine::general_purpose::STANDARD.decode(s).ok()
}

/// `base64::engine::general_purpose::STANDARD.encode`: text over the standard alphabet, which
/// decodes to the bytes again. What it gives depends on the bytes alone.
#[verifier::external_body]
pub(crate) fn encode_base64(bytes: &[u8]) -> (r: String)
    ensures
        r@ == base64_encoded(bytes@),
        base64_decoded(r@) == Some(bytes@),
        forall|i: int| 0 <= i < r@.len() ==> is_base64(#[trigger] r@[i]),
{
    base64::engine::general_purpose::STANDARD.encode(bytes)
}

/// The 32 bytes of `s`.
pub open spec fn key_bytes(s: Seq<u8>) -> [u8; 32] {
    choose|k: [u8; 32]| k@ == s
}

/// The key that a text stands for: base64 of 32 bytes, with whitespace around it ignored.
pub open spec fn key_of(s: Seq<char>) -> Result<[u8; 32], KeyError> {
    match base64_decoded(text::trimmed(s)) {
        None => Err(KeyError::InvalidBase64),
        Some(b) => if b.len() == 32 {
            Ok(key_bytes(b))
        } else {
            Err(KeyError::WrongLength)
        },
    }
}

/// The key that 32 bytes make up. `None` where there are not 32.
pub fn key_from_bytes(bytes: &Vec<u8>) -> (r: Option<[u8; 32]>)
    ensures
        match r {
            Some(k) => bytes@.len() == 32 && k@ == bytes@ && k == key_bytes(bytes@),
            None => bytes@.len() != 32,
        },
{
    if bytes.len() != 32 {
        return None;
    }
    let mut key = [0u8;32];
    let mut i: usize = 0;
    while i < 32
        invariant
            i <= 32,
            bytes@.len() == 32,
            forall|k: int| 0 <= k < i ==> key@[k] == bytes@[k],
        decreases 32 - i,
    {
        key[i] = bytes[i];
        i += 1;
    }
    proof {
        assert(key@ =~= bytes@);
        let k2 = key_bytes(bytes@);
        assert(k2@ == bytes@);
        assert(key =~= k2);
    }
    Some(key)
}

/// Base64-decodes a 32-byte key, the wire format of every AmneziaWG identity.
pub fn decode_key(b64: &str) -> (r: Result<[u8; 32], KeyError>)
    ensures
        r == key_of(b64@),
{
    let t = text::trim(b64);
    match decode_base64(t.as_str()) {
        None => Err(KeyError::InvalidBase64),
        Some(bytes) => match key_from_bytes(&bytes) {
            Some(k) => Ok(k),
            None => Err(KeyError::WrongLength),
        },
    }
}

pub proof fn lemma_key_bytes(k: [u8; 32])
    ensures
        key_bytes(k@) == k,
{
    let k2 = key_bytes(k@);
    assert(k2@ == k@);
    assert(k2 =~= k);
}

/// The text form of a key: it reads back as the key.
pub fn encode_key(key: &[u8; 32]) -> (r: String)
    ensures
        r@ == base64_encoded(key@),
        key_of(r@) == Ok::<[u8; 32], KeyError>(*key),
{
    let s = encode_base64(key.as_slice());
    proof {
        lemma_no_space(s@);
        lemma_key_bytes(*key);
    }
    s
}

proof fn lemma_no_space(s: Seq<char>)
    requires
        forall|i: int| 0 <= i < s.len() ==> is_base64(#[trigger] s[i]),
    ensures
        text::trimmed(s) == s,
{
    if s.len() > 0 {
        assert(is_base64(s[0]));
        assert(is_base64(s[s.len() - 1]));
    }
}

/// The public key that X25519 derives from a private key.
pub uninterp spec fn x25519_public(secret: Seq<u8>) -> Seq<u8>;

/// `x25519_dalek::PublicKey::from` on a `StaticSecret` of the given bytes. What it gives depends
/// on the bytes alone.
#[verifier::external_body]
fn derive_public(secret: [u8; 32]) -> (r: [u8; 32])
    ensures
        r@ == x25519_public(secret@),
{
    x25519_dalek::PublicKey::from(&x25519_dalek::StaticSecret::from(secret)).to_bytes()
}

/// `x25519_dalek::StaticSecret::random_from_rng` on the operating system's generator. Nothing is
/// said of the bytes: they are random.
#[verifier::external_body]
fn random_secret() -> [u8; 32] {
    x25519_dalek::StaticSecret::random_from_rng(rand::rngs::OsRng).to_bytes()
}

/// Generates a fresh X25519 private key in text form.
pub fn generate_private_key() -> (r: String)
    ensures
        key_of(r@) is Ok,
        r@ == base64_encoded((key_of(r@)->Ok_0)@),
{
    let secret = random_secret();
    encode_key(&secret)
}

/// The text form of the public key of a private key in text form.
pub open spec fn public_of(private: Seq<char>) -> Result<Seq<char>, KeyError> {
    match key_of(private) {
        Ok(k) => Ok(base64_encoded(x25519_public(k@))),
        Err(e) => Err(e),
    }
}

/// Derives the public key of a private key, both in text form.
pub fn public_key_from_private(private_b64: &str) -> (r: Result<String, KeyError>)
    ensures
        match r {
            Ok(p) => public_of(private_b64@) == Ok::<Seq<char>, KeyError>(p@) && key_of(p@) is Ok,
            Err(e) => public_of(private_b64@) == Err::<Seq<char>, KeyError>(e),
        },
{
    match decode_key(private_b64) {
        Ok(k) => {
            let public = derive_public(k);
            Ok(encode_key(&public))
        },
        Err(e) => Err(e),
    }
}

} // verus!
