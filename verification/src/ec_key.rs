//! Elliptic-curve key agreement (X25519) and HKDF seed derivation for
//! transform keys.  Deterministic: callers supply 32-byte private keys.
//!
//! The curve and key-derivation arithmetic is done by `x25519-dalek` and
//! `hkdf`; their results are named, not restated.
use vstd::prelude::*;

use crate::clock::{hex_bytes_decode, is_hex_byte};
use crate::text::{chars_of, string_from_chars, trim_chars, trim_spec};
use vstd::utf8::encode_utf8;

verus! {

/// The X25519 shared secret of a private scalar and a peer public key.
pub uninterp spec fn x25519_shared(private: Seq<u8>, public: Seq<u8>) -> Seq<u8>;

/// The X25519 public key of a private scalar.
pub uninterp spec fn x25519_public(private: Seq<u8>) -> Seq<u8>;

/// HKDF-SHA256 output key material (32 bytes) for a salt, input key material and info.
pub uninterp spec fn hkdf_sha256_32(salt: Seq<u8>, ikm: Seq<u8>, info: Seq<u8>) -> Seq<u8>;

/// `StaticSecret::from(private).diffie_hellman(&PublicKey::from(public)).to_bytes()`
/// from `x25519-dalek`; the result is named by `x25519_shared`.
#[verifier::external_body]
fn x25519_diffie_hellman(private: [u8; 32], public: [u8; 32]) -> (r: [u8; 32])
    ensures
        r@ == x25519_shared(private@, public@),
{
    let sk = x25519_dalek::StaticSecret::from(private);
    let pk = x25519_dalek::PublicKey::from(public);
    sk.diffie_hellman(&pk).to_bytes()
}

/// `PublicKey::from(&StaticSecret::from(private)).to_bytes()` from
/// `x25519-dalek`; the result is named by `x25519_public`.
#[verifier::external_body]
fn x25519_public_key(private: [u8; 32]) -> (r: [u8; 32])
    ensures
        r@ == x25519_public(private@),
{
    let sk = x25519_dalek::StaticSecret::from(private);
    x25519_dalek::PublicKey::from(&sk).to_bytes()
}

/// `Hkdf::<Sha256>::new(Some(salt), ikm)` followed by `expand(info, &mut [0u8; 32])`
/// from `hkdf`.  Expansion into 32 bytes is below HKDF's length limit, so it
/// never fails; the result is named by `hkdf_sha256_32`.
#[verifier::external_body]
pub(crate) fn hkdf_sha256(salt: &[u8], ikm: &[u8], info: &[u8]) -> (r: [u8; 32])
    ensures
        r@ == hkdf_sha256_32(salt@, ikm@, info@),
{
    let hk = hkdf::Hkdf::<sha2::Sha256>::new(Some(salt), ikm);
    let mut okm = [0u8; 32];
    let _ = hk.expand(info, &mut okm);
    okm
}

/// `hex::FromHexError`.
#[verifier::external_type_specification]
#[verifier::external_body]
pub struct ExFromHexError(hex::FromHexError);

/// `hex::decode` of a string's bytes.  Per the `hex` source: an odd number
/// of digits or any byte outside `0-9a-fA-F` is an error; otherwise each pair
/// of digits gives one byte, high nibble first.
#[verifier::external_body]
fn hex_crate_decode(s: &str) -> (r: Result<Vec<u8>, hex::FromHexError>)
    ensures
        ({
            let b = encode_utf8(s@);
            match r {
                Ok(v) => b.len() % 2 == 0 && (forall|i: int| 0 <= i < b.len() ==> is_hex_byte(#[trigger] b[i]))
                    && v@ == hex_bytes_decode(b),
                Err(_) => b.len() % 2 != 0 || !(forall|i: int| 0 <= i < b.len() ==> is_hex_byte(#[trigger] b[i])),
            }
        }),
{
    hex::decode(s)
}

/// Why a hex key could not be read.
#[derive(Debug, Clone, Copy, PartialEq, Eq, Structural)]
pub enum KeyError {
    /// Not a hex string.
    InvalidHex,
    /// Decoded to this many bytes instead of 32.
    WrongLength(usize),
}

/// Derive a shared secret from our 32-byte private key and their 32-byte public key.
pub fn derive_shared_secret(our_private: &[u8; 32], their_public: &[u8; 32]) -> (r: Result<
    [u8; 32],
    KeyError,
>)
    ensures
        r matches Ok(s) && s@ == x25519_shared(our_private@, their_public@),
{
    Ok(x25519_diffie_hellman(*our_private, *their_public))
}

/// Info string of the transform-seed expansion.
pub open spec fn transform_seed_info() -> Seq<u8> {
    encode_utf8("ferricula-transform-seed"@)
}

/// HKDF-SHA256 to produce a seed for orthogonal transform generation:
/// salt = `context`, key material = the shared secret.
pub fn seed_from_shared(shared: &[u8; 32], context: &[u8]) -> (r: [u8; 32])
    ensures
        r@ == hkdf_sha256_32(context@, shared@, transform_seed_info()),
{
    let info = "ferricula-transform-seed".as_bytes();
    hkdf_sha256(context, shared, info)
}

/// Generate a public key from a 32-byte private key (deterministic).
pub fn public_from_private(private: &[u8; 32]) -> (r: [u8; 32])
    ensures
        r@ == x25519_public(private@),
{
    x25519_public_key(*private)
}

/// What `parse_hex_key` gives for a string.
pub open spec fn parse_hex_key_spec(s: Seq<char>) -> Result<Seq<u8>, KeyError> {
    let b = encode_utf8(trim_spec(s));
    if b.len() % 2 != 0 || !(forall|i: int| 0 <= i < b.len() ==> is_hex_byte(#[trigger] b[i])) {
        Err(KeyError::InvalidHex)
    } else if hex_bytes_decode(b).len() != 32 {
        Err(KeyError::WrongLength(hex_bytes_decode(b).len() as usize))
    } else {
        Ok(hex_bytes_decode(b))
    }
}

/// Parse a hex-encoded 32-byte key (surrounding whitespace ignored).
pub fn parse_hex_key(hex_str: &str) -> (r: Result<[u8; 32], KeyError>)
    ensures
        match parse_hex_key_spec(hex_str@) {
            Ok(k) => r matches Ok(v) && v@ == k,
            Err(e) => r == Err::<[u8; 32], KeyError>(e),
        },
{
    let chars = chars_of(hex_str);
    let trimmed = trim_chars(chars.as_slice());
    let t = string_from_chars(trimmed.as_slice());
    let bytes = match hex_crate_decode(t.as_str()) {
        Ok(b) => b,
        Err(_) => return Err(KeyError::InvalidHex),
    };
    if bytes.len() != 32 {
        return Err(KeyError::WrongLength(bytes.len()));
    }
    let mut out = [0u8; 32];
    let mut i: usize = 0;
    while i < 32
        invariant
            bytes@.len() == 32,
            i <= 32,
            out@.len() == 32,
            forall|j: int| 0 <= j < i ==> out@[j] == bytes@[j],
        decreases 32 - i,
    {
        out[i] = bytes[i];
        i = i + 1;
    }
    assert(out@ =~= bytes@);
    Ok(out)
}

} // verus!
