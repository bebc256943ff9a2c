//! ECDSA over secp256k1: keys and signatures as plain bytes.

use vstd::prelude::*;
use crate::hashing::u256_le_bytes;
use k256::ecdsa::signature::{Signer, Verifier};
use k256::elliptic_curve::group::GroupEncoding;

verus! {

/// The order of the secp256k1 group.
pub open spec fn secp256k1_order() -> nat {
    0xFFFF_FFFF_FFFF_FFFF_FFFF_FFFF_FFFF_FFFE_BAAE_DCE6_AF48_A03B_BFD2_5E8C_D036_4141nat
}

/// Bytes read as a big-endian unsigned integer.
pub open spec fn be_value(s: Seq<u8>) -> nat
    decreases s.len(),
{
    if s.len() == 0 {
        0
    } else {
        be_value(s.drop_last()) * 256 + s.last() as nat
    }
}

/// A usable secret: 32 big-endian bytes of a nonzero scalar below the group order.
pub open spec fn valid_secret(s: Seq<u8>) -> bool {
    s.len() == 32 && 0 < be_value(s) < secp256k1_order()
}

/// The 64-byte `(r, s)` signature that the secret key gives for a message.
pub uninterp spec fn ecdsa_signature_of(secret: Seq<u8>, msg: Seq<u8>) -> Seq<u8>;

/// The compressed public key (33 bytes) of a secret key.
pub uninterp spec fn ecdsa_public_key_of(secret: Seq<u8>) -> Seq<u8>;

/// Whether a signature is valid for a message under a compressed public key.
pub uninterp spec fn ecdsa_accepts(sig: Seq<u8>, msg: Seq<u8>, key: Seq<u8>) -> bool;

/// Relies on k256's `SigningKey::from_slice`, which for 32 bytes refuses
/// exactly zero and values at or above the group order
/// (`SecretKey::from_bytes`), on `Signer::sign`, whose nonces follow RFC 6979 so
/// that the signature depends on key and message alone, and on
/// `Signature::to_bytes` (`r` then `s`).
#[verifier::external_body]
fn ecdsa_sign(secret: &[u8; 32], msg: &[u8; 32]) -> (r: Option<[u8; 64]>)
    ensures
        r is Some <==> valid_secret(secret@),
        r matches Some(s) ==> s@ == ecdsa_signature_of(secret@, msg@),
{
    match k256::ecdsa::SigningKey::from_slice(secret) {
        Ok(key) => {
            let sig: k256::ecdsa::Signature = key.sign(msg);
            Some(sig.to_bytes().into())
        },
        Err(_) => None,
    }
}

/// Relies on k256's `SigningKey::from_slice` (refusing exactly zero and values
/// at or above the group order) and on `GroupEncoding::to_bytes`
/// of the verifying key's point, which is the 33-byte compressed SEC1 form.
#[verifier::external_body]
fn ecdsa_public_key(secret: &[u8; 32]) -> (r: Option<[u8; 33]>)
    ensures
        r is Some <==> valid_secret(secret@),
        r matches Some(p) ==> p@ == ecdsa_public_key_of(secret@),
{
    match k256::ecdsa::SigningKey::from_slice(secret) {
        Ok(key) => Some(key.verifying_key().as_affine().to_bytes().into()),
        Err(_) => None,
    }
}

/// Relies on k256's `VerifyingKey::from_sec1_bytes`, `Signature::from_slice`
/// and `Verifier::verify` (SHA-256 of the message, then ECDSA); a key or a
/// signature that does not parse gives `false`.
#[verifier::external_body]
fn ecdsa_verify(sig: &[u8; 64], msg: &[u8; 32], key: &[u8; 33]) -> (r: bool)
    ensures
        r == ecdsa_accepts(sig@, msg@, key@),
{
    match (k256::ecdsa::VerifyingKey::from_sec1_bytes(key), k256::ecdsa::Signature::from_slice(sig)) {
        (Ok(k), Ok(s)) => k.verify(msg, &s).is_ok(),
        _ => false,
    }
}

/// Relies on k256's `SigningKey::random` with `rand::thread_rng`, which draws
/// until it gets a nonzero scalar below the group order
/// (`NonZeroScalar::random`), and on `to_bytes` (big-endian); nothing more is
/// known of the bytes.
#[verifier::external_body]
fn random_secret() -> (r: [u8; 32])
    ensures
        valid_secret(r@),
{
    k256::ecdsa::SigningKey::random(&mut rand::thread_rng()).to_bytes().into()
}

/// A compressed SEC1 public key.
#[derive(Clone, Copy, Debug, PartialEq, Eq)]
pub struct PublicKey {
    pub bytes: [u8; 33],
}

/// A fixed-size ECDSA signature: `r` then `s`, 32 bytes each.
#[derive(Clone, Copy, Debug, PartialEq, Eq)]
pub struct Signature {
    pub bytes: [u8; 64],
}

/// A secret scalar, 32 big-endian bytes.
#[derive(Clone, Copy, Debug, PartialEq, Eq)]
pub struct PrivateKey {
    pub bytes: [u8; 32],
}

impl Signature {
    /// Signs the little-endian bytes of an output hash; `None` when the
    /// secret is not a valid scalar.
    pub fn sign_output(output_hash: &crate::hashing::Hash, private_key: &PrivateKey) -> (r: Option<Signature>)
        ensures
            r is Some <==> valid_secret(private_key.bytes@),
            r matches Some(s) ==> s.bytes@ == ecdsa_signature_of(
                private_key.bytes@,
                u256_le_bytes(output_hash.0),
            ),
    {
        let msg = output_hash.as_bytes();
        match ecdsa_sign(&private_key.bytes, &msg) {
            Some(bytes) => Some(Signature { bytes }),
            None => None,
        }
    }

    /// Whether this signs the little-endian bytes of `output_hash` under `public_key`.
    pub fn verify(&self, output_hash: &crate::hashing::Hash, public_key: &PublicKey) -> (r: bool)
        ensures
            r == ecdsa_accepts(self.bytes@, u256_le_bytes(output_hash.0), public_key.bytes@),
    {
        let msg = output_hash.as_bytes();
        ecdsa_verify(&self.bytes, &msg, &public_key.bytes)
    }
}

impl PrivateKey {
    /// A fresh random key.
    pub fn new_key() -> (r: PrivateKey)
        ensures
            valid_secret(r.bytes@),
    {
        PrivateKey { bytes: random_secret() }
    }

    /// The public key of this secret; `None` when it is not a valid scalar.
    pub fn public_key(&self) -> (r: Option<PublicKey>)
        ensures
            r is Some <==> valid_secret(self.bytes@),
            r matches Some(p) ==> p.bytes@ == ecdsa_public_key_of(self.bytes@),
    {
        match ecdsa_public_key(&self.bytes) {
            Some(bytes) => Some(PublicKey { bytes }),
            None => None,
        }
    }
}

} // verus!
