//! SHA-256 digests loaded into 256-bit integers, and targets.

use vstd::prelude::*;
use crate::u256::U256;

verus! {

/// A lowercase hexadecimal digit.
pub open spec fn is_lower_hex_digit(c: char) -> bool {
    ('0' <= c && c <= '9') || ('a' <= c && c <= 'f')
}

/// A hexadecimal digit of either case.
pub open spec fn is_hex_digit(c: char) -> bool {
    ('0' <= c && c <= '9') || ('a' <= c && c <= 'f') || ('A' <= c && c <= 'F')
}

/// The value of a hexadecimal digit.
pub open spec fn hex_digit_value(c: char) -> nat {
    if '0' <= c && c <= '9' {
        (c as nat - '0' as nat) as nat
    } else if 'a' <= c && c <= 'f' {
        (c as nat - 'a' as nat + 10) as nat
    } else {
        (c as nat - 'A' as nat + 10) as nat
    }
}

/// Text that decodes as hexadecimal: an even number of hex digits.
pub open spec fn is_hex_text(s: Seq<char>) -> bool {
    s.len() % 2 == 0 && forall|i: int| 0 <= i < s.len() ==> is_hex_digit(#[trigger] s[i])
}

/// The bytes that hexadecimal text stands for, high nibble first.
pub open spec fn hex_bytes(s: Seq<char>) -> Seq<u8> {
    Seq::new(s.len() / 2, |i: int| (hex_digit_value(s[2 * i]) * 16 + hex_digit_value(s[2 * i + 1])) as u8)
}

/// The lowercase hexadecimal SHA-256 digest of some bytes.
pub uninterp spec fn sha256_hex_of(data: Seq<u8>) -> Seq<char>;

/// Relies on `sha256::digest`, which returns `hex::encode` of the SHA-256
/// digest: 64 lowercase hex digits that depend on the bytes alone.
#[verifier::external_body]
fn sha256_hex(data: &Vec<u8>) -> (r: String)
    ensures
        r@ == sha256_hex_of(data@),
        r@.len() == 64,
        forall|i: int| 0 <= i < 64 ==> is_lower_hex_digit(#[trigger] r@[i]),
{
    sha256::digest(data)
}

/// Relies on `hex::decode`: two digits of either case per byte, high nibble
/// first; an odd length or any other character is an error.
#[verifier::external_body]
fn hex_decode(s: &String) -> (r: Option<Vec<u8>>)
    ensures
        r is Some <==> is_hex_text(s@),
        r matches Some(b) ==> b@ == hex_bytes(s@),
{
    hex::decode(s).ok()
}

/// Eight bytes starting at `k`, most significant first.
pub open spec fn be_limb(s: Seq<u8>, k: int) -> nat {
    (((((((s[k] as nat * 256 + s[k + 1] as nat) * 256 + s[k + 2] as nat) * 256 + s[k + 3] as nat) * 256
        + s[k + 4] as nat) * 256 + s[k + 5] as nat) * 256 + s[k + 6] as nat) * 256 + s[k + 7] as nat)
}

/// 32 bytes read as a big-endian 256-bit integer.
pub open spec fn u256_from_be(s: Seq<u8>) -> U256 {
    U256 {
        w0: be_limb(s, 24) as u64,
        w1: be_limb(s, 16) as u64,
        w2: be_limb(s, 8) as u64,
        w3: be_limb(s, 0) as u64,
    }
}

/// The hash of some bytes: their SHA-256 digest read big-endian.
pub open spec fn digest_of(data: Seq<u8>) -> Hash {
    Hash(u256_from_be(hex_bytes(sha256_hex_of(data))))
}

/// The little-endian bytes of a 256-bit integer.
pub open spec fn u256_le_bytes(v: U256) -> Seq<u8> {
    Seq::new(32, |i: int| {
        let w = if i < 8 { v.w0 } else if i < 16 { v.w1 } else if i < 24 { v.w2 } else { v.w3 };
        ((w >> (8 * (i % 8)) as u64) & 0xff) as u8
    })
}

fn read_be_limb(s: &Vec<u8>, k: usize) -> (r: u64)
    requires
        k <= 24,
        k + 8 <= s@.len(),
    ensures
        r as nat == be_limb(s@, k as int),
{
    let mut acc: u64 = s[k] as u64;
    acc = acc * 256 + s[k + 1] as u64;
    acc = acc * 256 + s[k + 2] as u64;
    acc = acc * 256 + s[k + 3] as u64;
    acc = acc * 256 + s[k + 4] as u64;
    acc = acc * 256 + s[k + 5] as u64;
    acc = acc * 256 + s[k + 6] as u64;
    acc = acc * 256 + s[k + 7] as u64;
    acc
}

/// A SHA-256 digest as a 256-bit integer (big-endian load).
#[derive(Clone, Copy, Debug, PartialEq, Eq, Hash, Structural)]
pub struct Hash(pub U256);

impl Hash {
    /// Hashes some bytes.
    pub fn hash_bytes(data: &Vec<u8>) -> (r: Hash)
        ensures
            r == digest_of(data@),
    {
        let hex = sha256_hex(data);
        proof {
            assert forall|i: int| 0 <= i < hex@.len() implies is_hex_digit(#[trigger] hex@[i]) by {
                assert(is_lower_hex_digit(hex@[i]));
            }
        }
        match hex_decode(&hex) {
            Some(bytes) => {
                assert(bytes@.len() == 32);
                let w3 = read_be_limb(&bytes, 0);
                let w2 = read_be_limb(&bytes, 8);
                let w1 = read_be_limb(&bytes, 16);
                let w0 = read_be_limb(&bytes, 24);
                Hash(U256 { w0, w1, w2, w3 })
            },
            None => {
                proof {
                    assert(false);
                }
                Hash(U256::zero())
            },
        }
    }

    /// Whether the hash is at most `target`.
    pub fn matches_target(&self, target: U256) -> (r: bool)
        ensures
            r == (self.0.value() <= target.value()),
    {
        self.0.le(&target)
    }

    /// The all-zero hash.
    pub fn zero() -> (r: Hash)
        ensures
            r == Hash(U256 { w0: 0, w1: 0, w2: 0, w3: 0 }),
            r.0.value() == 0,
    {
        Hash(U256::zero())
    }

    /// The hash as 32 little-endian bytes (the bytes that signatures cover).
    pub fn as_bytes(&self) -> (r: [u8; 32])
        ensures
            r@ == u256_le_bytes(self.0),
    {
        let mut out = [0u8; 32];
        let mut i: usize = 0;
        while i < 32
            invariant
                0 <= i <= 32,
                out@.len() == 32,
                forall|j: int| 0 <= j < i ==> out@[j] == #[trigger] u256_le_bytes(self.0)[j],
            decreases 32 - i,
        {
            let w = if i < 8 { self.0.w0 } else if i < 16 { self.0.w1 } else if i < 24 { self.0.w2 } else { self.0.w3 };
            out[i] = ((w >> (8 * (i % 8)) as u64) & 0xff) as u8;
            i += 1;
        }
        assert(out@ =~= u256_le_bytes(self.0));
        out
    }
}

} // verus!
