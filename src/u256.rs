//! Unsigned 256-bit integers stored as four little-endian 64-bit limbs.

use vstd::prelude::*;
use vstd::arithmetic::div_mod::{lemma_fundamental_div_mod, lemma_fundamental_div_mod_converse};

verus! {

/// 2^64, the radix of one limb.
pub open spec fn limb_base() -> nat {
    0x1_0000_0000_0000_0000nat
}

/// The value of four little-endian limbs.
pub open spec fn limbs_value(w0: u64, w1: u64, w2: u64, w3: u64) -> nat {
    w0 as nat + limb_base() * (w1 as nat + limb_base() * (w2 as nat + limb_base() * (w3 as nat)))
}

/// 2^256.
pub open spec fn u256_bound() -> nat {
    limb_base() * limb_base() * limb_base() * limb_base()
}

/// An unsigned 256-bit integer; `w0` is the least significant limb.
#[derive(Clone, Copy, Debug, PartialEq, Eq, Hash, Structural)]
pub struct U256 {
    pub w0: u64,
    pub w1: u64,
    pub w2: u64,
    pub w3: u64,
}

proof fn lemma_limbs_bound(w0: u64, w1: u64, w2: u64, w3: u64)
    ensures
        limbs_value(w0, w1, w2, w3) < u256_bound(),
        w0 as nat + limb_base() * (w1 as nat + limb_base() * (w2 as nat)) < limb_base() * limb_base() * limb_base(),
{
    let b = limb_base();
    let x0 = w0 as nat;
    let x1 = w1 as nat;
    let x2 = w2 as nat;
    let x3 = w3 as nat;
    assert(x0 + b * x1 < b * b) by (nonlinear_arith)
        requires x0 < b, x1 < b;
    assert(x0 + b * (x1 + b * x2) < b * b * b) by (nonlinear_arith)
        requires x0 + b * x1 < b * b, x2 < b, x0 < b, x1 < b;
    assert(x0 + b * (x1 + b * (x2 + b * x3)) < b * b * b * b) by (nonlinear_arith)
        requires x0 + b * (x1 + b * x2) < b * b * b, x3 < b;
}

/// Lexicographic order of limbs (most significant first) is numeric order.
proof fn lemma_limbs_order(a: U256, b: U256)
    ensures
        a.w3 < b.w3 ==> a.value() < b.value(),
        a.w3 == b.w3 && a.w2 < b.w2 ==> a.value() < b.value(),
        a.w3 == b.w3 && a.w2 == b.w2 && a.w1 < b.w1 ==> a.value() < b.value(),
        a.w3 == b.w3 && a.w2 == b.w2 && a.w1 == b.w1 && a.w0 < b.w0 ==> a.value() < b.value(),
{
    let bb = limb_base();
    let (a0, a1, a2, a3) = (a.w0 as nat, a.w1 as nat, a.w2 as nat, a.w3 as nat);
    let (b0, b1, b2, b3) = (b.w0 as nat, b.w1 as nat, b.w2 as nat, b.w3 as nat);
    assert(a0 + bb * a1 < bb * bb) by (nonlinear_arith)
        requires a0 < bb, a1 < bb;
    assert(a0 + bb * (a1 + bb * a2) < bb * bb * bb) by (nonlinear_arith)
        requires a0 + bb * a1 < bb * bb, a2 < bb, a0 < bb, a1 < bb;
    if a3 < b3 {
        assert(a0 + bb * (a1 + bb * (a2 + bb * a3)) < b0 + bb * (b1 + bb * (b2 + bb * b3))) by (nonlinear_arith)
            requires a0 + bb * (a1 + bb * a2) < bb * bb * bb, a3 < b3, a0 < bb;
    }
    if a3 == b3 && a2 < b2 {
        assert(a0 + bb * (a1 + bb * a2) < b0 + bb * (b1 + bb * b2)) by (nonlinear_arith)
            requires a0 + bb * a1 < bb * bb, a2 < b2;
        assert(a0 + bb * (a1 + bb * (a2 + bb * a3)) < b0 + bb * (b1 + bb * (b2 + bb * b3))) by (nonlinear_arith)
            requires a0 + bb * (a1 + bb * a2) < b0 + bb * (b1 + bb * b2), a3 == b3;
    }
    if a3 == b3 && a2 == b2 && a1 < b1 {
        assert(a0 + bb * a1 < b0 + bb * b1) by (nonlinear_arith)
            requires a0 < bb, a1 < b1;
        assert(a0 + bb * (a1 + bb * (a2 + bb * a3)) < b0 + bb * (b1 + bb * (b2 + bb * b3))) by (nonlinear_arith)
            requires a0 + bb * a1 < b0 + bb * b1, a3 == b3, a2 == b2;
    }
}

/// Schoolbook multiplication of four limbs by one factor, with carries `d0..d3`.
proof fn lemma_mul_chain(
    bb: int, k: int,
    x0: int, x1: int, x2: int, x3: int,
    r0: int, r1: int, r2: int, r3: int,
    d0: int, d1: int, d2: int, d3: int,
)
    requires
        x0 * k == r0 + bb * d0,
        x1 * k + d0 == r1 + bb * d1,
        x2 * k + d1 == r2 + bb * d2,
        x3 * k + d2 == r3 + bb * d3,
    ensures
        (x0 + bb * (x1 + bb * (x2 + bb * x3))) * k
            == r0 + bb * (r1 + bb * (r2 + bb * r3)) + bb * bb * bb * bb * d3,
{
    assert((x0 + bb * (x1 + bb * (x2 + bb * x3))) * k
        == x0 * k + bb * (x1 * k + bb * (x2 * k + bb * (x3 * k)))) by (nonlinear_arith);
    let s3 = x3 * k;
    assert(bb * s3 == bb * r3 + bb * bb * d3 - bb * d2) by (nonlinear_arith)
        requires s3 == r3 + bb * d3 - d2;
    let s2 = x2 * k + bb * s3;
    assert(s2 == r2 + bb * r3 + bb * bb * d3 - d1);
    assert(bb * s2 == bb * r2 + bb * (bb * r3) + bb * (bb * bb * d3) - bb * d1) by (nonlinear_arith)
        requires s2 == r2 + bb * r3 + bb * bb * d3 - d1;
    let s1 = x1 * k + bb * s2;
    assert(s1 == r1 + bb * r2 + bb * (bb * r3) + bb * (bb * bb * d3) - d0);
    assert(bb * s1 == bb * r1 + bb * (bb * r2) + bb * (bb * (bb * r3)) + bb * (bb * (bb * bb * d3)) - bb * d0)
        by (nonlinear_arith)
        requires s1 == r1 + bb * r2 + bb * (bb * r3) + bb * (bb * bb * d3) - d0;
    assert(r0 + bb * (r1 + bb * (r2 + bb * r3)) == r0 + bb * r1 + bb * (bb * r2) + bb * (bb * (bb * r3)))
        by (nonlinear_arith);
    assert(bb * (bb * (bb * bb * d3)) == bb * bb * bb * bb * d3) by (nonlinear_arith);
}

impl U256 {
    /// The numeric value.
    pub open spec fn value(self) -> nat {
        limbs_value(self.w0, self.w1, self.w2, self.w3)
    }

    /// Builds a value from little-endian limbs.
    pub fn from_limbs(limbs: [u64; 4]) -> (r: U256)
        ensures
            r.w0 == limbs@[0],
            r.w1 == limbs@[1],
            r.w2 == limbs@[2],
            r.w3 == limbs@[3],
    {
        U256 { w0: limbs[0], w1: limbs[1], w2: limbs[2], w3: limbs[3] }
    }

    /// Zero.
    pub fn zero() -> (r: U256)
        ensures
            r.value() == 0,
            r == (U256 { w0: 0, w1: 0, w2: 0, w3: 0 }),
    {
        U256 { w0: 0, w1: 0, w2: 0, w3: 0 }
    }

    /// Numeric `<=`.
    pub fn le(&self, other: &U256) -> (r: bool)
        ensures
            r == (self.value() <= other.value()),
    {
        proof {
            lemma_limbs_order(*self, *other);
            lemma_limbs_order(*other, *self);
        }
        if self.w3 != other.w3 {
            self.w3 < other.w3
        } else if self.w2 != other.w2 {
            self.w2 < other.w2
        } else if self.w1 != other.w1 {
            self.w1 < other.w1
        } else {
            self.w0 <= other.w0
        }
    }

    /// Numeric `<`.
    pub fn lt(&self, other: &U256) -> (r: bool)
        ensures
            r == (self.value() < other.value()),
    {
        !other.le(self)
    }

    /// The smaller of two values.
    pub fn min(self, other: U256) -> (r: U256)
        ensures
            r.value() == if self.value() <= other.value() { self.value() } else { other.value() },
            r == self || r == other,
    {
        if self.le(&other) {
            self
        } else {
            other
        }
    }
    /// The product with a small factor, or `None` when it does not fit in 256 bits.
    pub fn checked_mul_small(self, k: u64) -> (r: Option<U256>)
        ensures
            r is Some <==> self.value() * k < u256_bound(),
            r matches Some(p) ==> p.value() == self.value() * k,
    {
        let b: u128 = 0x1_0000_0000_0000_0000u128;
        proof {
            assert((self.w0 as int) * (k as int) <= 0xFFFF_FFFF_FFFF_FFFFint * 0xFFFF_FFFF_FFFF_FFFFint) by (nonlinear_arith)
                requires self.w0 <= 0xFFFF_FFFF_FFFF_FFFFu64, k <= 0xFFFF_FFFF_FFFF_FFFFu64;
            assert((self.w1 as int) * (k as int) <= 0xFFFF_FFFF_FFFF_FFFFint * 0xFFFF_FFFF_FFFF_FFFFint) by (nonlinear_arith)
                requires self.w1 <= 0xFFFF_FFFF_FFFF_FFFFu64, k <= 0xFFFF_FFFF_FFFF_FFFFu64;
            assert((self.w2 as int) * (k as int) <= 0xFFFF_FFFF_FFFF_FFFFint * 0xFFFF_FFFF_FFFF_FFFFint) by (nonlinear_arith)
                requires self.w2 <= 0xFFFF_FFFF_FFFF_FFFFu64, k <= 0xFFFF_FFFF_FFFF_FFFFu64;
            assert((self.w3 as int) * (k as int) <= 0xFFFF_FFFF_FFFF_FFFFint * 0xFFFF_FFFF_FFFF_FFFFint) by (nonlinear_arith)
                requires self.w3 <= 0xFFFF_FFFF_FFFF_FFFFu64, k <= 0xFFFF_FFFF_FFFF_FFFFu64;
        }
        let p0: u128 = (self.w0 as u128) * (k as u128);
        let c0: u128 = p0 / b;
        let p1: u128 = (self.w1 as u128) * (k as u128) + c0;
        let c1: u128 = p1 / b;
        let p2: u128 = (self.w2 as u128) * (k as u128) + c1;
        let c2: u128 = p2 / b;
        let p3: u128 = (self.w3 as u128) * (k as u128) + c2;
        let c3: u128 = p3 / b;
        let r = U256 { w0: (p0 % b) as u64, w1: (p1 % b) as u64, w2: (p2 % b) as u64, w3: (p3 % b) as u64 };
        proof {
            let bb = limb_base() as int;
            let kk = k as int;
            let (x0, x1, x2, x3) = (self.w0 as int, self.w1 as int, self.w2 as int, self.w3 as int);
            let (r0, r1, r2, r3) = (r.w0 as int, r.w1 as int, r.w2 as int, r.w3 as int);
            let (d0, d1, d2, d3) = (c0 as int, c1 as int, c2 as int, c3 as int);
            assert(x0 * kk == r0 + bb * d0);
            assert(x1 * kk + d0 == r1 + bb * d1);
            assert(x2 * kk + d1 == r2 + bb * d2);
            assert(x3 * kk + d2 == r3 + bb * d3);
            lemma_mul_chain(bb, kk, x0, x1, x2, x3, r0, r1, r2, r3, d0, d1, d2, d3);
            lemma_limbs_bound(r.w0, r.w1, r.w2, r.w3);
            if d3 > 0 {
                assert(bb * bb * bb * bb * d3 >= bb * bb * bb * bb) by (nonlinear_arith)
                    requires d3 >= 1, bb > 0;
            }
        }
        if c3 == 0 {
            Some(r)
        } else {
            None
        }
    }

    /// Floor division by a nonzero small divisor.
    pub fn div_small(self, k: u64) -> (r: U256)
        requires
            k > 0,
        ensures
            r.value() == self.value() / (k as nat),
    {
        let b: u128 = 0x1_0000_0000_0000_0000u128;
        let kk: u128 = k as u128;
        let cur3: u128 = self.w3 as u128;
        let q3: u128 = cur3 / kk;
        let m3: u128 = cur3 % kk;
        proof {
            assert(m3 * b + 0xFFFF_FFFF_FFFF_FFFFu128 < kk * b) by (nonlinear_arith)
                requires m3 < kk, b == 0x1_0000_0000_0000_0000u128;
        }
        let cur2: u128 = m3 * b + self.w2 as u128;
        let q2: u128 = cur2 / kk;
        let m2: u128 = cur2 % kk;
        proof {
            assert(q2 < b) by (nonlinear_arith)
                requires cur2 < kk * b, q2 == cur2 / kk, kk > 0;
            assert(m2 * b + 0xFFFF_FFFF_FFFF_FFFFu128 < kk * b) by (nonlinear_arith)
                requires m2 < kk, b == 0x1_0000_0000_0000_0000u128;
        }
        let cur1: u128 = m2 * b + self.w1 as u128;
        let q1: u128 = cur1 / kk;
        let m1: u128 = cur1 % kk;
        proof {
            assert(q1 < b) by (nonlinear_arith)
                requires cur1 < kk * b, q1 == cur1 / kk, kk > 0;
            assert(m1 * b + 0xFFFF_FFFF_FFFF_FFFFu128 < kk * b) by (nonlinear_arith)
                requires m1 < kk, b == 0x1_0000_0000_0000_0000u128;
        }
        let cur0: u128 = m1 * b + self.w0 as u128;
        let q0: u128 = cur0 / kk;
        let m0: u128 = cur0 % kk;
        proof {
            assert(q0 < b) by (nonlinear_arith)
                requires cur0 < kk * b, q0 == cur0 / kk, kk > 0;
            assert(q3 <= cur3);
        }
        let r = U256 { w0: q0 as u64, w1: q1 as u64, w2: q2 as u64, w3: q3 as u64 };
        proof {
            let bb = limb_base() as int;
            let d = k as int;
            let (x0, x1, x2, x3) = (self.w0 as int, self.w1 as int, self.w2 as int, self.w3 as int);
            let (y0, y1, y2, y3) = (q0 as int, q1 as int, q2 as int, q3 as int);
            let (n0, n1, n2, n3) = (m0 as int, m1 as int, m2 as int, m3 as int);
            lemma_fundamental_div_mod(cur3 as int, d);
            lemma_fundamental_div_mod(cur2 as int, d);
            lemma_fundamental_div_mod(cur1 as int, d);
            lemma_fundamental_div_mod(cur0 as int, d);
            assert(y3 * d == d * y3 && y2 * d == d * y2 && y1 * d == d * y1 && y0 * d == d * y0)
                by (nonlinear_arith);
            assert(x3 == y3 * d + n3);
            assert(n3 * bb + x2 == y2 * d + n2);
            assert(n2 * bb + x1 == y1 * d + n1);
            assert(n1 * bb + x0 == y0 * d + n0);
            lemma_mul_chain(bb, d, y0, y1, y2, y3, x0 - n0, x1, x2, x3, n1, n2, n3, 0);
            lemma_fundamental_div_mod_converse(self.value() as int, d, r.value() as int, n0);
        }
        r
    }
}

} // verus!
