//! The canonical binary encoding (a deterministic subset of CBOR): unsigned
//! integers in their shortest form, byte strings, booleans and arrays.
//! Records are arrays of their fields in declared order. This differs from
//! a serde encoding that writes records as maps keyed by field names, so
//! hashes, signatures and saved files made that way do not carry over.

use vstd::prelude::*;
use crate::u256::U256;

verus! {

/// CBOR major type of an unsigned integer.
pub const MAJOR_UINT: u8 = 0;
/// CBOR major type of a byte string.
pub const MAJOR_BYTES: u8 = 2;
/// CBOR major type of an array.
pub const MAJOR_ARRAY: u8 = 4;

/// The last `k` bytes of `n`, most significant first.
pub open spec fn be_bytes(n: u64, k: nat) -> Seq<u8> {
    Seq::new(k, |i: int| ((n >> (8 * (k - 1 - i)) as u64) & 0xff) as u8)
}

/// The width in bytes of the argument that follows the initial byte.
pub open spec fn head_width(n: u64) -> nat {
    if n < 24 {
        0
    } else if n < 0x100 {
        1
    } else if n < 0x1_0000 {
        2
    } else if n < 0x1_0000_0000 {
        4
    } else {
        8
    }
}

/// The additional-information bits of the initial byte.
pub open spec fn head_info(n: u64) -> nat {
    if n < 24 {
        n as nat
    } else if n < 0x100 {
        24
    } else if n < 0x1_0000 {
        25
    } else if n < 0x1_0000_0000 {
        26
    } else {
        27
    }
}

/// The head of a data item: major type and argument, in the shortest form.
pub open spec fn head(major: u8, n: u64) -> Seq<u8> {
    seq![(major as nat * 32 + head_info(n)) as u8] + be_bytes(n, head_width(n))
}

/// An unsigned integer.
pub open spec fn enc_uint(n: u64) -> Seq<u8> {
    head(MAJOR_UINT, n)
}

/// A byte string.
pub open spec fn enc_bytes(b: Seq<u8>) -> Seq<u8> {
    head(MAJOR_BYTES, b.len() as u64) + b
}

/// A boolean (simple values 20 and 21).
pub open spec fn enc_bool(b: bool) -> Seq<u8> {
    seq![if b { 0xf5u8 } else { 0xf4u8 }]
}

/// The head of an array of `n` items.
pub open spec fn enc_array_head(n: nat) -> Seq<u8> {
    head(MAJOR_ARRAY, n as u64)
}

/// A 256-bit integer: an array of its four limbs, least significant first.
pub open spec fn enc_u256(v: U256) -> Seq<u8> {
    enc_array_head(4) + enc_uint(v.w0) + enc_uint(v.w1) + enc_uint(v.w2) + enc_uint(v.w3)
}

/// The 16 big-endian bytes of a 128-bit value.
pub open spec fn u128_be_bytes(v: u128) -> Seq<u8> {
    Seq::new(16, |i: int| ((v >> (8 * (15 - i)) as u128) & 0xff) as u8)
}

/// A 128-bit tag: a byte string of its 16 big-endian bytes.
pub open spec fn enc_u128(v: u128) -> Seq<u8> {
    head(MAJOR_BYTES, 16) + u128_be_bytes(v)
}

/// Appends the head of a data item.
pub fn write_head(out: &mut Vec<u8>, major: u8, n: u64)
    requires
        major < 8,
    ensures
        final(out)@ == old(out)@ + head(major, n),
{
    let (info, width): (u8, u64) = if n < 24 {
        (n as u8, 0)
    } else if n < 0x100 {
        (24, 1)
    } else if n < 0x1_0000 {
        (25, 2)
    } else if n < 0x1_0000_0000 {
        (26, 4)
    } else {
        (27, 8)
    };
    let ghost start = out@;
    out.push(major * 32 + info);
    let mut i: u64 = 0;
    while i < width
        invariant
            0 <= i <= width,
            width as nat == head_width(n),
            info as nat == head_info(n),
            major < 8,
            out@ == start + seq![(major as nat * 32 + head_info(n)) as u8] + be_bytes(n, width as nat).take(i as int),
        decreases width - i,
    {
        out.push(((n >> (8 * (width - 1 - i))) & 0xff) as u8);
        proof {
            assert(be_bytes(n, width as nat).take(i as int + 1) =~= be_bytes(n, width as nat).take(i as int).push(
                ((n >> (8 * (width - 1 - i)) as u64) & 0xff) as u8,
            ));
        }
        i += 1;
    }
    assert(be_bytes(n, width as nat).take(width as int) =~= be_bytes(n, width as nat));
}

/// Appends an unsigned integer.
pub fn write_uint(out: &mut Vec<u8>, n: u64)
    ensures
        final(out)@ == old(out)@ + enc_uint(n),
{
    write_head(out, MAJOR_UINT, n);
}

/// Appends a byte string.
pub fn write_bytes(out: &mut Vec<u8>, b: &[u8])
    ensures
        final(out)@ == old(out)@ + enc_bytes(b@),
{
    write_head(out, MAJOR_BYTES, b.len() as u64);
    let ghost mid = out@;
    let mut i: usize = 0;
    while i < b.len()
        invariant
            0 <= i <= b@.len(),
            out@ == mid + b@.take(i as int),
        decreases b@.len() - i,
    {
        out.push(b[i]);
        assert(b@.take(i as int + 1) =~= b@.take(i as int).push(b@[i as int]));
        i += 1;
    }
    assert(b@.take(b@.len() as int) =~= b@);
    assert(mid + b@ =~= old(out)@ + enc_bytes(b@));
}

/// Appends a boolean.
pub fn write_bool(out: &mut Vec<u8>, b: bool)
    ensures
        final(out)@ == old(out)@ + enc_bool(b),
{
    out.push(if b { 0xf5u8 } else { 0xf4u8 });
}

/// Appends the head of an array of `n` items.
pub fn write_array_head(out: &mut Vec<u8>, n: usize)
    ensures
        final(out)@ == old(out)@ + enc_array_head(n as nat),
{
    write_head(out, MAJOR_ARRAY, n as u64);
}

/// Appends a 256-bit integer.
pub fn write_u256(out: &mut Vec<u8>, v: &U256)
    ensures
        final(out)@ == old(out)@ + enc_u256(*v),
{
    write_array_head(out, 4);
    write_uint(out, v.w0);
    write_uint(out, v.w1);
    write_uint(out, v.w2);
    write_uint(out, v.w3);
    assert(final(out)@ =~= old(out)@ + enc_u256(*v));
}

/// Appends a 128-bit tag.
pub fn write_u128(out: &mut Vec<u8>, v: u128)
    ensures
        final(out)@ == old(out)@ + enc_u128(v),
{
    write_head(out, MAJOR_BYTES, 16);
    let ghost mid = out@;
    let ghost tail = Seq::new(16, |i: int| ((v >> (8 * (15 - i)) as u128) & 0xff) as u8);
    let mut i: u32 = 0;
    while i < 16
        invariant
            0 <= i <= 16,
            out@ == mid + tail.take(i as int),
            tail == Seq::new(16, |i: int| ((v >> (8 * (15 - i)) as u128) & 0xff) as u8),
        decreases 16 - i,
    {
        out.push(((v >> (8 * (15 - i))) & 0xff) as u8);
        assert(tail.take(i as int + 1) =~= tail.take(i as int).push(tail[i as int]));
        i += 1;
    }
    assert(tail.take(16) =~= tail);
    assert(mid + tail =~= old(out)@ + enc_u128(v));
}

} // verus!

verus! {

/// `e` appears in `data` at `pos`.
pub open spec fn prefix_at(data: Seq<u8>, pos: int, e: Seq<u8>) -> bool {
    0 <= pos && pos + e.len() <= data.len() && data.subrange(pos, pos + e.len()) == e
}

proof fn lemma_byte_eq(v1: u64, v2: u64)
    requires
        ((v1 & 0xff) as u8) == ((v2 & 0xff) as u8),
    ensures
        v1 & 0xff == v2 & 0xff,
{
    assert(v1 & 0xff == v2 & 0xff) by (bit_vector)
        requires ((v1 & 0xff) as u8) == ((v2 & 0xff) as u8);
}

proof fn lemma_be_byte_eq(a: u64, b: u64, w: nat, shift: u64)
    requires
        be_bytes(a, w) == be_bytes(b, w),
        shift % 8 == 0,
        shift < 8 * w,
        w <= 8,
    ensures
        (a >> shift) & 0xff == (b >> shift) & 0xff,
{
    let i = w - 1 - shift / 8;
    assert(8 * (w - 1 - i) == shift as int);
    assert(be_bytes(a, w)[i] == be_bytes(b, w)[i]);
    assert(be_bytes(a, w)[i] == ((a >> shift) & 0xff) as u8);
    assert(be_bytes(b, w)[i] == ((b >> shift) & 0xff) as u8);
    lemma_byte_eq(a >> shift, b >> shift);
}

proof fn lemma_be_bytes_injective(a: u64, b: u64, w: nat)
    requires
        w == 1 || w == 2 || w == 4 || w == 8,
        w == 1 ==> a < 0x100 && b < 0x100,
        w == 2 ==> a < 0x1_0000 && b < 0x1_0000,
        w == 4 ==> a < 0x1_0000_0000 && b < 0x1_0000_0000,
        be_bytes(a, w) == be_bytes(b, w),
    ensures
        a == b,
{
    let x = be_bytes(a, w);
    let y = be_bytes(b, w);
    if w == 1 {
        lemma_be_byte_eq(a, b, w, 0);
        assert(a == b) by (bit_vector)
            requires a < 0x100, b < 0x100, (a >> 0u64) & 0xff == (b >> 0u64) & 0xff;
    } else if w == 2 {
        lemma_be_byte_eq(a, b, w, 8);
        lemma_be_byte_eq(a, b, w, 0);
        assert(a == b) by (bit_vector)
            requires a < 0x1_0000, b < 0x1_0000, (a >> 8u64) & 0xff == (b >> 8u64) & 0xff,
                (a >> 0u64) & 0xff == (b >> 0u64) & 0xff;
    } else if w == 4 {
        lemma_be_byte_eq(a, b, w, 24);
        lemma_be_byte_eq(a, b, w, 16);
        lemma_be_byte_eq(a, b, w, 8);
        lemma_be_byte_eq(a, b, w, 0);
        assert(a == b) by (bit_vector)
            requires a < 0x1_0000_0000, b < 0x1_0000_0000, (a >> 24u64) & 0xff == (b >> 24u64) & 0xff,
                (a >> 16u64) & 0xff == (b >> 16u64) & 0xff, (a >> 8u64) & 0xff == (b >> 8u64) & 0xff,
                (a >> 0u64) & 0xff == (b >> 0u64) & 0xff;
    } else {
        lemma_be_byte_eq(a, b, w, 56);
        lemma_be_byte_eq(a, b, w, 48);
        lemma_be_byte_eq(a, b, w, 40);
        lemma_be_byte_eq(a, b, w, 32);
        lemma_be_byte_eq(a, b, w, 24);
        lemma_be_byte_eq(a, b, w, 16);
        lemma_be_byte_eq(a, b, w, 8);
        lemma_be_byte_eq(a, b, w, 0);
        assert(a == b) by (bit_vector)
            requires (a >> 56u64) & 0xff == (b >> 56u64) & 0xff, (a >> 48u64) & 0xff == (b >> 48u64) & 0xff,
                (a >> 40u64) & 0xff == (b >> 40u64) & 0xff, (a >> 32u64) & 0xff == (b >> 32u64) & 0xff,
                (a >> 24u64) & 0xff == (b >> 24u64) & 0xff, (a >> 16u64) & 0xff == (b >> 16u64) & 0xff,
                (a >> 8u64) & 0xff == (b >> 8u64) & 0xff, (a >> 0u64) & 0xff == (b >> 0u64) & 0xff;
    }
}

proof fn lemma_head_parts(data: Seq<u8>, pos: int, major: u8, n: u64)
    requires
        major < 8,
        prefix_at(data, pos, head(major, n)),
    ensures
        data[pos] == (major as nat * 32 + head_info(n)) as u8,
        (major as nat * 32 + head_info(n)) < 256,
        data.subrange(pos + 1, pos + 1 + head_width(n)) == be_bytes(n, head_width(n)),
        head(major, n).len() == 1 + head_width(n),
{
    let h = head(major, n);
    assert(data.subrange(pos, pos + h.len())[0] == h[0]);
    assert(data.subrange(pos + 1, pos + 1 + head_width(n)) =~= data.subrange(pos, pos + h.len()).subrange(1, h.len() as int));
    assert(h.subrange(1, h.len() as int) =~= be_bytes(n, head_width(n)));
}

/// A concatenation found at `pos` is its first part at `pos` and its second
/// part right after.
pub proof fn lemma_prefix_split(data: Seq<u8>, pos: int, a: Seq<u8>, b: Seq<u8>)
    requires
        prefix_at(data, pos, a + b),
    ensures
        prefix_at(data, pos, a),
        prefix_at(data, pos + a.len(), b),
{
    assert(data.subrange(pos, pos + a.len()) =~= data.subrange(pos, pos + (a + b).len()).subrange(0, a.len() as int));
    assert((a + b).subrange(0, a.len() as int) =~= a);
    assert(data.subrange(pos + a.len(), pos + a.len() + b.len()) =~= data.subrange(pos, pos + (a + b).len()).subrange(
        a.len() as int,
        (a + b).len() as int,
    ));
    assert((a + b).subrange(a.len() as int, (a + b).len() as int) =~= b);
}

proof fn lemma_byte_eq_128(v1: u128, v2: u128)
    requires
        ((v1 & 0xff) as u8) == ((v2 & 0xff) as u8),
    ensures
        v1 & 0xff == v2 & 0xff,
{
    assert(v1 & 0xff == v2 & 0xff) by (bit_vector)
        requires ((v1 & 0xff) as u8) == ((v2 & 0xff) as u8);
}

proof fn lemma_u128_bytes_injective(a: u128, b: u128)
    requires
        u128_be_bytes(a) == u128_be_bytes(b),
    ensures
        a == b,
{
    let x = u128_be_bytes(a);
    let y = u128_be_bytes(b);
    assert forall|i: int| 0 <= i < 16 implies #[trigger] ((a >> (8 * (15 - i)) as u128) & 0xff) == ((b >> (8 * (15
        - i)) as u128) & 0xff) by {
        assert(x[i] == y[i]);
        assert(x[i] == ((a >> (8 * (15 - i)) as u128) & 0xff) as u8);
        assert(y[i] == ((b >> (8 * (15 - i)) as u128) & 0xff) as u8);
        lemma_byte_eq_128(a >> (8 * (15 - i)) as u128, b >> (8 * (15 - i)) as u128);
    }
    assert(((a >> 120u128) & 0xff) == ((b >> 120u128) & 0xff)) by { assert((8 * (15 - 0int)) as u128 == 120u128); }
    assert(((a >> 112u128) & 0xff) == ((b >> 112u128) & 0xff)) by { assert((8 * (15 - 1int)) as u128 == 112u128); }
    assert(((a >> 104u128) & 0xff) == ((b >> 104u128) & 0xff)) by { assert((8 * (15 - 2int)) as u128 == 104u128); }
    assert(((a >> 96u128) & 0xff) == ((b >> 96u128) & 0xff)) by { assert((8 * (15 - 3int)) as u128 == 96u128); }
    assert(((a >> 88u128) & 0xff) == ((b >> 88u128) & 0xff)) by { assert((8 * (15 - 4int)) as u128 == 88u128); }
    assert(((a >> 80u128) & 0xff) == ((b >> 80u128) & 0xff)) by { assert((8 * (15 - 5int)) as u128 == 80u128); }
    assert(((a >> 72u128) & 0xff) == ((b >> 72u128) & 0xff)) by { assert((8 * (15 - 6int)) as u128 == 72u128); }
    assert(((a >> 64u128) & 0xff) == ((b >> 64u128) & 0xff)) by { assert((8 * (15 - 7int)) as u128 == 64u128); }
    assert(((a >> 56u128) & 0xff) == ((b >> 56u128) & 0xff)) by { assert((8 * (15 - 8int)) as u128 == 56u128); }
    assert(((a >> 48u128) & 0xff) == ((b >> 48u128) & 0xff)) by { assert((8 * (15 - 9int)) as u128 == 48u128); }
    assert(((a >> 40u128) & 0xff) == ((b >> 40u128) & 0xff)) by { assert((8 * (15 - 10int)) as u128 == 40u128); }
    assert(((a >> 32u128) & 0xff) == ((b >> 32u128) & 0xff)) by { assert((8 * (15 - 11int)) as u128 == 32u128); }
    assert(((a >> 24u128) & 0xff) == ((b >> 24u128) & 0xff)) by { assert((8 * (15 - 12int)) as u128 == 24u128); }
    assert(((a >> 16u128) & 0xff) == ((b >> 16u128) & 0xff)) by { assert((8 * (15 - 13int)) as u128 == 16u128); }
    assert(((a >> 8u128) & 0xff) == ((b >> 8u128) & 0xff)) by { assert((8 * (15 - 14int)) as u128 == 8u128); }
    assert(((a >> 0u128) & 0xff) == ((b >> 0u128) & 0xff)) by { assert((8 * (15 - 15int)) as u128 == 0u128); }
    assert(a == b) by (bit_vector)
        requires
            ((a >> 120u128) & 0xff) == ((b >> 120u128) & 0xff), ((a >> 112u128) & 0xff) == ((b >> 112u128) & 0xff),
            ((a >> 104u128) & 0xff) == ((b >> 104u128) & 0xff), ((a >> 96u128) & 0xff) == ((b >> 96u128) & 0xff),
            ((a >> 88u128) & 0xff) == ((b >> 88u128) & 0xff), ((a >> 80u128) & 0xff) == ((b >> 80u128) & 0xff),
            ((a >> 72u128) & 0xff) == ((b >> 72u128) & 0xff), ((a >> 64u128) & 0xff) == ((b >> 64u128) & 0xff),
            ((a >> 56u128) & 0xff) == ((b >> 56u128) & 0xff), ((a >> 48u128) & 0xff) == ((b >> 48u128) & 0xff),
            ((a >> 40u128) & 0xff) == ((b >> 40u128) & 0xff), ((a >> 32u128) & 0xff) == ((b >> 32u128) & 0xff),
            ((a >> 24u128) & 0xff) == ((b >> 24u128) & 0xff), ((a >> 16u128) & 0xff) == ((b >> 16u128) & 0xff),
            ((a >> 8u128) & 0xff) == ((b >> 8u128) & 0xff), ((a >> 0u128) & 0xff) == ((b >> 0u128) & 0xff);
}

/// Splitting a range of a sequence at a middle point.
pub proof fn lemma_subrange_split(s: Seq<u8>, a: int, b: int, c: int)
    requires
        0 <= a <= b <= c <= s.len(),
    ensures
        s.subrange(a, c) == s.subrange(a, b) + s.subrange(b, c),
{
    assert(s.subrange(a, c) =~= s.subrange(a, b) + s.subrange(b, c));
}

proof fn lemma_be_bytes_1(n: u64, b0: u8)
    requires
        n == b0 as u64,
    ensures
        be_bytes(n, 1) == seq![b0],
{
    assert(((n >> 0u64) & 0xff) == n) by (bit_vector)
        requires n < 256;
    assert(be_bytes(n, 1) =~= seq![b0]);
}

proof fn lemma_be_bytes_2(n: u64, b0: u8, b1: u8)
    requires
        n == (b0 as u64) << 8u64 | (b1 as u64),
    ensures
        be_bytes(n, 2) == seq![b0, b1],
{
    let x0 = b0 as u64;
    let x1 = b1 as u64;
    assert(((n >> 8u64) & 0xff) == x0 && ((n >> 0u64) & 0xff) == x1) by (bit_vector)
        requires x0 < 256, x1 < 256, n == x0 << 8u64 | x1;
    assert(be_bytes(n, 2) =~= seq![b0, b1]);
}

proof fn lemma_be_bytes_4(n: u64, b0: u8, b1: u8, b2: u8, b3: u8)
    requires
        n == (b0 as u64) << 24u64 | (b1 as u64) << 16u64 | (b2 as u64) << 8u64 | (b3 as u64),
    ensures
        be_bytes(n, 4) == seq![b0, b1, b2, b3],
{
    let (x0, x1, x2, x3) = (b0 as u64, b1 as u64, b2 as u64, b3 as u64);
    assert(((n >> 24u64) & 0xff) == x0 && ((n >> 16u64) & 0xff) == x1 && ((n >> 8u64) & 0xff) == x2
        && ((n >> 0u64) & 0xff) == x3) by (bit_vector)
        requires x0 < 256, x1 < 256, x2 < 256, x3 < 256, n == x0 << 24u64 | x1 << 16u64 | x2 << 8u64 | x3;
    assert(be_bytes(n, 4) =~= seq![b0, b1, b2, b3]);
}

proof fn lemma_be_bytes_8(n: u64, hi: u64, lo: u64, b: Seq<u8>)
    requires
        b.len() == 8,
        hi == (b[0] as u64) << 24u64 | (b[1] as u64) << 16u64 | (b[2] as u64) << 8u64 | (b[3] as u64),
        lo == (b[4] as u64) << 24u64 | (b[5] as u64) << 16u64 | (b[6] as u64) << 8u64 | (b[7] as u64),
        n == hi << 32u64 | lo,
    ensures
        be_bytes(n, 8) == b,
{
    let (x0, x1, x2, x3) = (b[0] as u64, b[1] as u64, b[2] as u64, b[3] as u64);
    let (x4, x5, x6, x7) = (b[4] as u64, b[5] as u64, b[6] as u64, b[7] as u64);
    assert(hi < 0x1_0000_0000 && ((hi >> 24u64) & 0xff) == x0 && ((hi >> 16u64) & 0xff) == x1 && ((hi >> 8u64) & 0xff) == x2
        && ((hi >> 0u64) & 0xff) == x3) by (bit_vector)
        requires x0 < 256, x1 < 256, x2 < 256, x3 < 256, hi == x0 << 24u64 | x1 << 16u64 | x2 << 8u64 | x3;
    assert(lo < 0x1_0000_0000 && ((lo >> 24u64) & 0xff) == x4 && ((lo >> 16u64) & 0xff) == x5 && ((lo >> 8u64) & 0xff) == x6
        && ((lo >> 0u64) & 0xff) == x7) by (bit_vector)
        requires x4 < 256, x5 < 256, x6 < 256, x7 < 256, lo == x4 << 24u64 | x5 << 16u64 | x6 << 8u64 | x7;
    assert(((n >> 56u64) & 0xff) == ((hi >> 24u64) & 0xff) && ((n >> 48u64) & 0xff) == ((hi >> 16u64) & 0xff)
        && ((n >> 40u64) & 0xff) == ((hi >> 8u64) & 0xff) && ((n >> 32u64) & 0xff) == ((hi >> 0u64) & 0xff)
        && ((n >> 24u64) & 0xff) == ((lo >> 24u64) & 0xff) && ((n >> 16u64) & 0xff) == ((lo >> 16u64) & 0xff)
        && ((n >> 8u64) & 0xff) == ((lo >> 8u64) & 0xff) && ((n >> 0u64) & 0xff) == ((lo >> 0u64) & 0xff)) by (bit_vector)
        requires hi < 0x1_0000_0000, lo < 0x1_0000_0000, n == hi << 32u64 | lo;
    assert(be_bytes(n, 8) =~= b);
}

fn read_u32_be(data: &Vec<u8>, p: usize) -> (r: u64)
    requires
        p + 4 <= data@.len(),
        data@.len() <= usize::MAX,
    ensures
        r == (data@[p as int] as u64) << 24u64 | (data@[p + 1] as u64) << 16u64 | (data@[p + 2] as u64) << 8u64
            | (data@[p + 3] as u64),
        r < 0x1_0000_0000,
{
    let (x0, x1, x2, x3) = (data[p] as u64, data[p + 1] as u64, data[p + 2] as u64, data[p + 3] as u64);
    let r = x0 << 24u64 | x1 << 16u64 | x2 << 8u64 | x3;
    assert(r < 0x1_0000_0000) by (bit_vector)
        requires x0 < 256, x1 < 256, x2 < 256, x3 < 256, r == x0 << 24u64 | x1 << 16u64 | x2 << 8u64 | x3;
    r
}

fn read_u64_be(data: &Vec<u8>, p: usize) -> (r: u64)
    requires
        p + 8 <= data@.len(),
        data@.len() <= usize::MAX,
    ensures
        be_bytes(r, 8) == data@.subrange(p as int, p + 8),
{
    let hi = read_u32_be(data, p);
    let lo = read_u32_be(data, p + 4);
    let n = hi << 32u64 | lo;
    proof {
        lemma_be_bytes_8(n, hi, lo, data@.subrange(p as int, p + 8));
    }
    n
}

proof fn lemma_u128_halves(hi: u64, lo: u64, v: u128, s: u128)
    requires
        v == (hi as u128) << 64u128 | (lo as u128),
        s <= 56,
    ensures
        ((v >> (s + 64)) & 0xff) == ((hi >> (s as u64)) & 0xff) as u128,
        ((v >> s) & 0xff) == ((lo >> (s as u64)) & 0xff) as u128,
{
    let h = hi as u128;
    let l = lo as u128;
    assert(((v >> (s + 64)) & 0xff) == ((h >> s) & 0xff) && ((v >> s) & 0xff) == ((l >> s) & 0xff)) by (bit_vector)
        requires v == h << 64u128 | l, s <= 56, h < 0x1_0000_0000_0000_0000u128, l < 0x1_0000_0000_0000_0000u128;
    assert(((h >> s) & 0xff) == ((hi >> (s as u64)) & 0xff) as u128) by (bit_vector)
        requires h == hi as u128, s < 64;
    assert(((l >> s) & 0xff) == ((lo >> (s as u64)) & 0xff) as u128) by (bit_vector)
        requires l == lo as u128, s < 64;
}

/// Reads the head of a data item at `pos`: its major type, its argument in
/// the shortest form, and where the head ends.
pub fn read_head(data: &Vec<u8>, pos: usize) -> (r: Option<(u8, u64, usize)>)
    ensures
        r matches Some((major, n, end)) ==> {
            &&& major < 8
            &&& pos < end <= data@.len()
            &&& data@.subrange(pos as int, end as int) == head(major, n)
        },
        forall|major: u8, n: u64|
            major < 8 && #[trigger] prefix_at(data@, pos as int, head(major, n)) ==> r == Some(
                (major, n, (pos + head(major, n).len()) as usize),
            ),
{
    proof {
        assert forall|major: u8, n: u64| major < 8 && #[trigger] prefix_at(data@, pos as int, head(major, n)) implies
            data@[pos as int] / 32 == major && data@[pos as int] % 32 == head_info(n) by {
            lemma_head_parts(data@, pos as int, major, n);
        }
    }
    let dl = data.len();
    if pos >= dl {
        return None;
    }
    let b = data[pos];
    let major = b / 32;
    let info = b % 32;
    if info < 24 {
        let n = info as u64;
        assert(be_bytes(n, 0) =~= Seq::<u8>::empty());
        assert(data@.subrange(pos as int, pos + 1) =~= head(major, n));
        return Some((major, n, pos + 1));
    }
    if info == 24 {
        if data.len() - pos < 2 {
            return None;
        }
        let n = data[pos + 1] as u64;
        proof {
            lemma_be_bytes_1(n, data@[pos + 1]);
            assert(data@.subrange(pos + 1, pos + 2) =~= seq![data@[pos + 1]]);
            assert forall|m2: u8, n2: u64| m2 < 8 && #[trigger] prefix_at(data@, pos as int, head(m2, n2)) implies n2 == n
                && n2 >= 24 by {
                lemma_head_parts(data@, pos as int, m2, n2);
                lemma_be_bytes_injective(n, n2, 1);
            }
        }
        if n < 24 {
            return None;
        }
        proof {
            assert(data@.subrange(pos as int, pos + 2) =~= head(major, n));
        }
        return Some((major, n, pos + 2));
    }
    if info == 25 {
        if data.len() - pos < 3 {
            return None;
        }
        let (x0, x1) = (data[pos + 1] as u64, data[pos + 2] as u64);
        let n = x0 << 8u64 | x1;
        assert(n < 0x1_0000) by (bit_vector)
            requires x0 < 256, x1 < 256, n == x0 << 8u64 | x1;
        proof {
            lemma_be_bytes_2(n, data@[pos + 1], data@[pos + 2]);
            assert(data@.subrange(pos + 1, pos + 3) =~= seq![data@[pos + 1], data@[pos + 2]]);
            assert forall|m2: u8, n2: u64| m2 < 8 && #[trigger] prefix_at(data@, pos as int, head(m2, n2)) implies n2 == n
                && n2 >= 0x100 by {
                lemma_head_parts(data@, pos as int, m2, n2);
                lemma_be_bytes_injective(n, n2, 2);
            }
        }
        if n < 0x100 {
            return None;
        }
        proof {
            assert(data@.subrange(pos as int, pos + 3) =~= head(major, n));
        }
        return Some((major, n, pos + 3));
    }
    if info == 26 {
        if data.len() - pos < 5 {
            return None;
        }
        let n = read_u32_be(data, pos + 1);
        proof {
            lemma_be_bytes_4(n, data@[pos + 1], data@[pos + 2], data@[pos + 3], data@[pos + 4]);
            assert(data@.subrange(pos + 1, pos + 5) =~= seq![data@[pos + 1], data@[pos + 2], data@[pos + 3], data@[pos + 4]]);
            assert forall|m2: u8, n2: u64| m2 < 8 && #[trigger] prefix_at(data@, pos as int, head(m2, n2)) implies n2 == n
                && n2 >= 0x1_0000 by {
                lemma_head_parts(data@, pos as int, m2, n2);
                lemma_be_bytes_injective(n, n2, 4);
            }
        }
        if n < 0x1_0000 {
            return None;
        }
        proof {
            assert(data@.subrange(pos as int, pos + 5) =~= head(major, n));
        }
        return Some((major, n, pos + 5));
    }
    if info == 27 {
        if data.len() - pos < 9 {
            return None;
        }
        let n = read_u64_be(data, pos + 1);
        proof {
            assert forall|m2: u8, n2: u64| m2 < 8 && #[trigger] prefix_at(data@, pos as int, head(m2, n2)) implies n2 == n
                && n2 >= 0x1_0000_0000 by {
                lemma_head_parts(data@, pos as int, m2, n2);
                lemma_be_bytes_injective(n, n2, 8);
            }
        }
        if n < 0x1_0000_0000 {
            return None;
        }
        proof {
            assert(data@.subrange(pos as int, pos + 9) =~= head(major, n));
        }
        return Some((major, n, pos + 9));
    }
    None
}

/// Reads a boolean.
pub fn read_bool(data: &Vec<u8>, pos: usize) -> (r: Option<(bool, usize)>)
    ensures
        r matches Some((b, end)) ==> pos < end <= data@.len() && data@.subrange(pos as int, end as int)
            == enc_bool(b),
        forall|b: bool| #[trigger] prefix_at(data@, pos as int, enc_bool(b)) ==> r == Some((b, (pos + 1) as usize)),
{
    if pos >= data.len() {
        return None;
    }
    let x = data[pos];
    proof {
        assert(data@.subrange(pos as int, pos + 1) =~= seq![x]);
        assert forall|b: bool| #[trigger] prefix_at(data@, pos as int, enc_bool(b)) implies x == (if b { 0xf5u8 } else { 0xf4u8 }) by {
            assert(data@.subrange(pos as int, pos + 1)[0] == enc_bool(b)[0]);
        }
    }
    if x == 0xf5 {
        Some((true, pos + 1))
    } else if x == 0xf4 {
        Some((false, pos + 1))
    } else {
        None
    }
}

/// Reads an unsigned integer.
pub fn read_uint(data: &Vec<u8>, pos: usize) -> (r: Option<(u64, usize)>)
    ensures
        r matches Some((n, end)) ==> pos < end <= data@.len() && data@.subrange(pos as int, end as int)
            == enc_uint(n),
        forall|n: u64| #[trigger] prefix_at(data@, pos as int, enc_uint(n)) ==> r == Some(
            (n, (pos + enc_uint(n).len()) as usize),
        ),
{
    match read_head(data, pos) {
        Some((major, n, end)) => if major == MAJOR_UINT {
            Some((n, end))
        } else {
            None
        },
        None => None,
    }
}

/// Reads the head of an array of exactly `len` items.
pub fn read_array_head(data: &Vec<u8>, pos: usize, len: usize) -> (r: Option<usize>)
    ensures
        r matches Some(end) ==> pos < end <= data@.len() && data@.subrange(pos as int, end as int)
            == enc_array_head(len as nat),
        prefix_at(data@, pos as int, enc_array_head(len as nat)) ==> r == Some(
            (pos + enc_array_head(len as nat).len()) as usize,
        ),
{
    match read_head(data, pos) {
        Some((major, n, end)) => if major == MAJOR_ARRAY && n == len as u64 {
            Some(end)
        } else {
            None
        },
        None => None,
    }
}

/// Reads the head of an array, giving its number of items.
pub fn read_array_len(data: &Vec<u8>, pos: usize) -> (r: Option<(usize, usize)>)
    ensures
        r matches Some((n, end)) ==> pos < end <= data@.len() && data@.subrange(pos as int, end as int)
            == enc_array_head(n as nat),
        forall|k: nat|
            k <= usize::MAX && #[trigger] prefix_at(data@, pos as int, enc_array_head(k)) ==> r == Some(
                (k as usize, (pos + enc_array_head(k).len()) as usize),
            ),
{
    match read_head(data, pos) {
        Some((major, n, end)) => if major == MAJOR_ARRAY && n <= usize::MAX as u64 {
            Some((n as usize, end))
        } else {
            None
        },
        None => None,
    }
}

/// Reads a byte string of exactly `len` bytes.
pub fn read_bytes(data: &Vec<u8>, pos: usize, len: usize) -> (r: Option<(Vec<u8>, usize)>)
    ensures
        r matches Some((b, end)) ==> {
            &&& b@.len() == len
            &&& pos < end <= data@.len()
            &&& data@.subrange(pos as int, end as int) == enc_bytes(b@)
        },
        forall|b: Seq<u8>|
            b.len() == len && #[trigger] prefix_at(data@, pos as int, enc_bytes(b)) ==> (r matches Some((v, end)) && v@
                == b && end == pos + enc_bytes(b).len()),
{
    proof {
        assert forall|b: Seq<u8>| b.len() == len && #[trigger] prefix_at(data@, pos as int, enc_bytes(b)) implies prefix_at(
            data@,
            pos as int,
            head(MAJOR_BYTES, len as u64),
        ) && prefix_at(data@, pos + head(MAJOR_BYTES, len as u64).len(), b) by {
            lemma_prefix_split(data@, pos as int, head(MAJOR_BYTES, len as u64), b);
        }
    }
    let (major, n, start) = match read_head(data, pos) {
        Some(h) => h,
        None => {
            return None;
        },
    };
    if major != MAJOR_BYTES || n != len as u64 || data.len() - start < len {
        return None;
    }
    let mut b: Vec<u8> = Vec::new();
    let mut i: usize = 0;
    let dl = data.len();
    while i < len
        invariant
            0 <= i <= len,
            dl == data@.len(),
            start + len <= data@.len(),
            b@ == data@.subrange(start as int, start + i),
        decreases len - i,
    {
        b.push(data[start + i]);
        assert(data@.subrange(start as int, start + i + 1) =~= data@.subrange(start as int, start + i).push(
            data@[start + i],
        ));
        i += 1;
    }
    proof {
        lemma_subrange_split(data@, pos as int, start as int, start + len);
        assert forall|b2: Seq<u8>| b2.len() == len && #[trigger] prefix_at(data@, pos as int, enc_bytes(b2)) implies b@ == b2 by {
            assert(data@.subrange(start as int, start + len) == b2);
        }
    }
    Some((b, start + len))
}

/// Reads a 256-bit integer.
pub fn read_u256(data: &Vec<u8>, pos: usize) -> (r: Option<(U256, usize)>)
    ensures
        r matches Some((v, end)) ==> pos < end <= data@.len() && data@.subrange(pos as int, end as int)
            == enc_u256(v),
        forall|v: U256| #[trigger] prefix_at(data@, pos as int, enc_u256(v)) ==> r == Some(
            (v, (pos + enc_u256(v).len()) as usize),
        ),
{
    proof {
        assert forall|v: U256| #[trigger] prefix_at(data@, pos as int, enc_u256(v)) implies {
            let a = enc_array_head(4);
            let p1 = pos + a.len();
            let p2 = p1 + enc_uint(v.w0).len();
            let p3 = p2 + enc_uint(v.w1).len();
            let p4 = p3 + enc_uint(v.w2).len();
            &&& prefix_at(data@, pos as int, a)
            &&& prefix_at(data@, p1, enc_uint(v.w0))
            &&& prefix_at(data@, p2, enc_uint(v.w1))
            &&& prefix_at(data@, p3, enc_uint(v.w2))
            &&& prefix_at(data@, p4, enc_uint(v.w3))
        } by {
            let a = enc_array_head(4);
            let (e0, e1, e2, e3) = (enc_uint(v.w0), enc_uint(v.w1), enc_uint(v.w2), enc_uint(v.w3));
            assert(enc_u256(v) == a + e0 + e1 + e2 + e3);
            lemma_prefix_split(data@, pos as int, a + e0 + e1 + e2, e3);
            lemma_prefix_split(data@, pos as int, a + e0 + e1, e2);
            lemma_prefix_split(data@, pos as int, a + e0, e1);
            lemma_prefix_split(data@, pos as int, a, e0);
        }
    }
    let p0 = match read_array_head(data, pos, 4) {
        Some(p) => p,
        None => {
            return None;
        },
    };
    let (w0, p1) = match read_uint(data, p0) {
        Some(x) => x,
        None => {
            return None;
        },
    };
    let (w1, p2) = match read_uint(data, p1) {
        Some(x) => x,
        None => {
            return None;
        },
    };
    let (w2, p3) = match read_uint(data, p2) {
        Some(x) => x,
        None => {
            return None;
        },
    };
    let (w3, p4) = match read_uint(data, p3) {
        Some(x) => x,
        None => {
            return None;
        },
    };
    let v = U256 { w0, w1, w2, w3 };
    proof {
        lemma_subrange_split(data@, pos as int, p0 as int, p1 as int);
        lemma_subrange_split(data@, pos as int, p1 as int, p2 as int);
        lemma_subrange_split(data@, pos as int, p2 as int, p3 as int);
        lemma_subrange_split(data@, pos as int, p3 as int, p4 as int);
        assert(data@.subrange(pos as int, p4 as int) =~= enc_u256(v));
    }
    Some((v, p4))
}

/// Reads a 128-bit tag.
pub fn read_u128(data: &Vec<u8>, pos: usize) -> (r: Option<(u128, usize)>)
    ensures
        r matches Some((v, end)) ==> pos < end <= data@.len() && data@.subrange(pos as int, end as int)
            == enc_u128(v),
        forall|v: u128| #[trigger] prefix_at(data@, pos as int, enc_u128(v)) ==> r == Some(
            (v, (pos + enc_u128(v).len()) as usize),
        ),
{
    proof {
        assert forall|v2: u128| #[trigger] prefix_at(data@, pos as int, enc_u128(v2)) implies prefix_at(
            data@,
            pos as int,
            enc_bytes(u128_be_bytes(v2)),
        ) by {
            assert(enc_u128(v2) =~= enc_bytes(u128_be_bytes(v2)));
        }
    }
    let (b, end) = match read_bytes(data, pos, 16) {
        Some(x) => x,
        None => {
            return None;
        },
    };
    let hi = read_u64_be(&b, 0);
    let lo = read_u64_be(&b, 8);
    let v: u128 = (hi as u128) << 64u128 | (lo as u128);
    proof {
        let tail = Seq::new(16, |i: int| ((v >> (8 * (15 - i)) as u128) & 0xff) as u8);
        assert forall|i: int| 0 <= i < 16 implies #[trigger] tail[i] == b@[i] by {
            if i < 8 {
                lemma_u128_halves(hi, lo, v, (8 * (7 - i)) as u128);
                assert(be_bytes(hi, 8)[i] == b@.subrange(0, 8)[i]);
            } else {
                lemma_u128_halves(hi, lo, v, (8 * (15 - i)) as u128);
                assert(be_bytes(lo, 8)[i - 8] == b@.subrange(8, 16)[i - 8]);
            }
        }
        assert(tail =~= b@);
    }
    proof {
        assert(data@.subrange(pos as int, end as int) =~= enc_u128(v));
        assert forall|v2: u128| #[trigger] prefix_at(data@, pos as int, enc_u128(v2)) implies v2 == v && end == pos
            + enc_u128(v2).len() by {
            let t2 = u128_be_bytes(v2);
            assert(enc_u128(v2) =~= enc_bytes(t2));
            assert(prefix_at(data@, pos as int, enc_bytes(t2)));
            assert(t2 == b@);
            lemma_u128_bytes_injective(v, v2);
        }
    }
    Some((v, end))
}

} // verus!
