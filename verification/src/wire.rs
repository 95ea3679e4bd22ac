//! Byte-level building blocks of the wire format: big-endian 16- and 32-bit
//! values, ASCII lowercasing, and `splice`, the in-place patch of a byte
//! sequence that every encoder contract is stated with.

use vstd::prelude::*;

verus! {

/// ASCII lowercasing of one byte; other bytes pass through unchanged.
pub open spec fn to_lower(b: u8) -> u8 {
    if 65 <= b <= 90 {
        (b + 32) as u8
    } else {
        b
    }
}

/// Executable ASCII lowercasing.
pub fn lower_byte(b: u8) -> (r: u8)
    ensures
        r == to_lower(b),
{
    if 65 <= b && b <= 90 {
        b + 32
    } else {
        b
    }
}

/// High byte of a big-endian 16-bit value.
pub open spec fn u16_hi(v: u16) -> u8 {
    (v >> 8) as u8
}

/// Low byte of a big-endian 16-bit value.
pub open spec fn u16_lo(v: u16) -> u8 {
    (v & 0xFF) as u8
}

/// The 16-bit value two big-endian bytes decode to.
pub open spec fn u16_of(hi: u8, lo: u8) -> u16 {
    (hi as u16 * 256 + lo as u16) as u16
}

pub proof fn lemma_u16_round(v: u16)
    ensures
        u16_of(u16_hi(v), u16_lo(v)) == v,
{
    assert(((v >> 8) as u8) as u16 * 256 + ((v & 0xFF) as u8) as u16 == v) by (bit_vector);
}

pub proof fn lemma_u16_of_parts(hi: u8, lo: u8)
    ensures
        u16_hi(u16_of(hi, lo)) == hi,
        u16_lo(u16_of(hi, lo)) == lo,
        u16_of(hi, lo) == ((hi as u16) << 8 | lo as u16),
{
    assert(((hi as u16 * 256 + lo as u16) as u16) >> 8 == hi as u16) by (bit_vector);
    assert(((hi as u16 * 256 + lo as u16) as u16) & 0xFF == lo as u16) by (bit_vector);
    assert((hi as u16 * 256 + lo as u16) as u16 == ((hi as u16) << 8 | lo as u16)) by (bit_vector);
}

/// The four big-endian bytes of a 32-bit value, most significant first.
pub open spec fn u32_b0(v: u32) -> u8 {
    ((v >> 24) & 0xFF) as u8
}

pub open spec fn u32_b1(v: u32) -> u8 {
    ((v >> 16) & 0xFF) as u8
}

pub open spec fn u32_b2(v: u32) -> u8 {
    ((v >> 8) & 0xFF) as u8
}

pub open spec fn u32_b3(v: u32) -> u8 {
    (v & 0xFF) as u8
}

/// The 32-bit value four big-endian bytes decode to.
pub open spec fn u32_of(b0: u8, b1: u8, b2: u8, b3: u8) -> u32 {
    (b0 as u32 * 0x1000000 + b1 as u32 * 0x10000 + b2 as u32 * 0x100 + b3 as u32) as u32
}

pub proof fn lemma_u32_round(v: u32)
    ensures
        u32_of(u32_b0(v), u32_b1(v), u32_b2(v), u32_b3(v)) == v,
{
    assert((((v >> 24) & 0xFF) as u8) as u32 * 0x1000000 + (((v >> 16) & 0xFF) as u8) as u32
        * 0x10000 + (((v >> 8) & 0xFF) as u8) as u32 * 0x100 + ((v & 0xFF) as u8) as u32 == v)
        by (bit_vector);
}

pub proof fn lemma_u32_of_parts(b0: u8, b1: u8, b2: u8, b3: u8)
    ensures
        u32_b0(u32_of(b0, b1, b2, b3)) == b0,
        u32_b1(u32_of(b0, b1, b2, b3)) == b1,
        u32_b2(u32_of(b0, b1, b2, b3)) == b2,
        u32_b3(u32_of(b0, b1, b2, b3)) == b3,
        u32_of(b0, b1, b2, b3) == ((b0 as u32) << 24 | (b1 as u32) << 16 | (b2 as u32) << 8
            | b3 as u32),
{
    let v = (b0 as u32 * 0x1000000 + b1 as u32 * 0x10000 + b2 as u32 * 0x100 + b3 as u32) as u32;
    assert(((b0 as u32 * 0x1000000 + b1 as u32 * 0x10000 + b2 as u32 * 0x100 + b3 as u32) as u32
        >> 24) & 0xFF == b0 as u32) by (bit_vector);
    assert(((b0 as u32 * 0x1000000 + b1 as u32 * 0x10000 + b2 as u32 * 0x100 + b3 as u32) as u32
        >> 16) & 0xFF == b1 as u32) by (bit_vector);
    assert(((b0 as u32 * 0x1000000 + b1 as u32 * 0x10000 + b2 as u32 * 0x100 + b3 as u32) as u32
        >> 8) & 0xFF == b2 as u32) by (bit_vector);
    assert((b0 as u32 * 0x1000000 + b1 as u32 * 0x10000 + b2 as u32 * 0x100 + b3 as u32) as u32
        & 0xFF == b3 as u32) by (bit_vector);
    assert((b0 as u32 * 0x1000000 + b1 as u32 * 0x10000 + b2 as u32 * 0x100 + b3 as u32) as u32 == (
    (b0 as u32) << 24 | (b1 as u32) << 16 | (b2 as u32) << 8 | b3 as u32)) by (bit_vector);
}

/// The two 16-bit halves of a big-endian 32-bit value, as used by the
/// IPv6 codec, which reads four 32-bit words and splits each in two.
pub proof fn lemma_u32_split_u16(b0: u8, b1: u8, b2: u8, b3: u8)
    ensures
        ((u32_of(b0, b1, b2, b3) >> 16) & 0xFFFF) as u16 == u16_of(b0, b1),
        (u32_of(b0, b1, b2, b3) & 0xFFFF) as u16 == u16_of(b2, b3),
{
    assert((((b0 as u32 * 0x1000000 + b1 as u32 * 0x10000 + b2 as u32 * 0x100 + b3 as u32) as u32
        >> 16) & 0xFFFF) as u16 == (b0 as u16 * 256 + b1 as u16) as u16) by (bit_vector);
    assert(((b0 as u32 * 0x1000000 + b1 as u32 * 0x10000 + b2 as u32 * 0x100 + b3 as u32) as u32
        & 0xFFFF) as u16 == (b2 as u16 * 256 + b3 as u16) as u16) by (bit_vector);
}

/// `buf` with the bytes from `pos` on replaced by `patch`; the length of the
/// whole is unchanged. Encoders promise exactly this shape of update.
pub open spec fn splice(buf: Seq<u8>, pos: int, patch: Seq<u8>) -> Seq<u8>
    recommends
        0 <= pos,
        pos + patch.len() <= buf.len(),
{
    buf.subrange(0, pos) + patch + buf.subrange(pos + patch.len(), buf.len() as int)
}

pub proof fn lemma_splice_len(buf: Seq<u8>, pos: int, patch: Seq<u8>)
    requires
        0 <= pos,
        pos + patch.len() <= buf.len(),
    ensures
        splice(buf, pos, patch).len() == buf.len(),
        forall|i: int|
            0 <= i < buf.len() && !(pos <= i < pos + patch.len()) ==> splice(buf, pos, patch)[i]
                == buf[i],
        forall|i: int| 0 <= i < patch.len() ==> splice(buf, pos, patch)[pos + i] == patch[i],
{
}

pub proof fn lemma_update_is_splice(buf: Seq<u8>, pos: int, v: u8)
    requires
        0 <= pos < buf.len(),
    ensures
        buf.update(pos, v) == splice(buf, pos, seq![v]),
{
    assert(buf.update(pos, v) =~= splice(buf, pos, seq![v]));
}

/// Two adjacent patches are one combined patch.
pub proof fn lemma_splice_splice(buf: Seq<u8>, pos: int, x: Seq<u8>, y: Seq<u8>)
    requires
        0 <= pos,
        pos + x.len() + y.len() <= buf.len(),
    ensures
        splice(splice(buf, pos, x), pos + x.len(), y) == splice(buf, pos, x + y),
{
    lemma_splice_len(buf, pos, x);
    assert(splice(splice(buf, pos, x), pos + x.len(), y) =~= splice(buf, pos, x + y));
}

/// Patching bytes inside an already patched region rewrites that part of
/// the patch: how a reserved length field is back-filled.
pub proof fn lemma_splice_inner(buf: Seq<u8>, pos: int, patch: Seq<u8>, k: int, y: Seq<u8>)
    requires
        0 <= pos,
        pos + patch.len() <= buf.len(),
        0 <= k,
        k + y.len() <= patch.len(),
    ensures
        splice(splice(buf, pos, patch), pos + k, y) == splice(
            buf,
            pos,
            patch.subrange(0, k) + y + patch.subrange(k + y.len(), patch.len() as int),
        ),
{
    lemma_splice_len(buf, pos, patch);
    assert(splice(splice(buf, pos, patch), pos + k, y) =~= splice(
        buf,
        pos,
        patch.subrange(0, k) + y + patch.subrange(k + y.len(), patch.len() as int),
    ));
}

/// The two bytes of a big-endian 16-bit value.
pub open spec fn u16_bytes(v: u16) -> Seq<u8> {
    seq![u16_hi(v), u16_lo(v)]
}

/// The four bytes of a big-endian 32-bit value.
pub open spec fn u32_bytes(v: u32) -> Seq<u8> {
    seq![u32_b0(v), u32_b1(v), u32_b2(v), u32_b3(v)]
}

/// A slice of a region that matches `patch` matches the same slice of it.
pub proof fn lemma_subrange_of_matching(buf: Seq<u8>, pos: int, patch: Seq<u8>, a: int, b: int)
    requires
        0 <= pos,
        pos + patch.len() <= buf.len(),
        buf.subrange(pos, pos + patch.len()) == patch,
        0 <= a <= b <= patch.len(),
    ensures
        buf.subrange(pos + a, pos + b) == patch.subrange(a, b),
{
    assert forall|i: int| 0 <= i < b - a implies buf.subrange(pos + a, pos + b)[i]
        == patch.subrange(a, b)[i] by {
        assert(buf.subrange(pos, pos + patch.len())[a + i] == patch[a + i]);
    }
    assert(buf.subrange(pos + a, pos + b) =~= patch.subrange(a, b));
}

} // verus!
