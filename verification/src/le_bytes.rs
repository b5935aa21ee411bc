//! Little-endian byte writers for building binary files in a `Vec<u8>`.
use vstd::prelude::*;

verus! {

/// The two little-endian bytes of `v` (taken modulo 2^16).
#[verifier::opaque]
pub open spec fn le16(v: int) -> Seq<u8> {
    seq![(v % 256) as u8, ((v / 256) % 256) as u8]
}

/// The four little-endian bytes of `v` (taken modulo 2^32).
#[verifier::opaque]
pub open spec fn le32(v: int) -> Seq<u8> {
    seq![
        (v % 256) as u8,
        ((v / 256) % 256) as u8,
        ((v / 65536) % 256) as u8,
        ((v / 16777216) % 256) as u8,
    ]
}

pub broadcast proof fn lemma_le16_len(v: int)
    ensures
        #[trigger] le16(v).len() == 2,
{
    reveal(le16);
}

pub broadcast proof fn lemma_le32_len(v: int)
    ensures
        #[trigger] le32(v).len() == 4,
{
    reveal(le32);
}

pub broadcast group group_le_len {
    lemma_le16_len,
    lemma_le32_len,
}

/// Reading back the four bytes of a 32-bit value gives the value.
pub proof fn lemma_le32_value(v: int)
    requires
        0 <= v <= u32::MAX,
    ensures
        le32(v).len() == 4,
        le32(v)[0] as int + 256 * le32(v)[1] as int + 65536 * le32(v)[2] as int + 16777216 * le32(
            v,
        )[3] as int == v,
{
    reveal(le32);
    let b0 = v % 256;
    let b1 = (v / 256) % 256;
    let b2 = (v / 65536) % 256;
    let b3 = (v / 16777216) % 256;
    assert(b0 + 256 * b1 + 65536 * b2 + 16777216 * b3 == v) by (nonlinear_arith)
        requires
            0 <= v <= u32::MAX,
            b0 == v % 256,
            b1 == (v / 256) % 256,
            b2 == (v / 65536) % 256,
            b3 == (v / 16777216) % 256,
    ;
}

/// Reading back the two bytes of a 16-bit value gives the value.
pub proof fn lemma_le16_value(v: int)
    requires
        0 <= v <= u16::MAX,
    ensures
        le16(v).len() == 2,
        le16(v)[0] as int + 256 * le16(v)[1] as int == v,
{
    reveal(le16);
}

/// The unsigned 16-bit pattern of a two's-complement value.
pub open spec fn bits16(v: int) -> int {
    if v < 0 {
        v + 65536
    } else {
        v
    }
}

/// The unsigned 32-bit pattern of a two's-complement value.
pub open spec fn bits32(v: int) -> int {
    if v < 0 {
        v + 4294967296
    } else {
        v
    }
}

pub open spec fn zeros(n: int) -> Seq<u8> {
    Seq::new(n as nat, |i: int| 0u8)
}

/// Bytes needed to bring `len` up to a multiple of `alignment`.
pub open spec fn pad_len(len: int, alignment: int) -> int {
    if len % alignment == 0 {
        0
    } else {
        alignment - len % alignment
    }
}

/// `v` rounded up to a multiple of `align`.
pub open spec fn round_up_to(v: int, align: int) -> int {
    ((v + align - 1) / align) * align
}

/// The little-endian 16-bit value at `off`, if it lies inside `d`.
pub open spec fn u16_at(d: Seq<u8>, off: int) -> Option<int> {
    if 0 <= off && off + 2 <= d.len() {
        Some(d[off] as int + 256 * d[off + 1] as int)
    } else {
        None
    }
}

/// The little-endian 32-bit value at `off`, if it lies inside `d`.
pub open spec fn u32_at(d: Seq<u8>, off: int) -> Option<int> {
    if 0 <= off && off + 4 <= d.len() {
        Some(
            d[off] as int + 256 * d[off + 1] as int + 65536 * d[off + 2] as int + 16777216 * d[off
                + 3] as int,
        )
    } else {
        None
    }
}

/// A 32-bit field read from the middle of `a + le32(v) + c` is `v`.
pub proof fn lemma_u32_field(a: Seq<u8>, v: int, c: Seq<u8>)
    requires
        0 <= v <= u32::MAX,
    ensures
        u32_at(a + le32(v) + c, a.len() as int) == Some(v),
{
    lemma_le32_value(v);
    let d = a + le32(v) + c;
    let o = a.len() as int;
    assert(d[o] == le32(v)[0] && d[o + 1] == le32(v)[1] && d[o + 2] == le32(v)[2] && d[o + 3]
        == le32(v)[3]);
}

/// A 16-bit field read from the middle of `a + le16(v) + c` is `v`.
pub proof fn lemma_u16_field(a: Seq<u8>, v: int, c: Seq<u8>)
    requires
        0 <= v <= u16::MAX,
    ensures
        u16_at(a + le16(v) + c, a.len() as int) == Some(v),
{
    lemma_le16_value(v);
    let d = a + le16(v) + c;
    let o = a.len() as int;
    assert(d[o] == le16(v)[0] && d[o + 1] == le16(v)[1]);
}

pub fn push_u8(buf: &mut Vec<u8>, v: u8)
    ensures
        final(buf)@ == old(buf)@.push(v),
{
    buf.push(v);
}

pub fn push_u16(buf: &mut Vec<u8>, v: u16)
    ensures
        final(buf)@ == old(buf)@ + le16(v as int),
{
    let lo = (v % 256) as u8;
    let hi = (v / 256) as u8;
    buf.push(lo);
    buf.push(hi);
    reveal(le16);
    assert(final(buf)@ =~= old(buf)@ + le16(v as int));
}

pub fn push_u32(buf: &mut Vec<u8>, v: u32)
    ensures
        final(buf)@ == old(buf)@ + le32(v as int),
{
    let b0 = (v % 256) as u8;
    let b1 = ((v / 256) % 256) as u8;
    let b2 = ((v / 65536) % 256) as u8;
    let b3 = ((v / 16777216) % 256) as u8;
    buf.push(b0);
    buf.push(b1);
    buf.push(b2);
    buf.push(b3);
    reveal(le32);
    assert(final(buf)@ =~= old(buf)@ + le32(v as int));
}

pub fn push_i16(buf: &mut Vec<u8>, v: i16)
    ensures
        final(buf)@ == old(buf)@ + le16(bits16(v as int)),
{
    let u: u16 = if v < 0 {
        (v as i32 + 65536) as u16
    } else {
        v as u16
    };
    push_u16(buf, u);
}

pub fn push_i32(buf: &mut Vec<u8>, v: i32)
    ensures
        final(buf)@ == old(buf)@ + le32(bits32(v as int)),
{
    let u: u32 = if v < 0 {
        (v as i64 + 4294967296) as u32
    } else {
        v as u32
    };
    push_u32(buf, u);
}

pub fn push_zeros(buf: &mut Vec<u8>, n: usize)
    requires
        old(buf)@.len() + n <= usize::MAX,
    ensures
        final(buf)@ == old(buf)@ + zeros(n as int),
{
    let new_len = buf.len() + n;
    buf.resize(new_len, 0);
    assert(final(buf)@ =~= old(buf)@ + zeros(n as int));
}

/// Zero-pad `buf` to a multiple of `alignment`.
pub fn align_to(buf: &mut Vec<u8>, alignment: usize)
    requires
        alignment > 0,
        old(buf)@.len() + alignment <= usize::MAX,
    ensures
        final(buf)@ == old(buf)@ + zeros(pad_len(old(buf)@.len() as int, alignment as int)),
{
    let rem = buf.len() % alignment;
    if rem != 0 {
        push_zeros(buf, alignment - rem);
    } else {
        assert(old(buf)@ =~= old(buf)@ + zeros(0));
    }
}

/// `v` rounded up to a multiple of `align`.
pub fn round_up(v: u32, align: u32) -> (r: u32)
    requires
        align > 0,
        round_up_to(v as int, align as int) <= u32::MAX,
    ensures
        r == round_up_to(v as int, align as int),
{
    let base = v / align;
    let extra: u32 = if v % align != 0 {
        1
    } else {
        0
    };
    assert(extra == 1 ==> base < u32::MAX) by (nonlinear_arith)
        requires
            align > 0,
            base == v / align,
            extra == 1 ==> v % align != 0,
            v <= u32::MAX,
    ;
    let q = base + extra;
    assert(q as int == (v + align - 1) / (align as int)) by (nonlinear_arith)
        requires
            align > 0,
            q == v / align + (if v % align != 0 {
                1int
            } else {
                0
            }),
    ;
    q * align
}

/// Overwrite the four bytes at `offset` with `v` in little-endian order.
pub fn patch_u32(buf: &mut [u8], offset: usize, v: u32)
    requires
        offset + 4 <= old(buf)@.len(),
    ensures
        final(buf)@ == old(buf)@.subrange(0, offset as int) + le32(v as int) + old(buf)@.subrange(
            offset + 4,
            old(buf)@.len() as int,
        ),
{
    let b0 = (v % 256) as u8;
    let b1 = ((v / 256) % 256) as u8;
    let b2 = ((v / 65536) % 256) as u8;
    let b3 = ((v / 16777216) % 256) as u8;
    buf[offset] = b0;
    buf[offset + 1] = b1;
    buf[offset + 2] = b2;
    buf[offset + 3] = b3;
    reveal(le32);
    assert(final(buf)@ =~= old(buf)@.subrange(0, offset as int) + le32(v as int) + old(
        buf,
    )@.subrange(offset + 4, old(buf)@.len() as int));
}

} // verus!
