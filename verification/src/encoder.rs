//! Encoding of primitive values onto a growing byte buffer.
//!
//! Each writer appends the little-endian bytes of its value; the spec
//! functions give the exact bytes appended, and the lemmas relate them back
//! to the decoder's little-endian readings so round trips can be proved.

use vstd::prelude::*;

use vstd::utf8::encode_utf8;

use crate::decoder::{spec_signed, spec_u16_le, spec_u32_le, spec_u64_le};

verus! {

/// The two little-endian bytes of `v`.
pub open spec fn spec_u16_bytes(v: u16) -> Seq<u8> {
    seq![(v % 0x100) as u8, ((v / 0x100) % 0x100) as u8]
}

/// The four little-endian bytes of `v`.
pub open spec fn spec_u32_bytes(v: u32) -> Seq<u8> {
    seq![
        (v % 0x100) as u8,
        ((v / 0x100) % 0x100) as u8,
        ((v / 0x10000) % 0x100) as u8,
        ((v / 0x1000000) % 0x100) as u8,
    ]
}

/// The eight little-endian bytes of `v`.
pub open spec fn spec_u64_bytes(v: u64) -> Seq<u8> {
    seq![
        (v % 0x100) as u8,
        ((v / 0x100) % 0x100) as u8,
        ((v / 0x10000) % 0x100) as u8,
        ((v / 0x1000000) % 0x100) as u8,
        ((v / 0x100000000) % 0x100) as u8,
        ((v / 0x10000000000) % 0x100) as u8,
        ((v / 0x1000000000000) % 0x100) as u8,
        ((v / 0x100000000000000) % 0x100) as u8,
    ]
}

/// The four little-endian bytes of the two's-complement image of `v`.
pub open spec fn spec_i32_bytes(v: i32) -> Seq<u8> {
    spec_u32_bytes((if v >= 0 {
        v as int
    } else {
        v + 0x100000000
    }) as u32)
}

/// Reading back the two bytes written for `v` yields `v`.
pub proof fn lemma_u16_bytes_le(s: Seq<u8>, o: int, v: u16)
    requires
        0 <= o,
        o + 2 <= s.len(),
        s[o] == spec_u16_bytes(v)[0],
        s[o + 1] == spec_u16_bytes(v)[1],
    ensures
        spec_u16_le(s, o) == v,
{
    assert(spec_u16_le(s, o) == v) by (nonlinear_arith)
        requires
            s[o] == v % 0x100,
            s[o + 1] == (v / 0x100) % 0x100,
    ;
}

/// Reading back the four bytes written for `v` yields `v`.
pub proof fn lemma_u32_bytes_le(s: Seq<u8>, o: int, v: u32)
    requires
        0 <= o,
        o + 4 <= s.len(),
        forall|k: int| 0 <= k < 4 ==> s[o + k] == spec_u32_bytes(v)[k],
    ensures
        spec_u32_le(s, o) == v,
{
    assert(s[o + 0] == spec_u32_bytes(v)[0] && s[o + 1] == spec_u32_bytes(v)[1] && s[o + 2]
        == spec_u32_bytes(v)[2] && s[o + 3] == spec_u32_bytes(v)[3]);
    assert(spec_u32_le(s, o) == v) by (nonlinear_arith)
        requires
            s[o] == v % 0x100,
            s[o + 1] == (v / 0x100) % 0x100,
            s[o + 2] == (v / 0x10000) % 0x100,
            s[o + 3] == (v / 0x1000000) % 0x100,
    ;
}

/// Appends one byte.
pub fn write_u8(buffer: &mut Vec<u8>, v: u8)
    ensures
        final(buffer)@ == old(buffer)@ + seq![v],
{
    buffer.push(v);
    proof {
        assert(buffer@ =~= old(buffer)@ + seq![v]);
    }
}

/// Appends a boolean as one byte, 1 for true and 0 for false.
pub fn write_bool(buffer: &mut Vec<u8>, v: bool)
    ensures
        final(buffer)@ == old(buffer)@ + seq![
            (if v {
                1u8
            } else {
                0u8
            }),
        ],
{
    if v {
        write_u8(buffer, 1);
    } else {
        write_u8(buffer, 0);
    }
}

/// Appends the two little-endian bytes of `v`.
pub fn write_u16(buffer: &mut Vec<u8>, v: u16)
    ensures
        final(buffer)@ == old(buffer)@ + spec_u16_bytes(v),
{
    buffer.push((v % 0x100) as u8);
    buffer.push(((v / 0x100) % 0x100) as u8);
    proof {
        assert(buffer@ =~= old(buffer)@ + spec_u16_bytes(v));
    }
}

/// Appends the four little-endian bytes of `v`.
pub fn write_u32(buffer: &mut Vec<u8>, v: u32)
    ensures
        final(buffer)@ == old(buffer)@ + spec_u32_bytes(v),
{
    buffer.push((v % 0x100) as u8);
    buffer.push(((v / 0x100) % 0x100) as u8);
    buffer.push(((v / 0x10000) % 0x100) as u8);
    buffer.push(((v / 0x1000000) % 0x100) as u8);
    proof {
        assert(buffer@ =~= old(buffer)@ + spec_u32_bytes(v));
    }
}

/// Appends the eight little-endian bytes of `v`.
pub fn write_u64(buffer: &mut Vec<u8>, v: u64)
    ensures
        final(buffer)@ == old(buffer)@ + spec_u64_bytes(v),
{
    buffer.push((v % 0x100) as u8);
    buffer.push(((v / 0x100) % 0x100) as u8);
    buffer.push(((v / 0x10000) % 0x100) as u8);
    buffer.push(((v / 0x1000000) % 0x100) as u8);
    buffer.push(((v / 0x100000000) % 0x100) as u8);
    buffer.push(((v / 0x10000000000) % 0x100) as u8);
    buffer.push(((v / 0x1000000000000) % 0x100) as u8);
    buffer.push(((v / 0x100000000000000) % 0x100) as u8);
    proof {
        assert(buffer@ =~= old(buffer)@ + spec_u64_bytes(v));
    }
}

/// Appends the four little-endian bytes of the two's-complement image of
/// `v`.
pub fn write_i32(buffer: &mut Vec<u8>, v: i32)
    ensures
        final(buffer)@ == old(buffer)@ + spec_i32_bytes(v),
{
    if v >= 0 {
        write_u32(buffer, v as u32);
    } else {
        let w: u32 = ((v as i64) + 0x100000000i64) as u32;
        write_u32(buffer, w);
    }
}

/// The two's-complement image written for `v` reads back as `v`.
pub proof fn lemma_i32_bytes_signed(v: i32)
    ensures
        spec_signed(
            (if v >= 0 {
                v as int
            } else {
                v + 0x100000000
            }),
            32,
        ) == v,
{
}

/// Appends the UTF-8 bytes of `s`, with nothing around them.
pub fn write_string_u8(buffer: &mut Vec<u8>, s: &str)
    ensures
        final(buffer)@ == old(buffer)@ + encode_utf8(s@),
{
    let bytes = s.as_bytes();
    buffer.extend_from_slice(bytes);
    proof {
        assert(buffer@ =~= old(buffer)@ + encode_utf8(s@));
    }
}

/// Appends the UTF-8 bytes of `s` followed by a zero terminator.
pub fn write_string_u8_0terminated(buffer: &mut Vec<u8>, s: &str)
    ensures
        final(buffer)@ == old(buffer)@ + encode_utf8(s@) + seq![0u8],
{
    write_string_u8(buffer, s);
    write_u8(buffer, 0);
    proof {
        assert(buffer@ =~= old(buffer)@ + encode_utf8(s@) + seq![0u8]);
    }
}

/// Appends a u16 length prefix holding the UTF-8 byte count of `s` (wrapped
/// to the 16-bit range) followed by those bytes.
pub fn write_sized_string_u8(buffer: &mut Vec<u8>, s: &str)
    ensures
        final(buffer)@ == old(buffer)@ + spec_u16_bytes((encode_utf8(s@).len() % 0x10000) as u16)
            + encode_utf8(s@),
{
    let bytes = s.as_bytes();
    write_u16(buffer, (bytes.len() % 0x10000) as u16);
    buffer.extend_from_slice(bytes);
    proof {
        assert(buffer@ =~= old(buffer)@ + spec_u16_bytes(
            (encode_utf8(s@).len() % 0x10000) as u16,
        ) + encode_utf8(s@));
    }
}

/// Appends a whole byte slice.
pub fn write_all(buffer: &mut Vec<u8>, bytes: &[u8])
    ensures
        final(buffer)@ == old(buffer)@ + bytes@,
{
    buffer.extend_from_slice(bytes);
    proof {
        assert(buffer@ =~= old(buffer)@ + bytes@);
    }
}

} // verus!
