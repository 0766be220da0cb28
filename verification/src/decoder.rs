//! Bounds-checked decoding of primitive values from a byte source.
//!
//! Every decoder takes an immutable byte slice and an explicit offset and
//! returns either the typed value or a typed error; none of them can read
//! past the end of the slice. The `decode_packedfile_*` variants additionally
//! advance an externally supplied cursor by exactly the number of bytes
//! consumed on success and leave it untouched on failure, except for the
//! documented partial-rollback cases of sized and optional strings.
//!
//! All multi-byte values are little-endian.

use vstd::prelude::*;

use vstd::utf8::{decode_utf8, valid_utf8};

use crate::error::{DataKind, RLibError};
use crate::strings::{
    latin1_chars, latin1_to_string, string_from_utf8, string_from_utf8_lossy, string_from_utf16,
    utf8_lossy, utf16_decode, utf16_valid,
};

verus! {

/// Length of the prefix of `w` before its first zero byte; `w.len()` when no
/// byte is zero.
pub open spec fn spec_first_zero(w: Seq<u8>) -> int
    decreases w.len(),
{
    if w.len() == 0 {
        0
    } else if w[0] == 0 {
        0
    } else {
        1 + spec_first_zero(w.drop_first())
    }
}

/// `spec_first_zero` is the unique position with no zero before it that is
/// either a zero byte or the end of the sequence.
pub proof fn lemma_first_zero_is(w: Seq<u8>, i: int)
    requires
        0 <= i <= w.len(),
        forall|j: int| 0 <= j < i ==> w[j] != 0,
        i < w.len() ==> w[i] == 0,
    ensures
        spec_first_zero(w) == i,
    decreases w.len(),
{
    if w.len() == 0 {
    } else if w[0] == 0 {
        assert(i == 0);
    } else {
        assert(forall|j: int| 0 <= j < i - 1 ==> w.drop_first()[j] != 0);
        lemma_first_zero_is(w.drop_first(), i - 1);
    }
}

/// Byte length of the prefix scanned by the zero-padded UTF-16 decoder: the
/// first even position holding a zero byte, or the whole length when none of
/// the probed positions is zero.
pub open spec fn spec_even_zero_prefix(w: Seq<u8>) -> int
    decreases w.len(),
{
    if w.len() == 0 {
        0
    } else if w[0] == 0 {
        0
    } else if w.len() <= 2 {
        w.len() as int
    } else {
        2 + spec_even_zero_prefix(w.skip(2))
    }
}

/// `spec_even_zero_prefix` is the unique even position with no zero at any
/// even position before it that holds a zero byte, or the whole length.
pub proof fn lemma_even_zero_prefix_is(w: Seq<u8>, i: int)
    requires
        0 <= i <= w.len(),
        i < w.len() ==> i % 2 == 0 && w[i] == 0,
        i == w.len() ==> forall|j: int| 0 <= j < w.len() && j % 2 == 0 ==> w[j] != 0,
        forall|j: int| 0 <= j < i && j % 2 == 0 ==> w[j] != 0,
    ensures
        spec_even_zero_prefix(w) == i,
    decreases w.len(),
{
    if w.len() == 0 {
    } else if w[0] == 0 {
        assert(i == 0);
    } else if w.len() <= 2 {
        assert(i == w.len());
    } else {
        assert(forall|j: int| 0 <= j < i - 2 && j % 2 == 0 ==> w.skip(2)[j] == w[j + 2] && (j + 2)
            % 2 == 0);
        assert(i >= 2) by {
            assert(w[0] != 0);
        }
        lemma_even_zero_prefix_is(w.skip(2), i - 2);
    }
}

/// The ASCII bytes of the uppercase hexadecimal digits of `v`, most
/// significant first, with no leading zeros.
pub open spec fn spec_hex_bytes(v: int) -> Seq<u8>
    decreases v,
{
    if v < 0 {
        Seq::empty()
    } else if v < 16 {
        seq![spec_hex_digit_byte(v)]
    } else {
        spec_hex_bytes(v / 16).push(spec_hex_digit_byte(v % 16))
    }
}

/// The ASCII byte of one uppercase hexadecimal digit.
pub open spec fn spec_hex_digit_byte(d: int) -> u8 {
    if d < 10 {
        (0x30 + d) as u8
    } else {
        (0x37 + d) as u8
    }
}

/// The textual form of a colour word: the uppercase hexadecimal digits of
/// its low three bytes, zero-padded on the left to six; the high byte is
/// discarded.
pub open spec fn spec_colour_bytes(v: u32) -> Seq<u8> {
    let d = spec_hex_bytes((v % 0x1000000) as int);
    if d.len() >= 6 {
        d
    } else {
        Seq::new((6 - d.len()) as nat, |_i: int| 0x30u8) + d
    }
}

/// Little-endian value of the two bytes at `o`.
pub open spec fn spec_u16_le(s: Seq<u8>, o: int) -> u16 {
    (s[o] + s[o + 1] * 0x100) as u16
}

/// Little-endian value of the three bytes at `o`, zero-extended.
pub open spec fn spec_u24_le(s: Seq<u8>, o: int) -> u32 {
    (s[o] + s[o + 1] * 0x100 + s[o + 2] * 0x10000) as u32
}

/// Little-endian value of the four bytes at `o`.
pub open spec fn spec_u32_le(s: Seq<u8>, o: int) -> u32 {
    (s[o] + s[o + 1] * 0x100 + s[o + 2] * 0x10000 + s[o + 3] * 0x1000000) as u32
}

/// Little-endian value of the eight bytes at `o`.
pub open spec fn spec_u64_le(s: Seq<u8>, o: int) -> u64 {
    (s[o] + s[o + 1] * 0x100 + s[o + 2] * 0x10000 + s[o + 3] * 0x1000000
        + s[o + 4] * 0x100000000 + s[o + 5] * 0x10000000000 + s[o + 6] * 0x1000000000000
        + s[o + 7] * 0x100000000000000) as u64
}

/// Two's-complement reading of an unsigned value below `2^bits`, for the
/// four widths the signed decoders use.
pub open spec fn spec_signed(u: int, bits: int) -> int {
    let modulus: int = if bits == 8 {
        0x100
    } else if bits == 16 {
        0x10000
    } else if bits == 32 {
        0x100000000
    } else {
        0x10000000000000000
    };
    if 2 * u < modulus {
        u
    } else {
        u - modulus
    }
}

/// The `shortfall` carried by bounds errors: how far `offset` lies past the
/// end of the source, or `None` when it is the size that does not fit.
pub open spec fn spec_shortfall(len: nat, offset: nat) -> Option<usize> {
    if offset >= len {
        Some((offset - len) as usize)
    } else {
        None
    }
}

/// Computes the `shortfall` field of a bounds error.
fn shortfall(len: usize, offset: usize) -> (r: Option<usize>)
    ensures
        r == spec_shortfall(len as nat, offset as nat),
{
    offset.checked_sub(len)
}

/// Returns a copy of the `size` bytes at `offset` after checking bounds.
///
/// A zero-sized request succeeds at any offset with an empty result.
pub fn decode_bytes_checked(data: &[u8], offset: usize, size: usize) -> (r: Result<
    Vec<u8>,
    RLibError,
>)
    ensures
        r is Ok <==> size == 0 || offset + size <= data@.len(),
        r matches Ok(v) ==> v@.len() == size,
        r matches Ok(v) ==> size != 0 ==> v@ == data@.subrange(offset as int, offset + size as int),
        r matches Err(e) ==> e == RLibError::NotMoreBytesToDecode,
{
    if size == 0 {
        let empty: Vec<u8> = Vec::new();
        return Ok(empty);
    }
    let len = data.len();
    match offset.checked_add(size) {
        Some(end) if end <= len => {
            let mut out: Vec<u8> = Vec::new();
            let mut i: usize = 0;
            while i < size
                invariant
                    offset + size <= data@.len(),
                    offset + size <= usize::MAX,
                    i <= size,
                    out@ == data@.subrange(offset as int, offset + i as int),
                decreases size - i,
            {
                out.push(data[offset + i]);
                proof {
                    assert(out@ =~= data@.subrange(offset as int, offset + i + 1 as int));
                }
                i = i + 1;
            }
            Ok(out)
        },
        _ => Err(RLibError::NotMoreBytesToDecode),
    }
}

/// Decodes one byte as a boolean: 0 is false, 1 is true, anything else is an
/// `InvalidBoolValue` error rather than a silent coercion.
pub fn decode_bool(data: &[u8], offset: usize) -> (r: Result<bool, RLibError>)
    ensures
        r is Ok <==> offset < data@.len() && (data@[offset as int] == 0 || data@[offset as int]
            == 1),
        r matches Ok(v) ==> v == (data@[offset as int] == 1),
        offset >= data@.len() ==> r == Err::<bool, RLibError>(RLibError::NoBytesLeft),
        offset < data@.len() && data@[offset as int] != 0 && data@[offset as int] != 1 ==> r
            == Err::<bool, RLibError>(RLibError::InvalidBoolValue(data@[offset as int])),
{
    match decode_integer_u8(data, offset) {
        Ok(value) => match value {
            0u8 => Ok(false),
            1u8 => Ok(true),
            _ => Err(RLibError::InvalidBoolValue(value)),
        },
        Err(e) => Err(e),
    }
}

/// Decodes the byte at `offset`.
pub fn decode_integer_u8(data: &[u8], offset: usize) -> (r: Result<u8, RLibError>)
    ensures
        r is Ok <==> offset < data@.len(),
        r matches Ok(v) ==> v == data@[offset as int],
        r matches Err(e) ==> e == RLibError::NoBytesLeft,
{
    if offset < data.len() {
        Ok(data[offset])
    } else {
        Err(RLibError::NoBytesLeft)
    }
}

/// Decodes a little-endian u16 from the two bytes at `offset`.
pub fn decode_integer_u16(data: &[u8], offset: usize) -> (r: Result<u16, RLibError>)
    ensures
        r is Ok <==> offset + 2 <= data@.len(),
        r matches Ok(v) ==> v == spec_u16_le(data@, offset as int),
        r matches Err(e) ==> e == (RLibError::NotEnoughBytes {
            kind: DataKind::U16,
            needed: 2,
            shortfall: spec_shortfall(data@.len(), offset as nat),
        }),
{
    if data.len() >= 2 && offset <= data.len() - 2 {
        Ok(data[offset] as u16 + data[offset + 1] as u16 * 0x100)
    } else {
        Err(
            RLibError::NotEnoughBytes {
                kind: DataKind::U16,
                needed: 2,
                shortfall: shortfall(data.len(), offset),
            },
        )
    }
}

/// Decodes a little-endian u24 (three bytes, zero-extended to u32) at `offset`.
pub fn decode_integer_u24(data: &[u8], offset: usize) -> (r: Result<u32, RLibError>)
    ensures
        r is Ok <==> offset + 3 <= data@.len(),
        r matches Ok(v) ==> v == spec_u24_le(data@, offset as int),
        r matches Err(e) ==> e == (RLibError::NotEnoughBytes {
            kind: DataKind::U24,
            needed: 3,
            shortfall: spec_shortfall(data@.len(), offset as nat),
        }),
{
    if data.len() >= 3 && offset <= data.len() - 3 {
        Ok(
            data[offset] as u32 + data[offset + 1] as u32 * 0x100 + data[offset + 2] as u32
                * 0x10000,
        )
    } else {
        Err(
            RLibError::NotEnoughBytes {
                kind: DataKind::U24,
                needed: 3,
                shortfall: shortfall(data.len(), offset),
            },
        )
    }
}

/// Decodes a little-endian u32 from the four bytes at `offset`.
pub fn decode_integer_u32(data: &[u8], offset: usize) -> (r: Result<u32, RLibError>)
    ensures
        r is Ok <==> offset + 4 <= data@.len(),
        r matches Ok(v) ==> v == spec_u32_le(data@, offset as int),
        r matches Err(e) ==> e == (RLibError::NotEnoughBytes {
            kind: DataKind::U32,
            needed: 4,
            shortfall: spec_shortfall(data@.len(), offset as nat),
        }),
{
    if data.len() >= 4 && offset <= data.len() - 4 {
        Ok(
            data[offset] as u32 + data[offset + 1] as u32 * 0x100 + data[offset + 2] as u32
                * 0x10000 + data[offset + 3] as u32 * 0x1000000,
        )
    } else {
        Err(
            RLibError::NotEnoughBytes {
                kind: DataKind::U32,
                needed: 4,
                shortfall: shortfall(data.len(), offset),
            },
        )
    }
}

/// Decodes a little-endian u64 from the eight bytes at `offset`.
pub fn decode_integer_u64(data: &[u8], offset: usize) -> (r: Result<u64, RLibError>)
    ensures
        r is Ok <==> offset + 8 <= data@.len(),
        r matches Ok(v) ==> v == spec_u64_le(data@, offset as int),
        r matches Err(e) ==> e == (RLibError::NotEnoughBytes {
            kind: DataKind::U64,
            needed: 8,
            shortfall: spec_shortfall(data@.len(), offset as nat),
        }),
{
    if data.len() >= 8 && offset <= data.len() - 8 {
        Ok(
            data[offset] as u64 + data[offset + 1] as u64 * 0x100 + data[offset + 2] as u64
                * 0x10000 + data[offset + 3] as u64 * 0x1000000 + data[offset + 4] as u64
                * 0x100000000 + data[offset + 5] as u64 * 0x10000000000 + data[offset + 6] as u64
                * 0x1000000000000 + data[offset + 7] as u64 * 0x100000000000000,
        )
    } else {
        Err(
            RLibError::NotEnoughBytes {
                kind: DataKind::U64,
                needed: 8,
                shortfall: shortfall(data.len(), offset),
            },
        )
    }
}

/// Decodes the byte at `offset` as a signed two's-complement value.
pub fn decode_integer_i8(data: &[u8], offset: usize) -> (r: Result<i8, RLibError>)
    ensures
        r is Ok <==> offset < data@.len(),
        r matches Ok(v) ==> v as int == spec_signed(data@[offset as int] as int, 8),
        r matches Err(e) ==> e == RLibError::NoBytesLeft,
{
    if offset < data.len() {
        let b = data[offset];
        if b < 128 {
            Ok(b as i8)
        } else {
            Ok(((b as i16) - 256) as i8)
        }
    } else {
        Err(RLibError::NoBytesLeft)
    }
}

/// Decodes a little-endian i16 from the two bytes at `offset`.
pub fn decode_integer_i16(data: &[u8], offset: usize) -> (r: Result<i16, RLibError>)
    ensures
        r is Ok <==> offset + 2 <= data@.len(),
        r matches Ok(v) ==> v as int == spec_signed(spec_u16_le(data@, offset as int) as int, 16),
        r matches Err(e) ==> e == (RLibError::NotEnoughBytes {
            kind: DataKind::I16,
            needed: 2,
            shortfall: spec_shortfall(data@.len(), offset as nat),
        }),
{
    if data.len() >= 2 && offset <= data.len() - 2 {
        let u: u16 = data[offset] as u16 + data[offset + 1] as u16 * 0x100;
        if u < 0x8000 {
            Ok(u as i16)
        } else {
            Ok(((u as i32) - 0x10000) as i16)
        }
    } else {
        Err(
            RLibError::NotEnoughBytes {
                kind: DataKind::I16,
                needed: 2,
                shortfall: shortfall(data.len(), offset),
            },
        )
    }
}

/// Decodes a little-endian i24 at `offset`.
///
/// The three bytes are zero-extended into a four-byte word before the signed
/// read, so the sign bit of the word is always clear and the result is the
/// same non-negative value the u24 decoder yields.
pub fn decode_integer_i24(data: &[u8], offset: usize) -> (r: Result<i32, RLibError>)
    ensures
        r is Ok <==> offset + 3 <= data@.len(),
        r matches Ok(v) ==> v as int == spec_u24_le(data@, offset as int) as int,
        r matches Err(e) ==> e == (RLibError::NotEnoughBytes {
            kind: DataKind::I24,
            needed: 3,
            shortfall: spec_shortfall(data@.len(), offset as nat),
        }),
{
    if data.len() >= 3 && offset <= data.len() - 3 {
        let u: u32 = data[offset] as u32 + data[offset + 1] as u32 * 0x100 + data[offset
            + 2] as u32 * 0x10000;
        Ok(u as i32)
    } else {
        Err(
            RLibError::NotEnoughBytes {
                kind: DataKind::I24,
                needed: 3,
                shortfall: shortfall(data.len(), offset),
            },
        )
    }
}

/// Decodes a little-endian i32 from the four bytes at `offset`.
pub fn decode_integer_i32(data: &[u8], offset: usize) -> (r: Result<i32, RLibError>)
    ensures
        r is Ok <==> offset + 4 <= data@.len(),
        r matches Ok(v) ==> v as int == spec_signed(spec_u32_le(data@, offset as int) as int, 32),
        r matches Err(e) ==> e == (RLibError::NotEnoughBytes {
            kind: DataKind::I32,
            needed: 4,
            shortfall: spec_shortfall(data@.len(), offset as nat),
        }),
{
    if data.len() >= 4 && offset <= data.len() - 4 {
        let u: u32 = data[offset] as u32 + data[offset + 1] as u32 * 0x100 + data[offset
            + 2] as u32 * 0x10000 + data[offset + 3] as u32 * 0x1000000;
        if u < 0x80000000 {
            Ok(u as i32)
        } else {
            Ok(((u as i64) - 0x100000000i64) as i32)
        }
    } else {
        Err(
            RLibError::NotEnoughBytes {
                kind: DataKind::I32,
                needed: 4,
                shortfall: shortfall(data.len(), offset),
            },
        )
    }
}

/// Decodes a little-endian i64 from the eight bytes at `offset`.
pub fn decode_integer_i64(data: &[u8], offset: usize) -> (r: Result<i64, RLibError>)
    ensures
        r is Ok <==> offset + 8 <= data@.len(),
        r matches Ok(v) ==> v as int == spec_signed(spec_u64_le(data@, offset as int) as int, 64),
        r matches Err(e) ==> e == (RLibError::NotEnoughBytes {
            kind: DataKind::I64,
            needed: 8,
            shortfall: spec_shortfall(data@.len(), offset as nat),
        }),
{
    if data.len() >= 8 && offset <= data.len() - 8 {
        let u: u64 = data[offset] as u64 + data[offset + 1] as u64 * 0x100 + data[offset
            + 2] as u64 * 0x10000 + data[offset + 3] as u64 * 0x1000000 + data[offset + 4] as u64
            * 0x100000000 + data[offset + 5] as u64 * 0x10000000000 + data[offset + 6] as u64
            * 0x1000000000000 + data[offset + 7] as u64 * 0x100000000000000;
        if u < 0x8000000000000000 {
            Ok(u as i64)
        } else {
            Ok(((u as i128) - 0x10000000000000000i128) as i64)
        }
    } else {
        Err(
            RLibError::NotEnoughBytes {
                kind: DataKind::I64,
                needed: 8,
                shortfall: shortfall(data.len(), offset),
            },
        )
    }
}

/// Decodes a four-byte little-endian colour word at `offset`.
///
/// The value is the same little-endian u32 read, only the error is reported
/// under the colour kind.
pub fn decode_integer_colour_rgb(data: &[u8], offset: usize) -> (r: Result<u32, RLibError>)
    ensures
        r is Ok <==> offset + 4 <= data@.len(),
        r matches Ok(v) ==> v == spec_u32_le(data@, offset as int),
        r matches Err(e) ==> e == (RLibError::NotEnoughBytes {
            kind: DataKind::ColourRgb,
            needed: 4,
            shortfall: spec_shortfall(data@.len(), offset as nat),
        }),
{
    if data.len() >= 4 && offset <= data.len() - 4 {
        Ok(
            data[offset] as u32 + data[offset + 1] as u32 * 0x100 + data[offset + 2] as u32
                * 0x10000 + data[offset + 3] as u32 * 0x1000000,
        )
    } else {
        Err(
            RLibError::NotEnoughBytes {
                kind: DataKind::ColourRgb,
                needed: 4,
                shortfall: shortfall(data.len(), offset),
            },
        )
    }
}

/// One step of the variant-length decode: the accumulator shifted left by
/// seven with the low seven bits of `b` shifted in, truncated to 32 bits.
pub open spec fn cauleb_step(acc: u32, b: u8) -> u32 {
    (acc << 7) | (b & 0x7f) as u32
}

/// Result of the variant-length integer decode starting at `i` with an
/// accumulated value `acc`: the decoded value and the position one past the
/// final byte, or `None` when the stream runs out before a byte with a clear
/// high bit.
pub open spec fn spec_cauleb128(s: Seq<u8>, i: int, acc: u32) -> Option<(u32, int)>
    decreases s.len() - i,
{
    if i < 0 || i >= s.len() {
        None
    } else if s[i] & 0x80 == 0 {
        Some((cauleb_step(acc, s[i]), i + 1))
    } else {
        spec_cauleb128(s, i + 1, cauleb_step(acc, s[i]))
    }
}

/// Decodes the variant-length unsigned integer at `*index`, advancing the
/// cursor past it on success.
///
/// Each byte's high bit signals continuation and its low seven bits are
/// shifted into the low end of a 32-bit accumulator, most significant group
/// first; bits shifted beyond 32 are discarded. Fails with
/// `NotMoreBytesToDecode` when the stream is exhausted mid-sequence, and
/// the cursor then stays where it started.
pub fn decode_packedfile_integer_cauleb128(data: &[u8], index: &mut usize) -> (r: Result<
    u32,
    RLibError,
>)
    ensures
        r matches Ok(v) ==> spec_cauleb128(data@, *old(index) as int, 0) == Some(
            (v, *final(index) as int),
        ),
        r is Err <==> spec_cauleb128(data@, *old(index) as int, 0) is None,
        r matches Err(e) ==> e == RLibError::NotMoreBytesToDecode,
        r is Err ==> *final(index) == *old(index),
{
    let mut size: u32 = 0;
    let start = *index;
    if *index >= data.len() {
        return Err(RLibError::NotMoreBytesToDecode);
    }
    loop
        invariant
            start == *old(index),
            *old(index) <= *index <= data@.len(),
            spec_cauleb128(data@, *old(index) as int, 0) == spec_cauleb128(
                data@,
                *index as int,
                size,
            ),
        decreases data@.len() - *index,
    {
        if *index >= data.len() {
            *index = start;
            return Err(RLibError::NotMoreBytesToDecode);
        }
        let byte = data[*index];
        size = (size << 7) | (byte & 0x7f) as u32;
        *index += 1;
        if byte & 0x80 == 0 {
            return Ok(size);
        }
    }
}

/// The `n` little-endian 16-bit units starting at byte `o`.
pub open spec fn spec_u16_units(s: Seq<u8>, o: int, n: int) -> Seq<u16> {
    Seq::new(n as nat, |k: int| spec_u16_le(s, o + 2 * k))
}

/// Decodes exactly `size` bytes at `offset` as a strict UTF-8 string.
pub fn decode_string_u8(data: &[u8], offset: usize, size: usize) -> (r: Result<String, RLibError>)
    ensures
        r is Ok <==> offset + size <= data@.len() && valid_utf8(
            data@.subrange(offset as int, offset + size as int),
        ),
        r matches Ok(s) ==> s@ == decode_utf8(data@.subrange(offset as int, offset + size as int)),
        offset + size > data@.len() ==> (r matches Err(e) && e == RLibError::NotEnoughBytes {
            kind: DataKind::StringU8,
            needed: size,
            shortfall: spec_shortfall(data@.len(), offset as nat),
        }),
        r is Err && offset + size <= data@.len() ==> (r matches Err(e) && e
            == RLibError::InvalidUtf8(DataKind::StringU8)),
{
    let len = data.len();
    if len < size || offset > len - size {
        return Err(
            RLibError::NotEnoughBytes {
                kind: DataKind::StringU8,
                needed: size,
                shortfall: shortfall(len, offset),
            },
        );
    }
    let bytes = match decode_bytes_checked(data, offset, size) {
        Ok(b) => b,
        Err(_) => {
            proof {
                assert(false);
            }
            Vec::new()
        },
    };
    proof {
        assert(bytes@ =~= data@.subrange(offset as int, offset + size as int));
    }
    match string_from_utf8(bytes) {
        Some(s) => Ok(s),
        None => Err(RLibError::InvalidUtf8(DataKind::StringU8)),
    }
}

/// Decodes exactly `size` bytes at `offset` as an ISO-8859-1 string; every
/// byte maps to a character, so only bounds can fail.
pub fn decode_string_u8_iso_8859_1(data: &[u8], offset: usize, size: usize) -> (r: Result<
    String,
    RLibError,
>)
    ensures
        r is Ok <==> offset + size <= data@.len(),
        r matches Ok(s) ==> s@ == latin1_chars(data@.subrange(offset as int, offset + size as int)),
        r matches Err(e) ==> e == (RLibError::NotEnoughBytes {
            kind: DataKind::StringU8Iso8859_1,
            needed: size,
            shortfall: spec_shortfall(data@.len(), offset as nat),
        }),
{
    let len = data.len();
    if len < size || offset > len - size {
        return Err(
            RLibError::NotEnoughBytes {
                kind: DataKind::StringU8Iso8859_1,
                needed: size,
                shortfall: shortfall(len, offset),
            },
        );
    }
    let bytes = match decode_bytes_checked(data, offset, size) {
        Ok(b) => b,
        Err(_) => {
            proof {
                assert(false);
            }
            Vec::new()
        },
    };
    proof {
        assert(bytes@ =~= data@.subrange(offset as int, offset + size as int));
    }
    Ok(latin1_to_string(bytes.as_slice()))
}

/// Decodes a zero-padded UTF-8 string: the text before the first zero byte
/// of the `size`-byte field, strictly decoded, together with the full
/// declared size so a cursor can skip the padding too.
pub fn decode_string_u8_0padded(data: &[u8], offset: usize, size: usize) -> (r: Result<
    (String, usize),
    RLibError,
>)
    ensures
        ({
            let w = data@.subrange(offset as int, offset + size as int);
            &&& r is Ok <==> offset + size <= data@.len() && valid_utf8(w.take(spec_first_zero(w)))
            &&& (r matches Ok(p) ==> p.0@ == decode_utf8(w.take(spec_first_zero(w))) && p.1 == size)
        }),
        offset + size > data@.len() ==> (r matches Err(e) && e == RLibError::NotEnoughBytes {
            kind: DataKind::StringU8ZeroPadded,
            needed: size,
            shortfall: spec_shortfall(data@.len(), offset as nat),
        }),
        r is Err && offset + size <= data@.len() ==> (r matches Err(e) && e
            == RLibError::InvalidUtf8(DataKind::StringU8ZeroPadded)),
{
    let len = data.len();
    if len < size || offset > len - size {
        return Err(
            RLibError::NotEnoughBytes {
                kind: DataKind::StringU8ZeroPadded,
                needed: size,
                shortfall: shortfall(len, offset),
            },
        );
    }
    let ghost w = data@.subrange(offset as int, offset + size as int);
    let mut z: usize = 0;
    while z < size && data[offset + z] != 0
        invariant
            offset + size <= data@.len(),
            data@.len() <= usize::MAX,
            z <= size,
            forall|j: int| 0 <= j < z ==> #[trigger] data@.subrange(
                offset as int,
                offset + size as int,
            )[j] != 0,
        decreases size - z,
    {
        z = z + 1;
    }
    proof {
        lemma_first_zero_is(w, z as int);
    }
    let bytes = match decode_bytes_checked(data, offset, z) {
        Ok(b) => b,
        Err(_) => {
            proof {
                assert(false);
            }
            Vec::new()
        },
    };
    proof {
        assert(bytes@ =~= w.take(spec_first_zero(w)));
    }
    match string_from_utf8(bytes) {
        Some(s) => Ok((s, size)),
        None => Err(RLibError::InvalidUtf8(DataKind::StringU8ZeroPadded)),
    }
}

/// Decodes a zero-terminated UTF-8 string starting at `offset`: scans to the
/// first zero byte or the end of the source, decodes the prefix with the
/// lossy UTF-8 reading (this decoder never fails on malformed sequences, on
/// purpose), and reports the bytes consumed, counting the terminator when
/// one was found.
pub fn decode_string_u8_0terminated(data: &[u8], offset: usize) -> (r: Result<
    (String, usize),
    RLibError,
>)
    ensures
        r is Ok <==> offset <= data@.len(),
        ({
            let rest = data@.subrange(offset as int, data@.len() as int);
            let z = spec_first_zero(rest);
            r matches Ok(p) ==> p.0@ == utf8_lossy(rest.take(z)) && p.1 == (if z < rest.len() {
                z + 1
            } else {
                z
            })
        }),
        ({
            let rest = data@.subrange(offset as int, data@.len() as int);
            let z = spec_first_zero(rest);
            r matches Ok(p) ==> valid_utf8(rest.take(z)) ==> p.0@ == decode_utf8(rest.take(z))
        }),
        r matches Ok(p) ==> offset + p.1 <= data@.len(),
        r matches Err(e) ==> e == RLibError::NotMoreBytesToDecode,
{
    let len = data.len();
    if offset > len {
        return Err(RLibError::NotMoreBytesToDecode);
    }
    let ghost rest = data@.subrange(offset as int, data@.len() as int);
    let mut z: usize = 0;
    while offset + z < len && data[offset + z] != 0
        invariant
            offset <= data@.len(),
            len == data@.len(),
            z <= len - offset,
            forall|j: int| 0 <= j < z ==> #[trigger] data@.subrange(
                offset as int,
                data@.len() as int,
            )[j] != 0,
        decreases len - offset - z,
    {
        z = z + 1;
    }
    proof {
        lemma_first_zero_is(rest, z as int);
    }
    let bytes = match decode_bytes_checked(data, offset, z) {
        Ok(b) => b,
        Err(_) => {
            proof {
                assert(false);
            }
            Vec::new()
        },
    };
    proof {
        if z != 0 {
            assert(bytes@ =~= rest.take(z as int));
        } else {
            assert(bytes@ =~= rest.take(0));
        }
    }
    let s = string_from_utf8_lossy(bytes.as_slice());
    let consumed: usize = if offset + z < len {
        z + 1
    } else {
        z
    };
    Ok((s, consumed))
}

/// Decodes `size` bytes at `offset` as little-endian UTF-16 code units; an
/// odd trailing byte is ignored. Strict decoding: lone or misordered
/// surrogates fail.
pub fn decode_string_u16(data: &[u8], offset: usize, size: usize) -> (r: Result<String, RLibError>)
    ensures
        r is Ok <==> offset + size <= data@.len() && utf16_valid(
            spec_u16_units(data@, offset as int, size as int / 2),
        ),
        r matches Ok(s) ==> s@ == utf16_decode(spec_u16_units(data@, offset as int, size as int / 2)),
        offset + size > data@.len() ==> (r matches Err(e) && e == RLibError::NotEnoughBytes {
            kind: DataKind::StringU16,
            needed: size,
            shortfall: spec_shortfall(data@.len(), offset as nat),
        }),
        r is Err && offset + size <= data@.len() ==> (r matches Err(e) && e
            == RLibError::InvalidUtf16(DataKind::StringU16)),
{
    let len = data.len();
    if len < size || offset > len - size {
        return Err(
            RLibError::NotEnoughBytes {
                kind: DataKind::StringU16,
                needed: size,
                shortfall: shortfall(len, offset),
            },
        );
    }
    let units = collect_u16_units(data, offset, size / 2);
    match string_from_utf16(units.as_slice()) {
        Some(s) => Ok(s),
        None => Err(RLibError::InvalidUtf16(DataKind::StringU16)),
    }
}

/// Reads `n` little-endian 16-bit units starting at `offset`.
fn collect_u16_units(data: &[u8], offset: usize, n: usize) -> (units: Vec<u16>)
    requires
        offset + 2 * n <= data@.len(),
        offset + 2 * n <= usize::MAX,
    ensures
        units@ == spec_u16_units(data@, offset as int, n as int),
{
    let mut units: Vec<u16> = Vec::new();
    let mut k: usize = 0;
    while k < n
        invariant
            offset + 2 * n <= data@.len(),
            offset + 2 * n <= usize::MAX,
            k <= n,
            units@ == spec_u16_units(data@, offset as int, k as int),
        decreases n - k,
    {
        units.push(data[offset + 2 * k] as u16 + data[offset + 2 * k + 1] as u16 * 0x100);
        proof {
            assert(units@ =~= spec_u16_units(data@, offset as int, k + 1 as int));
        }
        k = k + 1;
    }
    units
}

/// Decodes a zero-padded UTF-16 string: the field is scanned two bytes at a
/// time and ends at the first probed byte that is zero (only the first byte
/// of each pair is probed, as the original format does); the prefix is
/// strictly decoded and the full declared size is reported.
pub fn decode_string_u16_0padded(data: &[u8], offset: usize, size: usize) -> (r: Result<
    (String, usize),
    RLibError,
>)
    ensures
        ({
            let w = data@.subrange(offset as int, offset + size as int);
            let units = spec_u16_units(data@, offset as int, spec_even_zero_prefix(w) / 2);
            &&& r is Ok <==> offset + size <= data@.len() && utf16_valid(units)
            &&& (r matches Ok(p) ==> p.0@ == utf16_decode(units) && p.1 == size)
        }),
        offset + size > data@.len() ==> (r matches Err(e) && e == RLibError::NotEnoughBytes {
            kind: DataKind::StringU16ZeroPadded,
            needed: size,
            shortfall: spec_shortfall(data@.len(), offset as nat),
        }),
        r is Err && offset + size <= data@.len() ==> (r matches Err(e) && e
            == RLibError::InvalidUtf16(DataKind::StringU16ZeroPadded)),
{
    let len = data.len();
    if len < size || offset > len - size {
        return Err(
            RLibError::NotEnoughBytes {
                kind: DataKind::StringU16ZeroPadded,
                needed: size,
                shortfall: shortfall(len, offset),
            },
        );
    }
    let ghost w = data@.subrange(offset as int, offset + size as int);
    let mut z: usize = 0;
    while z < size && data[offset + z] != 0
        invariant
            offset + size <= data@.len(),
            data@.len() <= usize::MAX,
            z <= size,
            z % 2 == 0 || z == size,
            forall|j: int| 0 <= j < z && j % 2 == 0 ==> #[trigger] data@.subrange(
                offset as int,
                offset + size as int,
            )[j] != 0,
        decreases size - z,
    {
        if size - z < 2 {
            z = size;
        } else {
            z = z + 2;
        }
    }
    proof {
        if z < size {
            lemma_even_zero_prefix_is(w, z as int);
        } else {
            lemma_even_zero_prefix_is(w, size as int);
        }
    }
    let units = collect_u16_units(data, offset, z / 2);
    match string_from_utf16(units.as_slice()) {
        Some(s) => Ok((s, size)),
        None => Err(RLibError::InvalidUtf16(DataKind::StringU16ZeroPadded)),
    }
}

/// Writes the ASCII digits of `v` in uppercase hexadecimal onto `out`, most
/// significant first.
fn push_hex_digits(v: u32, out: &mut Vec<u8>)
    ensures
        final(out)@ == old(out)@ + spec_hex_bytes(v as int),
    decreases v,
{
    if v < 16 {
        let d = v as u8;
        if d < 10 {
            out.push(0x30 + d);
        } else {
            out.push(0x37 + d);
        }
        proof {
            assert(out@ =~= old(out)@ + spec_hex_bytes(v as int));
        }
    } else {
        push_hex_digits(v / 16, out);
        let d = (v % 16) as u8;
        if d < 10 {
            out.push(0x30 + d);
        } else {
            out.push(0x37 + d);
        }
        proof {
            assert(out@ =~= old(out)@ + spec_hex_bytes(v as int));
        }
    }
}

/// Renders the colour word at `offset` as six uppercase hexadecimal
/// digits. The low three bytes are the blue, green and red channels in
/// that order before a discarded high byte, so the digit order does not
/// match the RGB reading the text suggests; that exact transform is
/// preserved, and the high byte is dropped.
pub fn decode_string_colour_rgb(data: &[u8], offset: usize) -> (r: Result<String, RLibError>)
    ensures
        r is Ok <==> offset + 4 <= data@.len(),
        r matches Ok(s) ==> s@ == latin1_chars(
            spec_colour_bytes(spec_u32_le(data@, offset as int)),
        ),
        r matches Err(e) ==> e == (RLibError::NotEnoughBytes {
            kind: DataKind::ColourRgb,
            needed: 4,
            shortfall: spec_shortfall(data@.len(), offset as nat),
        }),
{
    let word = match decode_integer_colour_rgb(data, offset) {
        Ok(v) => v,
        Err(e) => {
            return Err(e);
        },
    };
    let v = word % 0x1000000;
    let mut digits: Vec<u8> = Vec::new();
    push_hex_digits(v, &mut digits);
    let mut bytes: Vec<u8> = Vec::new();
    while digits.len() < 6 && bytes.len() < 6 - digits.len()
        invariant
            digits@ == spec_hex_bytes(v as int),
            bytes@ == Seq::new(bytes@.len(), |_i: int| 0x30u8),
            bytes@.len() != 0 ==> bytes@.len() + digits@.len() <= 6,
        decreases 6 - bytes@.len() - digits@.len(),
    {
        bytes.push(0x30);
        proof {
            assert(bytes@ =~= Seq::new(bytes@.len(), |_i: int| 0x30u8));
        }
    }
    bytes.append(&mut digits);
    proof {
        assert(bytes@ =~= spec_colour_bytes(word));
    }
    Ok(latin1_to_string(bytes.as_slice()))
}

/// True when the byte at `o` parses as a boolean.
pub open spec fn spec_bool_ok(s: Seq<u8>, o: int) -> bool {
    0 <= o < s.len() && (s[o] == 0 || s[o] == 1)
}

/// Decodes a boolean at `offset`, advancing the cursor by one on success.
pub fn decode_packedfile_bool(data: &[u8], offset: usize, index: &mut usize) -> (r: Result<
    bool,
    RLibError,
>)
    requires
        *old(index) + 1 <= usize::MAX,
    ensures
        r is Ok <==> spec_bool_ok(data@, offset as int),
        r matches Ok(v) ==> v == (data@[offset as int] == 1),
        r is Ok ==> *final(index) == *old(index) + 1,
        r is Err ==> *final(index) == *old(index),
        offset >= data@.len() ==> r == Err::<bool, RLibError>(RLibError::NoBytesLeft),
        offset < data@.len() && data@[offset as int] != 0 && data@[offset as int] != 1 ==> r
            == Err::<bool, RLibError>(RLibError::InvalidBoolValue(data@[offset as int])),
{
    let result = decode_bool(data, offset);
    if result.is_ok() {
        *index += 1;
    }
    result
}

/// Decodes a u8 at `offset`, advancing the cursor by one on success.
pub fn decode_packedfile_integer_u8(data: &[u8], offset: usize, index: &mut usize) -> (r: Result<
    u8,
    RLibError,
>)
    requires
        *old(index) + 1 <= usize::MAX,
    ensures
        r is Ok <==> offset < data@.len(),
        r matches Ok(v) ==> v == data@[offset as int],
        r matches Err(e) ==> e == RLibError::NoBytesLeft,
        r is Ok ==> *final(index) == *old(index) + 1,
        r is Err ==> *final(index) == *old(index),
{
    let result = decode_integer_u8(data, offset);
    if result.is_ok() {
        *index += 1;
    }
    result
}

/// Decodes a little-endian u16 at `offset`, advancing the cursor by two on
/// success.
pub fn decode_packedfile_integer_u16(data: &[u8], offset: usize, index: &mut usize) -> (r: Result<
    u16,
    RLibError,
>)
    requires
        *old(index) + 2 <= usize::MAX,
    ensures
        r is Ok <==> offset + 2 <= data@.len(),
        r matches Ok(v) ==> v == spec_u16_le(data@, offset as int),
        r matches Err(e) ==> e == (RLibError::NotEnoughBytes {
            kind: DataKind::U16,
            needed: 2,
            shortfall: spec_shortfall(data@.len(), offset as nat),
        }),
        r is Ok ==> *final(index) == *old(index) + 2,
        r is Err ==> *final(index) == *old(index),
{
    let result = decode_integer_u16(data, offset);
    if result.is_ok() {
        *index += 2;
    }
    result
}

/// Decodes a little-endian u24 at `offset`, advancing the cursor by three on
/// success.
pub fn decode_packedfile_integer_u24(data: &[u8], offset: usize, index: &mut usize) -> (r: Result<
    u32,
    RLibError,
>)
    requires
        *old(index) + 3 <= usize::MAX,
    ensures
        r is Ok <==> offset + 3 <= data@.len(),
        r matches Ok(v) ==> v == spec_u24_le(data@, offset as int),
        r matches Err(e) ==> e == (RLibError::NotEnoughBytes {
            kind: DataKind::U24,
            needed: 3,
            shortfall: spec_shortfall(data@.len(), offset as nat),
        }),
        r is Ok ==> *final(index) == *old(index) + 3,
        r is Err ==> *final(index) == *old(index),
{
    let result = decode_integer_u24(data, offset);
    if result.is_ok() {
        *index += 3;
    }
    result
}

/// Decodes a little-endian u32 at `offset`, advancing the cursor by four on
/// success.
pub fn decode_packedfile_integer_u32(data: &[u8], offset: usize, index: &mut usize) -> (r: Result<
    u32,
    RLibError,
>)
    requires
        *old(index) + 4 <= usize::MAX,
    ensures
        r is Ok <==> offset + 4 <= data@.len(),
        r matches Ok(v) ==> v == spec_u32_le(data@, offset as int),
        r matches Err(e) ==> e == (RLibError::NotEnoughBytes {
            kind: DataKind::U32,
            needed: 4,
            shortfall: spec_shortfall(data@.len(), offset as nat),
        }),
        r is Ok ==> *final(index) == *old(index) + 4,
        r is Err ==> *final(index) == *old(index),
{
    let result = decode_integer_u32(data, offset);
    if result.is_ok() {
        *index += 4;
    }
    result
}

/// Decodes a little-endian u64 at `offset`, advancing the cursor by eight on
/// success.
pub fn decode_packedfile_integer_u64(data: &[u8], offset: usize, index: &mut usize) -> (r: Result<
    u64,
    RLibError,
>)
    requires
        *old(index) + 8 <= usize::MAX,
    ensures
        r is Ok <==> offset + 8 <= data@.len(),
        r matches Ok(v) ==> v == spec_u64_le(data@, offset as int),
        r matches Err(e) ==> e == (RLibError::NotEnoughBytes {
            kind: DataKind::U64,
            needed: 8,
            shortfall: spec_shortfall(data@.len(), offset as nat),
        }),
        r is Ok ==> *final(index) == *old(index) + 8,
        r is Err ==> *final(index) == *old(index),
{
    let result = decode_integer_u64(data, offset);
    if result.is_ok() {
        *index += 8;
    }
    result
}

/// Decodes an i8 at `offset`, advancing the cursor by one on success.
pub fn decode_packedfile_integer_i8(data: &[u8], offset: usize, index: &mut usize) -> (r: Result<
    i8,
    RLibError,
>)
    requires
        *old(index) + 1 <= usize::MAX,
    ensures
        r is Ok <==> offset < data@.len(),
        r matches Ok(v) ==> v as int == spec_signed(data@[offset as int] as int, 8),
        r matches Err(e) ==> e == RLibError::NoBytesLeft,
        r is Ok ==> *final(index) == *old(index) + 1,
        r is Err ==> *final(index) == *old(index),
{
    let result = decode_integer_i8(data, offset);
    if result.is_ok() {
        *index += 1;
    }
    result
}

/// Decodes a little-endian i16 at `offset`, advancing the cursor by two on
/// success.
pub fn decode_packedfile_integer_i16(data: &[u8], offset: usize, index: &mut usize) -> (r: Result<
    i16,
    RLibError,
>)
    requires
        *old(index) + 2 <= usize::MAX,
    ensures
        r is Ok <==> offset + 2 <= data@.len(),
        r matches Ok(v) ==> v as int == spec_signed(spec_u16_le(data@, offset as int) as int, 16),
        r matches Err(e) ==> e == (RLibError::NotEnoughBytes {
            kind: DataKind::I16,
            needed: 2,
            shortfall: spec_shortfall(data@.len(), offset as nat),
        }),
        r is Ok ==> *final(index) == *old(index) + 2,
        r is Err ==> *final(index) == *old(index),
{
    let result = decode_integer_i16(data, offset);
    if result.is_ok() {
        *index += 2;
    }
    result
}

/// Decodes a little-endian i24 at `offset`, advancing the cursor by three on
/// success.
pub fn decode_packedfile_integer_i24(data: &[u8], offset: usize, index: &mut usize) -> (r: Result<
    i32,
    RLibError,
>)
    requires
        *old(index) + 3 <= usize::MAX,
    ensures
        r is Ok <==> offset + 3 <= data@.len(),
        r matches Ok(v) ==> v as int == spec_u24_le(data@, offset as int) as int,
        r matches Err(e) ==> e == (RLibError::NotEnoughBytes {
            kind: DataKind::I24,
            needed: 3,
            shortfall: spec_shortfall(data@.len(), offset as nat),
        }),
        r is Ok ==> *final(index) == *old(index) + 3,
        r is Err ==> *final(index) == *old(index),
{
    let result = decode_integer_i24(data, offset);
    if result.is_ok() {
        *index += 3;
    }
    result
}

/// Decodes a little-endian i32 at `offset`, advancing the cursor by four on
/// success.
pub fn decode_packedfile_integer_i32(data: &[u8], offset: usize, index: &mut usize) -> (r: Result<
    i32,
    RLibError,
>)
    requires
        *old(index) + 4 <= usize::MAX,
    ensures
        r is Ok <==> offset + 4 <= data@.len(),
        r matches Ok(v) ==> v as int == spec_signed(spec_u32_le(data@, offset as int) as int, 32),
        r matches Err(e) ==> e == (RLibError::NotEnoughBytes {
            kind: DataKind::I32,
            needed: 4,
            shortfall: spec_shortfall(data@.len(), offset as nat),
        }),
        r is Ok ==> *final(index) == *old(index) + 4,
        r is Err ==> *final(index) == *old(index),
{
    let result = decode_integer_i32(data, offset);
    if result.is_ok() {
        *index += 4;
    }
    result
}

/// Decodes a little-endian i64 at `offset`, advancing the cursor by eight on
/// success.
pub fn decode_packedfile_integer_i64(data: &[u8], offset: usize, index: &mut usize) -> (r: Result<
    i64,
    RLibError,
>)
    requires
        *old(index) + 8 <= usize::MAX,
    ensures
        r is Ok <==> offset + 8 <= data@.len(),
        r matches Ok(v) ==> v as int == spec_signed(spec_u64_le(data@, offset as int) as int, 64),
        r matches Err(e) ==> e == (RLibError::NotEnoughBytes {
            kind: DataKind::I64,
            needed: 8,
            shortfall: spec_shortfall(data@.len(), offset as nat),
        }),
        r is Ok ==> *final(index) == *old(index) + 8,
        r is Err ==> *final(index) == *old(index),
{
    let result = decode_integer_i64(data, offset);
    if result.is_ok() {
        *index += 8;
    }
    result
}

/// Decodes an optional i16: a boolean is read at `offset` and the integer at
/// the same offset, each advancing the cursor on its own success, exactly as
/// the format's historical reader does.
pub fn decode_packedfile_optional_integer_i16(data: &[u8], offset: usize, index: &mut usize) -> (r:
    Result<i16, RLibError>)
    requires
        *old(index) + 3 <= usize::MAX,
    ensures
        r is Ok <==> offset + 2 <= data@.len(),
        r matches Ok(v) ==> v as int == spec_signed(spec_u16_le(data@, offset as int) as int, 16),
        r matches Err(e) ==> e == (RLibError::NotEnoughBytes {
            kind: DataKind::I16,
            needed: 2,
            shortfall: spec_shortfall(data@.len(), offset as nat),
        }),
        *final(index) == *old(index) + (if spec_bool_ok(data@, offset as int) {
            1int
        } else {
            0int
        }) + (if offset + 2 <= data@.len() {
            2int
        } else {
            0int
        }),
{
    let result = decode_bool(data, offset);
    if result.is_ok() {
        *index += 1;
    }
    let result = decode_integer_i16(data, offset);
    if result.is_ok() {
        *index += 2;
    }
    result
}

/// Decodes an optional i32; same boolean-then-integer reads at one offset as
/// the i16 form.
pub fn decode_packedfile_optional_integer_i32(data: &[u8], offset: usize, index: &mut usize) -> (r:
    Result<i32, RLibError>)
    requires
        *old(index) + 5 <= usize::MAX,
    ensures
        r is Ok <==> offset + 4 <= data@.len(),
        r matches Ok(v) ==> v as int == spec_signed(spec_u32_le(data@, offset as int) as int, 32),
        r matches Err(e) ==> e == (RLibError::NotEnoughBytes {
            kind: DataKind::I32,
            needed: 4,
            shortfall: spec_shortfall(data@.len(), offset as nat),
        }),
        *final(index) == *old(index) + (if spec_bool_ok(data@, offset as int) {
            1int
        } else {
            0int
        }) + (if offset + 4 <= data@.len() {
            4int
        } else {
            0int
        }),
{
    let result = decode_bool(data, offset);
    if result.is_ok() {
        *index += 1;
    }
    let result = decode_integer_i32(data, offset);
    if result.is_ok() {
        *index += 4;
    }
    result
}

/// Decodes an optional i64; same boolean-then-integer reads at one offset as
/// the i16 form.
pub fn decode_packedfile_optional_integer_i64(data: &[u8], offset: usize, index: &mut usize) -> (r:
    Result<i64, RLibError>)
    requires
        *old(index) + 9 <= usize::MAX,
    ensures
        r is Ok <==> offset + 8 <= data@.len(),
        r matches Ok(v) ==> v as int == spec_signed(spec_u64_le(data@, offset as int) as int, 64),
        r matches Err(e) ==> e == (RLibError::NotEnoughBytes {
            kind: DataKind::I64,
            needed: 8,
            shortfall: spec_shortfall(data@.len(), offset as nat),
        }),
        *final(index) == *old(index) + (if spec_bool_ok(data@, offset as int) {
            1int
        } else {
            0int
        }) + (if offset + 8 <= data@.len() {
            8int
        } else {
            0int
        }),
{
    let result = decode_bool(data, offset);
    if result.is_ok() {
        *index += 1;
    }
    let result = decode_integer_i64(data, offset);
    if result.is_ok() {
        *index += 8;
    }
    result
}

/// Decodes a colour word at `offset`, advancing the cursor by four on
/// success.
pub fn decode_packedfile_integer_colour_rgb(data: &[u8], offset: usize, index: &mut usize) -> (r:
    Result<u32, RLibError>)
    requires
        *old(index) + 4 <= usize::MAX,
    ensures
        r is Ok <==> offset + 4 <= data@.len(),
        r matches Ok(v) ==> v == spec_u32_le(data@, offset as int),
        r matches Err(e) ==> e == (RLibError::NotEnoughBytes {
            kind: DataKind::ColourRgb,
            needed: 4,
            shortfall: spec_shortfall(data@.len(), offset as nat),
        }),
        r is Ok ==> *final(index) == *old(index) + 4,
        r is Err ==> *final(index) == *old(index),
{
    let result = decode_integer_colour_rgb(data, offset);
    if result.is_ok() {
        *index += 4;
    }
    result
}

/// Renders the colour word at `offset` as text, advancing the cursor by four
/// on success.
pub fn decode_packedfile_string_colour_rgb(data: &[u8], offset: usize, index: &mut usize) -> (r:
    Result<String, RLibError>)
    requires
        *old(index) + 4 <= usize::MAX,
    ensures
        r is Ok <==> offset + 4 <= data@.len(),
        r matches Ok(s) ==> s@ == latin1_chars(
            spec_colour_bytes(spec_u32_le(data@, offset as int)),
        ),
        r matches Err(e) ==> e == (RLibError::NotEnoughBytes {
            kind: DataKind::ColourRgb,
            needed: 4,
            shortfall: spec_shortfall(data@.len(), offset as nat),
        }),
        r is Ok ==> *final(index) == *old(index) + 4,
        r is Err ==> *final(index) == *old(index),
{
    let result = decode_string_colour_rgb(data, offset);
    if result.is_ok() {
        *index += 4;
    }
    result
}

/// The byte window of a u16-length-prefixed UTF-8 string at `o`: the bytes
/// after the prefix, as many as the prefix declares.
pub open spec fn spec_sized_u8_window(s: Seq<u8>, o: int) -> Seq<u8> {
    s.subrange(o + 2, o + 2 + spec_u16_le(s, o))
}

/// True when the u16-length-prefixed UTF-8 string at `o` decodes.
pub open spec fn spec_sized_u8_ok(s: Seq<u8>, o: int) -> bool {
    &&& o + 2 <= s.len()
    &&& o + 2 + spec_u16_le(s, o) <= s.len()
    &&& valid_utf8(spec_sized_u8_window(s, o))
}

/// Decodes a u16-length-prefixed UTF-8 string at `offset`. On success the
/// cursor advances over the prefix and the text; if the text fails to decode
/// the cursor rolls back past the prefix it had already consumed.
pub fn decode_packedfile_string_u8(data: &[u8], offset: usize, index: &mut usize) -> (r: Result<
    String,
    RLibError,
>)
    requires
        *old(index) + 0x10002 <= usize::MAX,
    ensures
        r is Ok <==> spec_sized_u8_ok(data@, offset as int),
        r matches Ok(s) ==> s@ == decode_utf8(spec_sized_u8_window(data@, offset as int)),
        r is Ok ==> *final(index) == *old(index) + 2 + spec_u16_le(data@, offset as int),
        r is Err ==> *final(index) == *old(index),
        offset + 2 > data@.len() ==> (r matches Err(e) && e == RLibError::StringSizeNotDecoded {
            kind: DataKind::StringU8,
            needed: 2,
            shortfall: spec_shortfall(data@.len(), offset as nat),
        }),
        offset + 2 <= data@.len() && offset + 2 + spec_u16_le(data@, offset as int) > data@.len()
            ==> (r matches Err(e) && e == RLibError::NotEnoughBytes {
            kind: DataKind::StringU8,
            needed: spec_u16_le(data@, offset as int) as usize,
            shortfall: spec_shortfall(data@.len(), (offset + 2) as nat),
        }),
        offset + 2 + spec_u16_le(data@, offset as int) <= data@.len() && r is Err ==> (r matches Err(
            e,
        ) && e == RLibError::InvalidUtf8(DataKind::StringU8)),
{
    let len = data.len();
    match decode_packedfile_integer_u16(data, offset, index) {
        Ok(size) => {
            let result = decode_string_u8(data, offset + 2, size as usize);
            if result.is_err() {
                *index -= 2;
            } else {
                *index += size as usize;
            }
            result
        },
        Err(_) => Err(
            RLibError::StringSizeNotDecoded {
                kind: DataKind::StringU8,
                needed: 2,
                shortfall: shortfall(data.len(), offset),
            },
        ),
    }
}

/// Decodes a zero-terminated UTF-8 string at `offset`, advancing the cursor
/// over the text and the terminator.
pub fn decode_packedfile_string_u8_0terminated(data: &[u8], offset: usize, index: &mut usize) -> (r:
    Result<String, RLibError>)
    requires
        *old(index) + data@.len() < usize::MAX,
    ensures
        r is Ok <==> offset <= data@.len(),
        ({
            let rest = data@.subrange(offset as int, data@.len() as int);
            let z = spec_first_zero(rest);
            &&& (r matches Ok(s) ==> s@ == utf8_lossy(rest.take(z)))
            &&& (r is Ok ==> *final(index) == *old(index) + (if z < rest.len() {
                z + 1
            } else {
                z
            }))
        }),
        r is Err ==> *final(index) == *old(index),
        r matches Err(e) ==> e == RLibError::NotMoreBytesToDecode,
{
    let len = data.len();
    match decode_string_u8_0terminated(data, offset) {
        Ok((string, size)) => {
            *index += size;
            Ok(string)
        },
        Err(e) => Err(e),
    }
}

/// Byte length of the text of a u16-length-prefixed UTF-16 string: twice the
/// prefix, wrapped to the 16-bit range because the prefix counts code units.
pub open spec fn spec_sized_u16_len(s: Seq<u8>, o: int) -> int {
    (2 * spec_u16_le(s, o)) % 0x10000
}

/// The code units of a u16-length-prefixed UTF-16 string at `o`.
pub open spec fn spec_sized_u16_units(s: Seq<u8>, o: int) -> Seq<u16> {
    spec_u16_units(s, o + 2, spec_sized_u16_len(s, o) / 2)
}

/// True when the u16-length-prefixed UTF-16 string at `o` decodes.
pub open spec fn spec_sized_u16_ok(s: Seq<u8>, o: int) -> bool {
    &&& o + 2 <= s.len()
    &&& o + 2 + spec_sized_u16_len(s, o) <= s.len()
    &&& utf16_valid(spec_sized_u16_units(s, o))
}

/// Decodes a u16-length-prefixed UTF-16 string at `offset`; the prefix
/// counts code units, so the text is twice as many bytes, computed with
/// wraparound in the 16-bit range. Cursor behaviour matches the UTF-8 form,
/// prefix rollback on text failure and all.
pub fn decode_packedfile_string_u16(data: &[u8], offset: usize, index: &mut usize) -> (r: Result<
    String,
    RLibError,
>)
    requires
        *old(index) + 0x10001 <= usize::MAX,
    ensures
        r is Ok <==> spec_sized_u16_ok(data@, offset as int),
        r matches Ok(s) ==> s@ == utf16_decode(spec_sized_u16_units(data@, offset as int)),
        r is Ok ==> *final(index) == *old(index) + 2 + spec_sized_u16_len(data@, offset as int),
        r is Err ==> *final(index) == *old(index),
        offset + 2 > data@.len() ==> (r matches Err(e) && e == RLibError::StringSizeNotDecoded {
            kind: DataKind::StringU16,
            needed: 2,
            shortfall: spec_shortfall(data@.len(), offset as nat),
        }),
        offset + 2 <= data@.len() && offset + 2 + spec_sized_u16_len(data@, offset as int)
            > data@.len() ==> (r matches Err(e) && e == RLibError::NotEnoughBytes {
            kind: DataKind::StringU16,
            needed: spec_sized_u16_len(data@, offset as int) as usize,
            shortfall: spec_shortfall(data@.len(), (offset + 2) as nat),
        }),
        offset + 2 + spec_sized_u16_len(data@, offset as int) <= data@.len() && r is Err ==> (r
            matches Err(e) && e == RLibError::InvalidUtf16(DataKind::StringU16)),
{
    let len = data.len();
    match decode_packedfile_integer_u16(data, offset, index) {
        Ok(size) => {
            let size_bytes = size.wrapping_mul(2) as usize;
            let result = decode_string_u16(data, offset + 2, size_bytes);
            if result.is_err() {
                *index -= 2;
            } else {
                *index += size_bytes;
            }
            result
        },
        Err(_) => Err(
            RLibError::StringSizeNotDecoded {
                kind: DataKind::StringU16,
                needed: 2,
                shortfall: shortfall(data.len(), offset),
            },
        ),
    }
}

/// Decodes an optional UTF-8 string: a leading boolean, false meaning the
/// empty string and true meaning a length-prefixed string follows. On a
/// failure past the boolean the cursor rolls back the byte it had consumed.
pub fn decode_packedfile_optional_string_u8(data: &[u8], offset: usize, index: &mut usize) -> (r:
    Result<String, RLibError>)
    requires
        *old(index) + 0x10003 <= usize::MAX,
    ensures
        r is Ok <==> spec_bool_ok(data@, offset as int) && (data@[offset as int] == 0
            || spec_sized_u8_ok(data@, offset + 1)),
        !spec_bool_ok(data@, offset as int) ==> (r matches Err(e) && e
            == RLibError::OptionalStringBoolNotDecoded(DataKind::OptionalStringU8)),
        r matches Ok(s) ==> s@ == (if data@[offset as int] == 0 {
            Seq::<char>::empty()
        } else {
            decode_utf8(spec_sized_u8_window(data@, offset + 1))
        }),
        r is Ok ==> *final(index) == *old(index) + (if data@[offset as int] == 0 {
            1int
        } else {
            3 + spec_u16_le(data@, offset + 1)
        }),
        r is Err ==> *final(index) == *old(index),
{
    let len = data.len();
    let has_text = match decode_packedfile_bool(data, offset, index) {
        Ok(b) => b,
        Err(_) => {
            return Err(RLibError::OptionalStringBoolNotDecoded(DataKind::OptionalStringU8));
        },
    };
    if !has_text {
        return Ok(String::new());
    }
    let result = decode_packedfile_string_u8(data, offset + 1, index);
    if result.is_err() {
        *index -= 1;
    }
    result
}

/// Decodes an optional UTF-16 string; the same boolean gate and rollback as
/// the UTF-8 form.
pub fn decode_packedfile_optional_string_u16(data: &[u8], offset: usize, index: &mut usize) -> (r:
    Result<String, RLibError>)
    requires
        *old(index) + 0x10002 <= usize::MAX,
    ensures
        r is Ok <==> spec_bool_ok(data@, offset as int) && (data@[offset as int] == 0
            || spec_sized_u16_ok(data@, offset + 1)),
        !spec_bool_ok(data@, offset as int) ==> (r matches Err(e) && e
            == RLibError::OptionalStringBoolNotDecoded(DataKind::OptionalStringU16)),
        r matches Ok(s) ==> s@ == (if data@[offset as int] == 0 {
            Seq::<char>::empty()
        } else {
            utf16_decode(spec_sized_u16_units(data@, offset + 1))
        }),
        r is Ok ==> *final(index) == *old(index) + (if data@[offset as int] == 0 {
            1int
        } else {
            3 + spec_sized_u16_len(data@, offset + 1)
        }),
        r is Err ==> *final(index) == *old(index),
{
    let len = data.len();
    let has_text = match decode_packedfile_bool(data, offset, index) {
        Ok(b) => b,
        Err(_) => {
            return Err(RLibError::OptionalStringBoolNotDecoded(DataKind::OptionalStringU16));
        },
    };
    if !has_text {
        return Ok(String::new());
    }
    let result = decode_packedfile_string_u16(data, offset + 1, index);
    if result.is_err() {
        *index -= 1;
    }
    result
}

} // verus!
