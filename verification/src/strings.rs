//! Text conversions used by the string decoders.
//!
//! The UTF-8 side is specified against vstd's byte-level UTF-8 model, so the
//! contracts of `string_from_utf8` and friends are exact. UTF-16 is specified
//! by the spec functions below, which follow the code-unit and surrogate-pair
//! rules of the encoding. Lossy UTF-8 decoding and Unicode lowercasing have
//! no short exact description, so their results are named by uninterpreted
//! functions instead.

use vstd::prelude::*;

use vstd::utf8::{
    decode_utf8, encode_scalar, encode_utf8, encode_utf8_decode_utf8, encode_utf8_valid_utf8,
    valid_utf8,
};

verus! {

/// The characters a Latin-1 (ISO-8859-1) byte sequence stands for: each byte
/// maps to the character with the same code point.
pub open spec fn latin1_chars(bytes: Seq<u8>) -> Seq<char> {
    bytes.map(|_i: int, b: u8| b as char)
}

/// What `String::from_utf8_lossy` yields on the given bytes; invalid
/// sequences become replacement characters under rules too long to restate.
pub uninterp spec fn utf8_lossy(bytes: Seq<u8>) -> Seq<char>;

/// What `str::to_lowercase` yields on the given characters.
pub uninterp spec fn lower_of(s: Seq<char>) -> Seq<char>;

/// Relies on `String::from_utf8`: it succeeds exactly on valid UTF-8 and
/// yields the decoded characters, stated over vstd's UTF-8 model.
#[verifier::external_body]
pub fn string_from_utf8(v: Vec<u8>) -> (r: Option<String>)
    ensures
        r is Some <==> valid_utf8(v@),
        r matches Some(s) ==> s@ == decode_utf8(v@),
{
    String::from_utf8(v).ok()
}

/// Relies on `String::from_utf8_lossy`: the result depends on the bytes
/// alone, and on valid UTF-8 it equals the strict decoding.
#[verifier::external_body]
pub fn string_from_utf8_lossy(v: &[u8]) -> (r: String)
    ensures
        r@ == utf8_lossy(v@),
        valid_utf8(v@) ==> r@ == decode_utf8(v@),
{
    String::from_utf8_lossy(v).into_owned()
}

/// True when `u` is a UTF-16 high (leading) surrogate.
pub open spec fn utf16_is_high(u: u16) -> bool {
    0xD800 <= u <= 0xDBFF
}

/// True when `u` is a UTF-16 low (trailing) surrogate.
pub open spec fn utf16_is_low(u: u16) -> bool {
    0xDC00 <= u <= 0xDFFF
}

/// The character a surrogate pair stands for.
pub open spec fn utf16_combine(hi: u16, lo: u16) -> char {
    ((0x10000 + (hi - 0xD800) * 0x400 + (lo - 0xDC00)) as u32) as char
}

/// True when the code units are well-formed UTF-16: every high surrogate is
/// followed by a low one, and no low surrogate stands alone.
pub open spec fn utf16_valid(s: Seq<u16>) -> bool
    decreases s.len(),
{
    if s.len() == 0 {
        true
    } else if utf16_is_high(s[0]) {
        s.len() >= 2 && utf16_is_low(s[1]) && utf16_valid(s.skip(2))
    } else if utf16_is_low(s[0]) {
        false
    } else {
        utf16_valid(s.skip(1))
    }
}

/// The characters well-formed UTF-16 code units stand for.
pub open spec fn utf16_decode(s: Seq<u16>) -> Seq<char>
    decreases s.len(),
{
    if s.len() == 0 {
        Seq::empty()
    } else if utf16_is_high(s[0]) {
        if s.len() >= 2 && utf16_is_low(s[1]) {
            seq![utf16_combine(s[0], s[1])] + utf16_decode(s.skip(2))
        } else {
            Seq::empty()
        }
    } else {
        seq![(s[0] as u32) as char] + utf16_decode(s.skip(1))
    }
}

/// Relies on `String::from_utf16`: it succeeds exactly on well-formed
/// UTF-16 and yields the decoded characters.
#[verifier::external_body]
pub fn string_from_utf16(units: &[u16]) -> (r: Option<String>)
    ensures
        r is Some <==> utf16_valid(units@),
        r matches Some(s) ==> s@ == utf16_decode(units@),
{
    String::from_utf16(units).ok()
}

/// Relies on `str::to_lowercase`: the result depends on the characters alone.
#[verifier::external_body]
pub fn lowercase(s: &str) -> (r: String)
    ensures
        r@ == lower_of(s@),
{
    s.to_lowercase()
}

/// Appending one character to a sequence appends that character's encoding
/// to the sequence's UTF-8 encoding.
pub proof fn lemma_encode_utf8_push(chars: Seq<char>, c: char)
    ensures
        encode_utf8(chars.push(c)) == encode_utf8(chars) + encode_scalar(c as u32),
    decreases chars.len(),
{
    if chars.len() == 0 {
        let p = chars.push(c);
        assert(p.len() == 1 && p[0] == c);
        assert(p.drop_first() =~= Seq::<char>::empty());
        assert(encode_utf8(p.drop_first()) =~= Seq::<u8>::empty());
        assert(encode_utf8(p) =~= encode_scalar(c as u32) + encode_utf8(p.drop_first()));
        assert(encode_utf8(p) =~= encode_scalar(c as u32));
        assert(encode_utf8(chars) + encode_scalar(c as u32) =~= encode_scalar(c as u32));
    } else {
        assert(chars.push(c).drop_first() =~= chars.drop_first().push(c));
        lemma_encode_utf8_push(chars.drop_first(), c);
        assert(encode_utf8(chars.push(c)) =~= encode_utf8(chars) + encode_scalar(c as u32));
    }
}

/// Builds the string whose characters are the Latin-1 reading of `bytes`:
/// each byte becomes the character with the same code point. This is the
/// whole behaviour of an ISO-8859-1 decoder; unmappable bytes do not exist,
/// so it never fails.
pub fn latin1_to_string(bytes: &[u8]) -> (r: String)
    ensures
        r@ == latin1_chars(bytes@),
{
    let mut utf8: Vec<u8> = Vec::new();
    let mut i: usize = 0;
    while i < bytes.len()
        invariant
            i <= bytes@.len(),
            utf8@ == encode_utf8(latin1_chars(bytes@.take(i as int))),
        decreases bytes@.len() - i,
    {
        let b = bytes[i];
        proof {
            let done = latin1_chars(bytes@.take(i as int));
            lemma_encode_utf8_push(done, b as char);
            assert(latin1_chars(bytes@.take(i + 1 as int)) =~= done.push(b as char));
        }
        if b < 0x80 {
            proof {
                let v = (b as char) as u32;
                assert(v == b as u32);
                assert(v & 0x7F == v) by (bit_vector)
                    requires
                        v < 0x80,
                ;
                assert(encode_scalar(v) =~= seq![b]);
            }
            utf8.push(b);
            proof {
                assert(utf8@ =~= encode_utf8(latin1_chars(bytes@.take(i + 1 as int))));
            }
        } else {
            let b0: u8 = 0xC0 | (b >> 6);
            let b1: u8 = 0x80 | (b & 0x3F);
            proof {
                let v = (b as char) as u32;
                assert(v == b as u32);
                assert((0xC0 | ((v >> 6) & 0x1F) as u8) == (0xC0 | (b >> 6)) && (0x80 | (v
                    & 0x3F) as u8) == (0x80 | (b & 0x3F)) && (0x80 <= v < 0x800)) by (bit_vector)
                    requires
                        0x80 <= v < 0x100 && v == b as u32,
                ;
                assert(encode_scalar(v) =~= seq![b0, b1]);
            }
            utf8.push(b0);
            utf8.push(b1);
            proof {
                assert(utf8@ =~= encode_utf8(latin1_chars(bytes@.take(i + 1 as int))));
            }
        }
        i = i + 1;
    }
    proof {
        assert(bytes@.take(bytes@.len() as int) =~= bytes@);
        encode_utf8_valid_utf8(latin1_chars(bytes@));
        encode_utf8_decode_utf8(latin1_chars(bytes@));
    }
    match string_from_utf8(utf8) {
        Some(s) => s,
        None => {
            proof {
                assert(false);
            }
            String::new()
        },
    }
}

} // verus!
