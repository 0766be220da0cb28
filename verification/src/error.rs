//! Typed errors for every decode, encode and optimization failure.
//!
//! Decoding never panics and never reads past the end of a byte source: any
//! out-of-range request is reported through one of these variants instead.

use vstd::prelude::*;

verus! {

/// The kind of datum a decoder was asked for, carried inside bounds errors so
/// a caller can tell which read failed.
#[derive(Clone, Copy, Debug, PartialEq, Eq, Structural)]
pub enum DataKind {
    Bool,
    U8,
    U16,
    U24,
    U32,
    U64,
    I8,
    I16,
    I24,
    I32,
    I64,
    ColourRgb,
    StringU8,
    StringU8Iso8859_1,
    StringU8ZeroPadded,
    StringU8ZeroTerminated,
    StringU16,
    StringU16ZeroPadded,
    OptionalStringU8,
    OptionalStringU16,
}

/// Every failure the library reports.
#[derive(Clone, Copy, Debug, PartialEq, Eq, Structural)]
pub enum RLibError {
    /// A byte source ran out in the middle of a variable-length read.
    NotMoreBytesToDecode,
    /// A single-byte read past the end of the source.
    NoBytesLeft,
    /// A fixed-size read of `needed` bytes did not fit in the source.
    /// `shortfall` is `offset - len` when the offset itself is past the end.
    NotEnoughBytes { kind: DataKind, needed: usize, shortfall: Option<usize> },
    /// A boolean byte held something other than 0 or 1.
    InvalidBoolValue(u8),
    /// Bytes were not valid UTF-8 where strict decoding is required.
    InvalidUtf8(DataKind),
    /// Code units were not valid UTF-16.
    InvalidUtf16(DataKind),
    /// The two-byte length prefix of a sized string could not be read.
    StringSizeNotDecoded { kind: DataKind, needed: usize, shortfall: Option<usize> },
    /// The leading boolean of an optional string could not be read.
    OptionalStringBoolNotDecoded(DataKind),
    /// A Pack header declared more data than the stream holds.
    PackHeaderNotComplete,
    /// A Pack index region runs past the end of the stream.
    PackIndexesNotComplete,
    /// The stream does not start with a supported Pack format marker.
    PackVersionNotSupported,
    /// The Pack uses an encrypted index or encrypted data, which this
    /// library does not decrypt.
    PackEncryptionNotSupported,
    /// A file entry still points into its source stream and its bytes have
    /// not been loaded, so it cannot be re-encoded.
    LazyDataNotLoaded,
    /// Optimization was requested without a loaded reference dataset.
    DependenciesCacheNotGeneratedOrOutOfDate,
    /// A decoded payload did not consume the entire stream.
    SizeMismatch { expected: usize, found: usize },
    /// The stream is too short to be a matched-combat table.
    NotAMatchedCombatTable,
    /// The requested table definition version is not known.
    UnsupportedTableVersion(i32),
}

} // verus!
