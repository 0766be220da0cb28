//! The PFH4 Pack container codec.
//!
//! A Pack is a header, a dependency list and a path-keyed collection of
//! files. Decoding parses the header and the index region and records each
//! file as a lazy byte range into the source; file bytes are not copied at
//! decode time. Encoding sorts the files by case-insensitive path, builds
//! the index and data regions, and writes header, dependency index, file
//! index and file data contiguously.
//!
//! Encrypted indexes and encrypted data are recognized and rejected with a
//! typed error; this library does not decrypt.

use vstd::prelude::*;

use vstd::utf8::{decode_utf8, encode_utf8, valid_utf8};

use crate::decoder::{
    decode_bytes_checked, decode_integer_u32, decode_string_u8_0terminated, lemma_first_zero_is,
    spec_first_zero,
    spec_u32_le,
};
use crate::encoder::{
    spec_u16_bytes, spec_u32_bytes, write_all, write_string_u8_0terminated, write_u32, write_u8,
};
use crate::error::RLibError;
use crate::strings::{lower_of, lowercase, utf8_lossy};

verus! {

/// Flag bit: the header carries an extended section before the indexes.
pub const PFH_FLAG_HAS_EXTENDED_HEADER: u32 = 0x100;

/// Flag bit: the file index is encrypted.
pub const PFH_FLAG_HAS_ENCRYPTED_INDEX: u32 = 0x80;

/// Flag bit: each file index entry carries a timestamp.
pub const PFH_FLAG_HAS_INDEX_WITH_TIMESTAMPS: u32 = 0x40;

/// Flag bit: the file data region is encrypted.
pub const PFH_FLAG_HAS_ENCRYPTED_DATA: u32 = 0x10;

/// Flag bit: the file data region is compressed.
pub const PFH_FLAG_HAS_COMPRESSED_DATA: u32 = 0x20;

/// The four marker bytes that open a PFH4 stream.
pub open spec fn spec_pfh4_marker() -> Seq<u8> {
    seq![0x50u8, 0x46u8, 0x48u8, 0x34u8]
}

/// True when `bitmask` has `flag` set.
pub open spec fn spec_has_flag(bitmask: u32, flag: u32) -> bool {
    bitmask & flag != 0
}

/// Tests a header flag.
pub fn has_flag(bitmask: u32, flag: u32) -> (r: bool)
    ensures
        r == spec_has_flag(bitmask, flag),
{
    bitmask & flag != 0
}

/// The fixed fields of a Pack header. The file-type bits and the flag bits
/// of the stored word are kept apart; writing joins them again.
#[derive(Debug)]
pub struct PackHeader {
    /// The flag bits of the header word.
    pub bitmask: u32,
    /// The file-type bits of the header word.
    pub file_type: u32,
    /// Seconds-style timestamp; stored on disk as 32 bits.
    pub timestamp: u64,
}

/// Where a file's bytes live.
#[derive(Debug)]
pub enum RFileData {
    /// The bytes are in memory.
    Resident(Vec<u8>),
    /// The bytes are a range of the source stream the Pack was decoded
    /// from: `size` bytes starting at `offset`.
    Lazy { offset: u64, size: u32 },
}

/// One file entry of a Pack.
#[derive(Debug)]
pub struct RFile {
    /// Path of the file inside the Pack, unique per Pack.
    pub path: String,
    /// Per-file timestamp; zero when the index carries none.
    pub timestamp: u64,
    /// The file's bytes or their location.
    pub data: RFileData,
}

/// A decoded Pack.
#[derive(Debug)]
pub struct Pack {
    /// The header fields.
    pub header: PackHeader,
    /// Paths of the Packs this Pack depends on, in load order.
    pub dependencies: Vec<String>,
    /// The files, keyed by path; insertion is last-write-wins.
    pub files: Vec<RFile>,
}

impl Pack {
    /// Paths are unique within a Pack.
    pub open spec fn wf(self) -> bool {
        forall|i: int, j: int|
            0 <= i < j < self.files@.len() ==> self.files@[i].path@ != self.files@[j].path@
    }

    /// Index of the file with the given path, or -1.
    pub open spec fn spec_find_file(files: Seq<RFile>, path: Seq<char>) -> int
        decreases files.len(),
    {
        if files.len() == 0 {
            -1
        } else if files[0].path@ == path {
            0
        } else {
            let rest = Self::spec_find_file(files.drop_first(), path);
            if rest == -1 {
                -1
            } else {
                1 + rest
            }
        }
    }

    /// Creates an empty Pack with a zeroed header.
    pub fn new() -> (r: Pack)
        ensures
            r.header.bitmask == 0,
            r.header.file_type == 0,
            r.header.timestamp == 0,
            r.dependencies@.len() == 0,
            r.files@.len() == 0,
            r.wf(),
    {
        Pack {
            header: PackHeader { bitmask: 0, file_type: 0, timestamp: 0 },
            dependencies: Vec::new(),
            files: Vec::new(),
        }
    }

    /// Adds a file, replacing any file already stored under the same path
    /// (last write wins).
    pub fn add_file(&mut self, file: RFile)
        requires
            old(self).wf(),
        ensures
            final(self).wf(),
            final(self).header == old(self).header,
            final(self).dependencies == old(self).dependencies,
            ({
                let at = Self::spec_find_file(old(self).files@, file.path@);
                if at == -1 {
                    final(self).files@ == old(self).files@.push(file)
                } else {
                    final(self).files@ == old(self).files@.update(at, file)
                }
            }),
    {
        insert_file(&mut self.files, file);
    }
}

/// What one file index entry contributes: path, timestamp, declared size,
/// and the offset of its bytes in the source stream.
pub type FileEntryV = (Seq<char>, u64, u32, u64);

/// The views of a sequence of strings.
pub open spec fn str_views(s: Seq<String>) -> Seq<Seq<char>> {
    s.map(|_i: int, x: String| x@)
}

/// The view a lazy file entry presents: path, timestamp, size and source
/// offset. Resident entries report size and offset zero.
pub open spec fn lazy_view(f: RFile) -> FileEntryV {
    match f.data {
        RFileData::Lazy { offset, size } => (f.path@, f.timestamp, size, offset),
        RFileData::Resident(_) => (f.path@, f.timestamp, 0u32, 0u64),
    }
}

/// The lazy views of a file list.
pub open spec fn lazy_views(files: Seq<RFile>) -> Seq<FileEntryV> {
    files.map(|_i: int, f: RFile| lazy_view(f))
}

/// Index of the entry with the given path among parsed entries, or -1.
pub open spec fn spec_find_entry(entries: Seq<FileEntryV>, path: Seq<char>) -> int
    decreases entries.len(),
{
    if entries.len() == 0 {
        -1
    } else if entries[0].0 == path {
        0
    } else {
        let rest = spec_find_entry(entries.drop_first(), path);
        if rest == -1 {
            -1
        } else {
            1 + rest
        }
    }
}

/// Last-write-wins insertion of one parsed entry into an accumulated list.
pub open spec fn spec_insert_entry(acc: Seq<FileEntryV>, e: FileEntryV) -> Seq<FileEntryV> {
    let at = spec_find_entry(acc, e.0);
    if at == -1 {
        acc.push(e)
    } else {
        acc.update(at, e)
    }
}

/// The file list that inserting the parsed entries one by one produces.
pub open spec fn spec_fold_entries(entries: Seq<FileEntryV>) -> Seq<FileEntryV>
    decreases entries.len(),
{
    if entries.len() == 0 {
        Seq::empty()
    } else {
        spec_insert_entry(spec_fold_entries(entries.drop_last()), entries.last())
    }
}

/// One zero-terminated string read inside the index buffer: the text up to
/// the first zero byte (read with the lossy UTF-8 policy) and the position
/// after it, counting the terminator when one was found. Total: at the end
/// of the buffer it yields the empty string and stays put.
pub open spec fn spec_read_0term(w: Seq<u8>, p: int) -> (Seq<char>, int) {
    let rest = w.subrange(p, w.len() as int);
    let z = spec_first_zero(rest);
    let consumed = if z < rest.len() {
        z + 1
    } else {
        z
    };
    let text = if valid_utf8(rest.take(z)) {
        decode_utf8(rest.take(z))
    } else {
        utf8_lossy(rest.take(z))
    };
    (text, p + consumed)
}

/// The `n` dependency paths at `p` in the index buffer, and the position
/// after them.
#[verifier::opaque]
pub open spec fn spec_read_deps(w: Seq<u8>, p: int, n: int) -> (Seq<Seq<char>>, int)
    decreases n,
{
    if n <= 0 {
        (Seq::empty(), p)
    } else {
        let st = spec_read_0term(w, p);
        let rest = spec_read_deps(w, st.1, n - 1);
        (seq![st.0] + rest.0, rest.1)
    }
}

/// The `n` file index entries at `p` in the index buffer, each assigned a
/// cumulative offset into the source starting at `dpos`; the result also
/// carries the position after the entries and the offset after the last
/// file's bytes. Fails when a size or timestamp word runs past the buffer,
/// or when the cumulative offset leaves the 64-bit range.
#[verifier::opaque]
pub open spec fn spec_read_files(w: Seq<u8>, p: int, n: int, has_ts: bool, dpos: u64) -> Result<
    (Seq<FileEntryV>, int, u64),
    RLibError,
>
    decreases n,
{
    if n <= 0 {
        Ok((Seq::empty(), p, dpos))
    } else if p < 0 || p + 4 > w.len() {
        Err(
            RLibError::NotEnoughBytes {
                kind: crate::error::DataKind::U32,
                needed: 4,
                shortfall: crate::decoder::spec_shortfall(w.len(), p as nat),
            },
        )
    } else {
        let size = spec_u32_le(w, p);
        if has_ts && p + 8 > w.len() {
            Err(
                RLibError::NotEnoughBytes {
                    kind: crate::error::DataKind::U32,
                    needed: 4,
                    shortfall: crate::decoder::spec_shortfall(w.len(), (p + 4) as nat),
                },
            )
        } else {
            let ts: u64 = if has_ts {
                spec_u32_le(w, p + 4) as u64
            } else {
                0
            };
            let q: int = if has_ts {
                p + 8
            } else {
                p + 4
            };
            let st = spec_read_0term(w, q);
            if dpos + size > u64::MAX {
                Err(RLibError::PackIndexesNotComplete)
            } else {
                match spec_read_files(w, st.1, n - 1, has_ts, (dpos + size) as u64) {
                    Ok(rest) => Ok(
                        (seq![(st.0, ts, size, dpos)] + rest.0, rest.1, rest.2),
                    ),
                    Err(e) => Err(e),
                }
            }
        }
    }
}

/// Everything the PFH4 reader yields: header timestamp, dependency paths,
/// parsed file entries in index order, and the position after the last
/// file's bytes.
pub type PackParseV = (u64, Seq<Seq<char>>, Seq<FileEntryV>, u64);

/// The error of the first four-byte read past the end among the five header
/// words at `start`.
pub open spec fn spec_header_word_err(len: nat, o: nat) -> RLibError {
    RLibError::NotEnoughBytes {
        kind: crate::error::DataKind::U32,
        needed: 4,
        shortfall: crate::decoder::spec_shortfall(len, o),
    }
}

/// The whole PFH4 read after the marker and header word: exactly what
/// `read_pfh4` yields on every input.
#[verifier::opaque]
pub open spec fn spec_read_pfh4(data: Seq<u8>, start: int, bitmask: u32) -> Result<
    PackParseV,
    RLibError,
> {
    let len = data.len() as int;
    if spec_has_flag(bitmask, PFH_FLAG_HAS_ENCRYPTED_INDEX) || spec_has_flag(
        bitmask,
        PFH_FLAG_HAS_ENCRYPTED_DATA,
    ) {
        Err(RLibError::PackEncryptionNotSupported)
    } else if start + 4 > len {
        Err(spec_header_word_err(data.len(), start as nat))
    } else if start + 8 > len {
        Err(spec_header_word_err(data.len(), (start + 4) as nat))
    } else if start + 12 > len {
        Err(spec_header_word_err(data.len(), (start + 8) as nat))
    } else if start + 16 > len {
        Err(spec_header_word_err(data.len(), (start + 12) as nat))
    } else if start + 20 > len {
        Err(spec_header_word_err(data.len(), (start + 16) as nat))
    } else {
        let packs_count = spec_u32_le(data, start);
        let files_count = spec_u32_le(data, start + 8);
        let files_index_size = spec_u32_le(data, start + 12);
        let timestamp = spec_u32_le(data, start + 16) as u64;
        let ext = spec_has_flag(bitmask, PFH_FLAG_HAS_EXTENDED_HEADER);
        if (ext && len < 44) || (!ext && len < 24) {
            Err(RLibError::PackHeaderNotComplete)
        } else {
            let extra: int = if ext {
                20
            } else {
                0
            };
            let indexes_size = extra + spec_u32_le(data, start + 4) + files_index_size;
            if indexes_size > u32::MAX {
                Err(RLibError::PackIndexesNotComplete)
            } else if indexes_size != 0 && start + 20 + indexes_size > len {
                Err(RLibError::NotMoreBytesToDecode)
            } else if start + 20 + indexes_size > len {
                Err(RLibError::PackIndexesNotComplete)
            } else {
                let w = if indexes_size == 0 {
                    Seq::<u8>::empty()
                } else {
                    data.subrange(start + 20, start + 20 + indexes_size)
                };
                let dp = spec_read_deps(w, 0, packs_count as int);
                let base = (start + 20 + indexes_size) as u64;
                match spec_read_files(
                    w,
                    dp.1,
                    files_count as int,
                    spec_has_flag(bitmask, PFH_FLAG_HAS_INDEX_WITH_TIMESTAMPS),
                    base,
                ) {
                    Ok(f) => Ok((timestamp, dp.0, f.0, f.2)),
                    Err(e) => Err(e),
                }
            }
        }
    }
}

/// When no earlier entry has the path, `spec_find_file` is `i` if `i` holds
/// it and -1 if `i` is the end.
pub proof fn lemma_find_file_at(files: Seq<RFile>, path: Seq<char>, i: int)
    requires
        0 <= i <= files.len(),
        forall|j: int| 0 <= j < i ==> files[j].path@ != path,
        i < files.len() ==> files[i].path@ == path,
    ensures
        Pack::spec_find_file(files, path) == if i < files.len() {
            i
        } else {
            -1
        },
    decreases files.len(),
{
    if files.len() == 0 {
    } else if files[0].path@ == path {
        assert(i == 0);
    } else {
        assert(forall|j: int| 0 <= j < i - 1 ==> files.drop_first()[j].path@ != path);
        lemma_find_file_at(files.drop_first(), path, i - 1);
    }
}

/// True when no two files share a path.
pub open spec fn wf_files(files: Seq<RFile>) -> bool {
    forall|i: int, j: int| 0 <= i < j < files.len() ==> files[i].path@ != files[j].path@
}

/// Inserts a file into a path-keyed list, replacing the entry that already
/// holds its path if there is one (last write wins).
pub fn insert_file(files: &mut Vec<RFile>, file: RFile)
    requires
        wf_files(old(files)@),
    ensures
        wf_files(final(files)@),
        ({
            let at = Pack::spec_find_file(old(files)@, file.path@);
            if at == -1 {
                final(files)@ == old(files)@.push(file)
            } else {
                final(files)@ == old(files)@.update(at, file)
            }
        }),
{
    let ghost gfiles = files@;
    let mut i: usize = 0;
    let n = files.len();
    while i < n
        invariant
            wf_files(gfiles),
            n == gfiles.len(),
            files@ == gfiles,
            gfiles == old(files)@,
            i <= n,
            forall|j: int| 0 <= j < i ==> gfiles[j].path@ != file.path@,
        decreases n - i,
    {
        if files[i].path == file.path {
            proof {
                lemma_find_file_at(gfiles, file.path@, i as int);
            }
            files.set(i, file);
            proof {
                assert(files@ =~= gfiles.update(i as int, file));
                assert forall|a: int, b: int|
                    0 <= a < b < files@.len() implies files@[a].path@ != files@[b].path@ by {
                    assert(gfiles[a].path@ != gfiles[b].path@);
                }
            }
            return ;
        }
        i = i + 1;
    }
    proof {
        lemma_find_file_at(gfiles, file.path@, n as int);
    }
    files.push(file);
}

/// `spec_find_file` yields -1 or a position that holds the path.
pub proof fn lemma_find_file_range(files: Seq<RFile>, path: Seq<char>)
    ensures
        Pack::spec_find_file(files, path) == -1 || (0 <= Pack::spec_find_file(files, path)
            < files.len() && files[Pack::spec_find_file(files, path)].path@ == path),
    decreases files.len(),
{
    if files.len() == 0 {
    } else if files[0].path@ == path {
    } else {
        lemma_find_file_range(files.drop_first(), path);
    }
}

/// Finding a path among files and among their lazy views agree.
pub proof fn lemma_find_views(files: Seq<RFile>, path: Seq<char>)
    ensures
        spec_find_entry(lazy_views(files), path) == Pack::spec_find_file(files, path),
    decreases files.len(),
{
    if files.len() == 0 {
    } else {
        assert(lazy_views(files).drop_first() =~= lazy_views(files.drop_first()));
        assert(lazy_views(files)[0] == lazy_view(files[0]));
        lemma_find_views(files.drop_first(), path);
    }
}

/// Prepends already-parsed entries onto the result of parsing the rest.
pub open spec fn spec_prepend_files(
    pre: Seq<FileEntryV>,
    r: Result<(Seq<FileEntryV>, int, u64), RLibError>,
) -> Result<(Seq<FileEntryV>, int, u64), RLibError> {
    match r {
        Ok(t) => Ok((pre + t.0, t.1, t.2)),
        Err(e) => Err(e),
    }
}

impl Pack {
    /// Reads a PFH4 body from `data` starting at `start`, the position just
    /// after the four marker bytes and the header word; the flag bits must
    /// already be in `self.header.bitmask`. On success the parsed
    /// dependencies and files land in `self`, files recorded as lazy byte
    /// ranges of `data`, and the returned position is where the file data
    /// region ends. On any failure `self` is left untouched and no partial
    /// content is kept.
    #[verifier::loop_isolation(false)]
    #[verifier::rlimit(100)]
    pub fn read_pfh4(&mut self, data: &[u8], start: usize) -> (r: Result<u64, RLibError>)
        requires
            old(self).wf(),
            old(self).files@.len() == 0,
            old(self).dependencies@.len() == 0,
            start <= data@.len(),
            data@.len() + 0x100000028 <= u64::MAX,
            data@.len() + 20 <= usize::MAX,
        ensures
            final(self).header.bitmask == old(self).header.bitmask,
            final(self).header.file_type == old(self).header.file_type,
            final(self).wf(),
            r is Ok <==> spec_read_pfh4(data@, start as int, old(self).header.bitmask) is Ok,
            r matches Err(e) ==> spec_read_pfh4(data@, start as int, old(self).header.bitmask)
                == Err::<PackParseV, RLibError>(e) && *final(self) == *old(self),
            ({
                let p = spec_read_pfh4(data@, start as int, old(self).header.bitmask);
                r matches Ok(pos) ==> {
                    &&& final(self).header.timestamp == p.unwrap().0
                    &&& str_views(final(self).dependencies@) == p.unwrap().1
                    &&& lazy_views(final(self).files@) == spec_fold_entries(p.unwrap().2)
                    &&& pos == p.unwrap().3
                }
            }),
    {
        proof {
            reveal(spec_read_pfh4);
            reveal(spec_read_deps);
            reveal(spec_read_files);
        }
        let len = data.len();
        let bitmask = self.header.bitmask;
        if has_flag(bitmask, PFH_FLAG_HAS_ENCRYPTED_INDEX) || has_flag(
            bitmask,
            PFH_FLAG_HAS_ENCRYPTED_DATA,
        ) {
            return Err(RLibError::PackEncryptionNotSupported);
        }
        let packs_count = match decode_integer_u32(data, start) {
            Ok(v) => v,
            Err(e) => {
                return Err(e);
            },
        };
        let packs_index_size = match decode_integer_u32(data, start + 4) {
            Ok(v) => v,
            Err(e) => {
                return Err(e);
            },
        };
        let files_count = match decode_integer_u32(data, start + 8) {
            Ok(v) => v,
            Err(e) => {
                return Err(e);
            },
        };
        let files_index_size = match decode_integer_u32(data, start + 12) {
            Ok(v) => v,
            Err(e) => {
                return Err(e);
            },
        };
        let timestamp_w = match decode_integer_u32(data, start + 16) {
            Ok(v) => v,
            Err(e) => {
                return Err(e);
            },
        };
        let ext = has_flag(bitmask, PFH_FLAG_HAS_EXTENDED_HEADER);
        let data_len: u64 = len as u64;
        if (ext && data_len < 44) || (!ext && data_len < 24) {
            return Err(RLibError::PackHeaderNotComplete);
        }
        let extra: u64 = if ext {
            20
        } else {
            0
        };
        let indexes_size64: u64 = extra + packs_index_size as u64 + files_index_size as u64;
        if indexes_size64 > 0xFFFFFFFF {
            return Err(RLibError::PackIndexesNotComplete);
        }
        let indexes_size: usize = indexes_size64 as usize;
        let buffer = match decode_bytes_checked(data, start + 20, indexes_size) {
            Ok(b) => b,
            Err(e) => {
                return Err(e);
            },
        };
        let data_start: u64 = start as u64 + 20 + indexes_size as u64;
        if data_len < data_start {
            return Err(RLibError::PackIndexesNotComplete);
        }
        let ghost w = if indexes_size64 == 0 {
            Seq::<u8>::empty()
        } else {
            data@.subrange(start + 20, start + 20 + indexes_size64 as int)
        };
        proof {
            assert(buffer@ =~= w);
        }
        let buf = buffer.as_slice();

        let mut pos: usize = 0;
        let mut deps: Vec<String> = Vec::new();
        let ghost pc = packs_count as int;
        let mut i: u32 = 0;
        while i < packs_count
            invariant
                *self == *old(self),
                i <= packs_count,
                pos <= w.len(),
                buf@ == w,
                w.len() <= usize::MAX,
                spec_read_deps(w, 0, pc).0 == str_views(deps@) + spec_read_deps(
                    w,
                    pos as int,
                    pc - i,
                ).0,
                spec_read_deps(w, 0, pc).1 == spec_read_deps(w, pos as int, pc - i).1,
                pc == packs_count as int,
            decreases packs_count - i,
        {
            let ghost pos0 = pos as int;
            let ghost deps0 = deps@;
            let (s, consumed) = match decode_string_u8_0terminated(buf, pos) {
                Ok(p) => p,
                Err(_) => {
                    proof {
                        assert(false);
                    }
                    (String::new(), 0)
                },
            };
            deps.push(s);
            pos = pos + consumed;
            proof {
                let st = spec_read_0term(w, pos0);
                assert(st.0 == s@ && st.1 == pos as int);
                assert(str_views(deps@) =~= str_views(deps0) + seq![s@]);
                assert(spec_read_deps(w, pos0, pc - i) == (
                    seq![st.0] + spec_read_deps(w, st.1, pc - i - 1).0,
                    spec_read_deps(w, st.1, pc - i - 1).1,
                ));
                assert(str_views(deps0) + spec_read_deps(w, pos0, pc - i).0 =~= (str_views(deps0)
                    + seq![s@]) + spec_read_deps(w, pos as int, pc - (i + 1)).0);
            }
            i = i + 1;
        }

        let has_ts = has_flag(bitmask, PFH_FLAG_HAS_INDEX_WITH_TIMESTAMPS);
        let ghost fc = files_count as int;
        let ghost fpos0 = pos as int;
        proof {
            assert(spec_read_deps(w, fpos0, 0) == (Seq::<Seq<char>>::empty(), fpos0));
            assert(str_views(deps@) + Seq::<Seq<char>>::empty() =~= str_views(deps@));
            assert(spec_read_deps(w, 0, pc).0 == str_views(deps@));
            assert(spec_read_deps(w, 0, pc).1 == fpos0);
        }
        let mut dpos: u64 = data_start;
        let mut files: Vec<RFile> = Vec::new();
        let ghost mut processed: Seq<FileEntryV> = Seq::empty();
        let mut k: u32 = 0;
        while k < files_count
            invariant
                *self == *old(self),
                k <= files_count,
                pos <= w.len(),
                buf@ == w,
                w.len() <= usize::MAX,
                wf_files(files@),
                lazy_views(files@) == spec_fold_entries(processed),
                spec_read_files(w, fpos0, fc, has_ts, data_start) == spec_prepend_files(
                    processed,
                    spec_read_files(w, pos as int, fc - k, has_ts, dpos),
                ),
                fc == files_count as int,
            decreases files_count - k,
        {
            let ghost pos0 = pos as int;
            let ghost dpos0 = dpos;
            let ghost processed0 = processed;
            let size = match decode_integer_u32(buf, pos) {
                Ok(v) => v,
                Err(e) => {
                    return Err(e);
                },
            };
            pos = pos + 4;
            let ts: u64 = if has_ts {
                match decode_integer_u32(buf, pos) {
                    Ok(v) => {
                        pos = pos + 4;
                        v as u64
                    },
                    Err(e) => {
                        proof {
                            assert(pos == pos0 + 4);
                            assert(spec_read_files(w, pos0, fc - k, has_ts, dpos0) == Err::<
                                (Seq<FileEntryV>, int, u64),
                                RLibError,
                            >(e));
                            assert(*self == *old(self));
                        }
                        return Err(e);
                    },
                }
            } else {
                0
            };
            let (path, consumed) = match decode_string_u8_0terminated(buf, pos) {
                Ok(p) => p,
                Err(_) => {
                    proof {
                        assert(false);
                    }
                    (String::new(), 0)
                },
            };
            let ghost q = pos as int;
            pos = pos + consumed;
            let next_dpos = match dpos.checked_add(size as u64) {
                Some(v) => v,
                None => {
                    proof {
                        assert(spec_read_files(w, pos0, fc - k, has_ts, dpos0) == Err::<
                            (Seq<FileEntryV>, int, u64),
                            RLibError,
                        >(RLibError::PackIndexesNotComplete));
                        assert(*self == *old(self));
                    }
                    return Err(RLibError::PackIndexesNotComplete);
                },
            };
            let ghost entry: FileEntryV = (path@, ts, size, dpos);
            let ghost files0 = files@;
            let file = RFile {
                path,
                timestamp: ts,
                data: RFileData::Lazy { offset: dpos, size },
            };
            insert_file(&mut files, file);
            proof {
                let st = spec_read_0term(w, q);
                assert(st.0 == entry.0 && st.1 == pos as int);
                assert(spec_read_files(w, pos0, fc - k, has_ts, dpos0) == spec_prepend_files(
                    seq![entry],
                    spec_read_files(w, pos as int, fc - k - 1, has_ts, next_dpos),
                ));
                processed = processed.push(entry);
                assert(processed.drop_last() =~= processed0);
                lemma_find_views(files0, entry.0);
                lemma_find_file_range(files0, entry.0);
                let at = Pack::spec_find_file(files0, entry.0);
                if at == -1 {
                    assert(lazy_views(files@) =~= lazy_views(files0).push(entry));
                } else {
                    assert(files@ == files0.update(at, file));
                    assert(lazy_view(file) == entry);
                    assert forall|x: int| 0 <= x < files@.len() implies lazy_views(files@)[x]
                        == lazy_views(files0).update(at, entry)[x] by {
                        if x == at {
                            assert(lazy_views(files@)[x] == lazy_view(file));
                        } else {
                            assert(files@[x] == files0[x]);
                        }
                    }
                    assert(lazy_views(files@) =~= lazy_views(files0).update(at, entry));
                }
                assert(lazy_views(files@) == spec_fold_entries(processed));
                match spec_read_files(w, pos as int, fc - (k + 1), has_ts, next_dpos) {
                    Ok(t) => {
                        assert(processed0 + (seq![entry] + t.0) =~= processed + t.0);
                    },
                    Err(_) => {},
                }
            }
            dpos = next_dpos;
            k = k + 1;
        }
        proof {
            let full = spec_read_files(w, fpos0, fc, has_ts, data_start);
            assert(full == spec_prepend_files(
                processed,
                spec_read_files(w, pos as int, 0, has_ts, dpos),
            ));
            assert(processed + Seq::<FileEntryV>::empty() =~= processed);
        }
        self.header.timestamp = timestamp_w as u64;
        self.dependencies = deps;
        self.files = files;
        proof {
            let dp = spec_read_deps(w, 0, pc);
            assert(str_views(deps@) + Seq::<Seq<char>>::empty() =~= str_views(deps@));
            assert(dp.0 =~= str_views(deps@));
        }
        Ok(dpos)
    }

    /// Decodes a whole PFH4 stream: checks the marker, splits the header
    /// word into file-type and flag bits, and reads the body. No partial
    /// Pack is returned on failure.
    pub fn decode(data: &[u8]) -> (r: Result<Pack, RLibError>)
        requires
            data@.len() + 0x100000028 <= u64::MAX,
            data@.len() + 20 <= usize::MAX,
        ensures
            r is Ok <==> spec_decode_pack(data@) is Ok,
            r matches Err(e) ==> spec_decode_pack(data@) == Err::<(u32, PackParseV), RLibError>(e),
            ({
                let p = spec_decode_pack(data@);
                r matches Ok(pack) ==> {
                    &&& pack.wf()
                    &&& pack.header.bitmask == p.unwrap().0 & 0xFFFFFFF0u32
                    &&& pack.header.file_type == p.unwrap().0 & 0xFu32
                    &&& pack.header.timestamp == p.unwrap().1.0
                    &&& str_views(pack.dependencies@) == p.unwrap().1.1
                    &&& lazy_views(pack.files@) == spec_fold_entries(p.unwrap().1.2)
                }
            }),
    {
        if data.len() < 4 || data[0] != 0x50 || data[1] != 0x46 || data[2] != 0x48 || data[3]
            != 0x34 {
            proof {
                if data@.len() >= 4 {
                    assert(data@.subrange(0, 4) != spec_pfh4_marker());
                }
            }
            return Err(RLibError::PackVersionNotSupported);
        }
        proof {
            assert(data@.subrange(0, 4) =~= spec_pfh4_marker());
        }
        let word = match decode_integer_u32(data, 4) {
            Ok(v) => v,
            Err(e) => {
                return Err(e);
            },
        };
        let mut pack = Pack::new();
        pack.header = PackHeader {
            bitmask: word & 0xFFFFFFF0,
            file_type: word & 0xF,
            timestamp: 0,
        };
        match pack.read_pfh4(data, 8) {
            Ok(_) => Ok(pack),
            Err(e) => Err(e),
        }
    }
}

/// The bytes a file stands for, read against the source stream it was
/// decoded from: its own bytes when resident, the referenced range when
/// lazy.
pub open spec fn resolved_bytes(f: RFile, source: Seq<u8>) -> Seq<u8> {
    match f.data {
        RFileData::Resident(d) => d@,
        RFileData::Lazy { offset, size } => source.subrange(
            offset as int,
            offset + size as int,
        ),
    }
}

/// True when a file's bytes can be read without its source stream, or its
/// lazy range lies within the given source.
pub open spec fn range_in_source(f: RFile, source: Seq<u8>) -> bool {
    match f.data {
        RFileData::Resident(_) => true,
        RFileData::Lazy { offset, size } => offset + size <= source.len(),
    }
}

impl RFile {
    /// Loads the file's bytes into memory from the source stream it was
    /// decoded from: a lazy range becomes a resident copy of that range, a
    /// resident entry stays as it is. A range past the end of the source
    /// fails and leaves the entry untouched.
    pub fn load_data(&mut self, source: &[u8]) -> (r: Result<(), RLibError>)
        ensures
            final(self).path == old(self).path,
            final(self).timestamp == old(self).timestamp,
            r is Ok <==> range_in_source(*old(self), source@),
            r is Ok ==> final(self).data is Resident && resident_bytes(*final(self))
                == resolved_bytes(*old(self), source@),
            r matches Err(e) ==> e == RLibError::NotMoreBytesToDecode && *final(self) == *old(
                self,
            ),
    {
        let (offset, size) = match &self.data {
            RFileData::Resident(_) => {
                return Ok(());
            },
            RFileData::Lazy { offset, size } => (*offset, *size),
        };
        let len = source.len();
        if offset > len as u64 || size as u64 > len as u64 - offset {
            return Err(RLibError::NotMoreBytesToDecode);
        }
        let bytes = match decode_bytes_checked(source, offset as usize, size as usize) {
            Ok(b) => b,
            Err(_) => {
                proof {
                    assert(false);
                }
                Vec::new()
            },
        };
        proof {
            assert(bytes@ =~= source@.subrange(offset as int, offset + size as int));
        }
        self.data = RFileData::Resident(bytes);
        Ok(())
    }
}

impl Pack {
    /// Loads every file's bytes into memory from the source stream the
    /// Pack was decoded from, so the Pack can be re-encoded without it.
    /// When any lazy range runs past the end of the source, nothing is
    /// changed and the whole load fails.
    #[verifier::loop_isolation(false)]
    pub fn load_lazy_data(&mut self, source: &[u8]) -> (r: Result<(), RLibError>)
        ensures
            final(self).header == old(self).header,
            final(self).dependencies == old(self).dependencies,
            final(self).files@.len() == old(self).files@.len(),
            r is Ok <==> (forall|i: int|
                0 <= i < old(self).files@.len() ==> range_in_source(
                    #[trigger] old(self).files@[i],
                    source@,
                )),
            r matches Err(e) ==> e == RLibError::NotMoreBytesToDecode && *final(self) == *old(
                self,
            ),
            r is Ok ==> forall|i: int|
                0 <= i < old(self).files@.len() ==> {
                    let f = #[trigger] final(self).files@[i];
                    &&& f.path == old(self).files@[i].path
                    &&& f.timestamp == old(self).files@[i].timestamp
                    &&& f.data is Resident
                    &&& resident_bytes(f) == resolved_bytes(old(self).files@[i], source@)
                },
            r is Ok && old(self).wf() ==> final(self).wf(),
    {
        let n = self.files.len();
        let mut i: usize = 0;
        while i < n
            invariant
                i <= n,
                *self == *old(self),
                forall|j: int|
                    0 <= j < i ==> range_in_source(#[trigger] self.files@[j], source@),
            decreases n - i,
        {
            let fits = match &self.files[i].data {
                RFileData::Resident(_) => true,
                RFileData::Lazy { offset, size } => {
                    let len = source.len();
                    *offset <= len as u64 && *size as u64 <= len as u64 - *offset
                },
            };
            if !fits {
                return Err(RLibError::NotMoreBytesToDecode);
            }
            i = i + 1;
        }
        let mut i: usize = 0;
        while i < n
            invariant
                i <= n,
                self.header == old(self).header,
                self.dependencies == old(self).dependencies,
                self.files@.len() == old(self).files@.len(),
                forall|j: int|
                    0 <= j < old(self).files@.len() ==> range_in_source(
                        #[trigger] old(self).files@[j],
                        source@,
                    ),
                forall|j: int|
                    i <= j < old(self).files@.len() ==> #[trigger] self.files@[j] == old(
                        self,
                    ).files@[j],
                forall|j: int|
                    0 <= j < i ==> {
                        let f = #[trigger] self.files@[j];
                        &&& f.path == old(self).files@[j].path
                        &&& f.timestamp == old(self).files@[j].timestamp
                        &&& f.data is Resident
                        &&& resident_bytes(f) == resolved_bytes(old(self).files@[j], source@)
                    },
            decreases n - i,
        {
            let ghost files0 = self.files@;
            let mut f = self.files.remove(i);
            match f.load_data(source) {
                Ok(_) => {},
                Err(_) => {
                    proof {
                        assert(false);
                    }
                },
            }
            self.files.insert(i, f);
            proof {
                assert forall|j: int| 0 <= j < self.files@.len() implies (j < i + 1 || self.files@[
                    j
                ] == files0[j]) && (j < i || j >= i + 1 || self.files@[j] == f) by {
                    if j < i {
                        assert(self.files@[j] == files0[j]);
                    } else if j == i {
                    } else {
                        assert(self.files@[j] == files0[j]);
                    }
                }
            }
            i = i + 1;
        }
        proof {
            if old(self).wf() {
                assert forall|a: int, b: int|
                    0 <= a < b < self.files@.len() implies self.files@[a].path@ != self.files@[
                    b
                ].path@ by {
                    assert(self.files@[a].path == old(self).files@[a].path);
                    assert(self.files@[b].path == old(self).files@[b].path);
                }
            }
        }
        Ok(())
    }
}

/// Strict lexicographic order on byte strings, the order `String`
/// comparison uses on the UTF-8 bytes.
pub open spec fn lex_lt(a: Seq<u8>, b: Seq<u8>) -> bool
    decreases a.len(),
{
    if b.len() == 0 {
        false
    } else if a.len() == 0 {
        true
    } else if a[0] < b[0] {
        true
    } else if a[0] > b[0] {
        false
    } else {
        lex_lt(a.drop_first(), b.drop_first())
    }
}

/// `lex_lt` is decided at the first position where the operands differ or
/// one of them ends.
pub proof fn lemma_lex_lt_at(a: Seq<u8>, b: Seq<u8>, i: int)
    requires
        0 <= i <= a.len(),
        0 <= i <= b.len(),
        forall|j: int| 0 <= j < i ==> a[j] == b[j],
        i < a.len() && i < b.len() ==> a[i] != b[i],
    ensures
        lex_lt(a, b) == if i == a.len() {
            i < b.len()
        } else if i == b.len() {
            false
        } else {
            a[i] < b[i]
        },
    decreases i,
{
    if i == 0 {
    } else {
        assert(a.len() > 0 && b.len() > 0 && a[0] == b[0]);
        assert(forall|j: int| 0 <= j < i - 1 ==> a.drop_first()[j] == b.drop_first()[j]);
        lemma_lex_lt_at(a.drop_first(), b.drop_first(), i - 1);
    }
}

/// Compares two byte strings lexicographically.
pub fn bytes_lt(a: &[u8], b: &[u8]) -> (r: bool)
    ensures
        r == lex_lt(a@, b@),
{
    let mut i: usize = 0;
    loop
        invariant
            i <= a@.len(),
            i <= b@.len(),
            forall|j: int| 0 <= j < i ==> a@[j] == b@[j],
        decreases a@.len() - i,
    {
        if i >= a.len() {
            proof {
                lemma_lex_lt_at(a@, b@, i as int);
            }
            return i < b.len();
        }
        if i >= b.len() {
            proof {
                lemma_lex_lt_at(a@, b@, i as int);
            }
            return false;
        }
        if a[i] != b[i] {
            proof {
                lemma_lex_lt_at(a@, b@, i as int);
            }
            return a[i] < b[i];
        }
        i = i + 1;
    }
}

/// The sort key of a file: the UTF-8 bytes of its lowercased path.
pub open spec fn file_key(f: RFile) -> Seq<u8> {
    encode_utf8(lower_of(f.path@))
}

/// Compares two files by their case-insensitive path keys.
pub fn file_key_lt(a: &RFile, b: &RFile) -> (r: bool)
    ensures
        r == lex_lt(file_key(*a), file_key(*b)),
{
    let la = lowercase(a.path.as_str());
    let lb = lowercase(b.path.as_str());
    bytes_lt(la.as_str().as_bytes(), lb.as_str().as_bytes())
}

/// Inserts a file into a key-sorted list, before the first entry with a
/// strictly greater key, so entries with equal keys keep their order.
pub open spec fn spec_insert_sorted(acc: Seq<RFile>, f: RFile) -> Seq<RFile>
    decreases acc.len(),
{
    if acc.len() == 0 {
        seq![f]
    } else if lex_lt(file_key(f), file_key(acc[0])) {
        seq![f] + acc
    } else {
        seq![acc[0]] + spec_insert_sorted(acc.drop_first(), f)
    }
}

/// The file order encoding writes: each file inserted in turn into a list
/// sorted by case-insensitive path.
pub open spec fn spec_sort_files(s: Seq<RFile>) -> Seq<RFile>
    decreases s.len(),
{
    if s.len() == 0 {
        Seq::empty()
    } else {
        spec_insert_sorted(spec_sort_files(s.drop_last()), s.last())
    }
}

/// `spec_insert_sorted` lands at the first position whose key is strictly
/// greater.
pub proof fn lemma_insert_sorted_at(acc: Seq<RFile>, f: RFile, j: int)
    requires
        0 <= j <= acc.len(),
        forall|l: int| 0 <= l < j ==> !lex_lt(file_key(f), file_key(#[trigger] acc[l])),
        j < acc.len() ==> lex_lt(file_key(f), file_key(acc[j])),
    ensures
        spec_insert_sorted(acc, f) == acc.take(j) + seq![f] + acc.skip(j),
    decreases acc.len(),
{
    if acc.len() == 0 {
        assert(spec_insert_sorted(acc, f) =~= acc.take(0) + seq![f] + acc.skip(0));
    } else if lex_lt(file_key(f), file_key(acc[0])) {
        assert(j == 0);
        assert(spec_insert_sorted(acc, f) =~= acc.take(0) + seq![f] + acc.skip(0));
    } else {
        assert(j >= 1) by {
            assert(!lex_lt(file_key(f), file_key(acc[0])));
        }
        assert(forall|l: int| 0 <= l < j - 1 ==> !lex_lt(
            file_key(f),
            file_key(#[trigger] acc.drop_first()[l]),
        ));
        lemma_insert_sorted_at(acc.drop_first(), f, j - 1);
        assert(spec_insert_sorted(acc, f) =~= acc.take(j) + seq![f] + acc.skip(j));
    }
}

/// Sorts a file list by case-insensitive path, keeping the relative order
/// of files whose keys are equal.
pub fn sort_files(files: &mut Vec<RFile>)
    ensures
        final(files)@ == spec_sort_files(old(files)@),
{
    let ghost orig = files@;
    let mut i: usize = 0;
    while i < files.len()
        invariant
            i <= orig.len(),
            files@.len() == orig.len(),
            files@ == spec_sort_files(orig.take(i as int)) + orig.skip(i as int),
        decreases orig.len() - i,
    {
        let ghost sorted = spec_sort_files(orig.take(i as int));
        let mut j: usize = 0;
        while j < i && !file_key_lt(&files[i], &files[j])
            invariant
                j <= i,
                i < files@.len(),
                files@ == sorted + orig.skip(i as int),
                sorted.len() == i,
                forall|l: int| 0 <= l < j ==> !lex_lt(
                    file_key(files@[i as int]),
                    file_key(#[trigger] sorted[l]),
                ),
            decreases i - j,
        {
            j = j + 1;
        }
        proof {
            assert(files@[i as int] == orig[i as int]);
            lemma_insert_sorted_at(sorted, orig[i as int], j as int);
            assert(orig.take(i + 1 as int).drop_last() =~= orig.take(i as int));
            assert(orig.take(i + 1 as int).last() == orig[i as int]);
        }
        let f = files.remove(i);
        files.insert(j, f);
        proof {
            assert(files@ =~= spec_sort_files(orig.take(i + 1 as int)) + orig.skip(i + 1 as int));
        }
        i = i + 1;
    }
    proof {
        assert(orig.take(orig.len() as int) =~= orig);
        assert(files@ =~= spec_sort_files(orig));
    }
}

/// True when every file's bytes are in memory, so the Pack can be encoded
/// without its source stream.
pub open spec fn all_resident(files: Seq<RFile>) -> bool {
    forall|i: int| 0 <= i < files.len() ==> #[trigger] files[i].data is Resident
}

/// The byte length of a resident file's data; zero for a lazy entry.
pub open spec fn resident_len(f: RFile) -> int {
    match f.data {
        RFileData::Resident(d) => d@.len() as int,
        RFileData::Lazy { .. } => 0,
    }
}

/// The bytes of a resident file's data; empty for a lazy entry.
pub open spec fn resident_bytes(f: RFile) -> Seq<u8> {
    match f.data {
        RFileData::Resident(d) => d@,
        RFileData::Lazy { .. } => Seq::empty(),
    }
}

/// The dependency index: each path's UTF-8 bytes followed by a zero.
pub open spec fn spec_deps_bytes(deps: Seq<Seq<char>>) -> Seq<u8>
    decreases deps.len(),
{
    if deps.len() == 0 {
        Seq::empty()
    } else {
        encode_utf8(deps[0]) + seq![0u8] + spec_deps_bytes(deps.drop_first())
    }
}

/// One more dependency extends the index at its end.
pub proof fn lemma_deps_bytes_push(deps: Seq<Seq<char>>, d: Seq<char>)
    ensures
        spec_deps_bytes(deps.push(d)) == spec_deps_bytes(deps) + encode_utf8(d) + seq![0u8],
    decreases deps.len(),
{
    if deps.len() == 0 {
        let p = deps.push(d);
        assert(p.len() == 1);
        assert(p[0] == d);
        assert(p.drop_first() =~= Seq::<Seq<char>>::empty());
        assert(spec_deps_bytes(p.drop_first()) == Seq::<u8>::empty());
        assert(spec_deps_bytes(p) == encode_utf8(p[0]) + seq![0u8] + spec_deps_bytes(
            p.drop_first(),
        ));
        assert(spec_deps_bytes(p) =~= spec_deps_bytes(deps) + encode_utf8(d) + seq![0u8]);
    } else {
        let p = deps.push(d);
        assert(p.len() == deps.len() + 1 && p[0] == deps[0]);
        assert(p.drop_first() =~= deps.drop_first().push(d));
        lemma_deps_bytes_push(deps.drop_first(), d);
        assert(spec_deps_bytes(p) == encode_utf8(p[0]) + seq![0u8] + spec_deps_bytes(
            p.drop_first(),
        ));
        assert(spec_deps_bytes(p.drop_first()) == spec_deps_bytes(deps.drop_first())
            + encode_utf8(d) + seq![0u8]);
        assert(spec_deps_bytes(deps) == encode_utf8(deps[0]) + seq![0u8] + spec_deps_bytes(
            deps.drop_first(),
        ));
        assert(spec_deps_bytes(p) =~= spec_deps_bytes(deps) + encode_utf8(d) + seq![0u8]);
    }
}

/// One file's index entry: its data length as a 32-bit word, the timestamp
/// word when the index carries timestamps, and the zero-terminated path.
pub open spec fn spec_entry_bytes(f: RFile, has_ts: bool) -> Seq<u8> {
    spec_u32_bytes((resident_len(f) % 0x100000000) as u32) + (if has_ts {
        spec_u32_bytes((f.timestamp % 0x100000000) as u32)
    } else {
        Seq::<u8>::empty()
    }) + encode_utf8(f.path@) + seq![0u8]
}

/// The whole files index in file order.
pub open spec fn spec_files_index_bytes(files: Seq<RFile>, has_ts: bool) -> Seq<u8>
    decreases files.len(),
{
    if files.len() == 0 {
        Seq::empty()
    } else {
        spec_entry_bytes(files[0], has_ts) + spec_files_index_bytes(files.drop_first(), has_ts)
    }
}

/// One more file extends the index at its end.
pub proof fn lemma_files_index_bytes_push(files: Seq<RFile>, f: RFile, has_ts: bool)
    ensures
        spec_files_index_bytes(files.push(f), has_ts) == spec_files_index_bytes(files, has_ts)
            + spec_entry_bytes(f, has_ts),
    decreases files.len(),
{
    if files.len() == 0 {
        let p = files.push(f);
        assert(p.len() == 1);
        assert(p[0] == f);
        assert(p.drop_first() =~= Seq::<RFile>::empty());
        assert(spec_files_index_bytes(p.drop_first(), has_ts) == Seq::<u8>::empty());
        assert(spec_files_index_bytes(p, has_ts) == spec_entry_bytes(p[0], has_ts)
            + spec_files_index_bytes(p.drop_first(), has_ts));
        assert(spec_files_index_bytes(p, has_ts) =~= spec_files_index_bytes(files, has_ts)
            + spec_entry_bytes(f, has_ts));
    } else {
        let p = files.push(f);
        assert(p.len() == files.len() + 1 && p[0] == files[0]);
        assert(p.drop_first() =~= files.drop_first().push(f));
        lemma_files_index_bytes_push(files.drop_first(), f, has_ts);
        assert(spec_files_index_bytes(p, has_ts) == spec_entry_bytes(p[0], has_ts)
            + spec_files_index_bytes(p.drop_first(), has_ts));
        assert(spec_files_index_bytes(p.drop_first(), has_ts) == spec_files_index_bytes(
            files.drop_first(),
            has_ts,
        ) + spec_entry_bytes(f, has_ts));
        assert(spec_files_index_bytes(files, has_ts) == spec_entry_bytes(files[0], has_ts)
            + spec_files_index_bytes(files.drop_first(), has_ts));
        assert(spec_files_index_bytes(p, has_ts) =~= spec_files_index_bytes(files, has_ts)
            + spec_entry_bytes(f, has_ts));
    }
}

/// The file data region: every file's bytes, concatenated in file order.
pub open spec fn spec_files_data_bytes(files: Seq<RFile>) -> Seq<u8>
    decreases files.len(),
{
    if files.len() == 0 {
        Seq::empty()
    } else {
        resident_bytes(files[0]) + spec_files_data_bytes(files.drop_first())
    }
}

/// One more file extends the data region at its end.
pub proof fn lemma_files_data_bytes_push(files: Seq<RFile>, f: RFile)
    ensures
        spec_files_data_bytes(files.push(f)) == spec_files_data_bytes(files) + resident_bytes(f),
    decreases files.len(),
{
    if files.len() == 0 {
        let p = files.push(f);
        assert(p.len() == 1);
        assert(p[0] == f);
        assert(p.drop_first() =~= Seq::<RFile>::empty());
        assert(spec_files_data_bytes(p.drop_first()) == Seq::<u8>::empty());
        assert(spec_files_data_bytes(p) == resident_bytes(p[0]) + spec_files_data_bytes(
            p.drop_first(),
        ));
        assert(spec_files_data_bytes(p) =~= spec_files_data_bytes(files) + resident_bytes(f));
    } else {
        let p = files.push(f);
        assert(p.len() == files.len() + 1 && p[0] == files[0]);
        assert(p.drop_first() =~= files.drop_first().push(f));
        lemma_files_data_bytes_push(files.drop_first(), f);
        assert(spec_files_data_bytes(p) == resident_bytes(p[0]) + spec_files_data_bytes(
            p.drop_first(),
        ));
        assert(spec_files_data_bytes(p.drop_first()) == spec_files_data_bytes(files.drop_first())
            + resident_bytes(f));
        assert(spec_files_data_bytes(files) == resident_bytes(files[0]) + spec_files_data_bytes(
            files.drop_first(),
        ));
        assert(spec_files_data_bytes(p) =~= spec_files_data_bytes(files) + resident_bytes(f));
    }
}

/// Options the encoder takes from its caller: reproducible-output mode, and
/// the current time so the header timestamp can be refreshed outside test
/// mode. The clock stays with the caller; the library never reads one.
pub struct EncodeableExtraData {
    /// When set, the header timestamp is left untouched so output is
    /// reproducible.
    pub test_mode: bool,
    /// The wall-clock time the caller read, as seconds.
    pub current_time: u64,
}

/// The exact bytes the PFH4 writer emits for a Pack whose files are all
/// resident and already sorted.
pub open spec fn spec_pfh4_bytes(p: Pack) -> Seq<u8> {
    let deps = str_views(p.dependencies@);
    let deps_bytes = spec_deps_bytes(deps);
    let has_ts = spec_has_flag(p.header.bitmask, PFH_FLAG_HAS_INDEX_WITH_TIMESTAMPS);
    let index_bytes = spec_files_index_bytes(p.files@, has_ts);
    let data_bytes = spec_files_data_bytes(p.files@);
    spec_pfh4_marker() + spec_u32_bytes(p.header.bitmask | p.header.file_type) + spec_u32_bytes(
        (p.dependencies@.len() % 0x100000000) as u32,
    ) + spec_u32_bytes((deps_bytes.len() % 0x100000000) as u32) + spec_u32_bytes(
        (p.files@.len() % 0x100000000) as u32,
    ) + spec_u32_bytes((index_bytes.len() % 0x100000000) as u32) + spec_u32_bytes(
        (p.header.timestamp % 0x100000000) as u32,
    ) + deps_bytes + index_bytes + data_bytes
}

/// Builds the files index and the file data region for `files`; fails with
/// `LazyDataNotLoaded` at the first entry whose bytes are not in memory.
#[verifier::loop_isolation(false)]
fn build_files_parts(files: &Vec<RFile>, has_ts: bool) -> (r: Result<
    (Vec<u8>, Vec<u8>),
    RLibError,
>)
    ensures
        r is Ok <==> all_resident(files@),
        r matches Ok(parts) ==> parts.0@ == spec_files_index_bytes(files@, has_ts) && parts.1@
            == spec_files_data_bytes(files@),
        r matches Err(e) ==> e == RLibError::LazyDataNotLoaded,
{
    let mut files_index: Vec<u8> = Vec::new();
    let mut files_data: Vec<u8> = Vec::new();
    let n = files.len();
    let mut i: usize = 0;
    while i < n
        invariant
            i <= n,
            files_index@ == spec_files_index_bytes(files@.take(i as int), has_ts),
            files_data@ == spec_files_data_bytes(files@.take(i as int)),
            all_resident(files@.take(i as int)),
        decreases n - i,
    {
        let ghost done = files@.take(i as int);
        match &files[i].data {
            RFileData::Resident(d) => {
                write_u32(&mut files_index, (d.len() as u64 % 0x100000000) as u32);
            },
            RFileData::Lazy { .. } => {
                return Err(RLibError::LazyDataNotLoaded);
            },
        }
        if has_ts {
            let ts = files[i].timestamp;
            write_u32(&mut files_index, (ts % 0x100000000) as u32);
        }
        write_string_u8_0terminated(&mut files_index, files[i].path.as_str());
        match &files[i].data {
            RFileData::Resident(d) => {
                write_all(&mut files_data, d.as_slice());
            },
            RFileData::Lazy { .. } => {
                proof {
                    assert(false);
                }
            },
        }
        proof {
            lemma_files_index_bytes_push(done, files@[i as int], has_ts);
            lemma_files_data_bytes_push(done, files@[i as int]);
            assert(done.push(files@[i as int]) =~= files@.take(i + 1 as int));
            assert(files_index@ =~= spec_files_index_bytes(files@.take(i + 1 as int), has_ts));
            assert(files_data@ =~= spec_files_data_bytes(files@.take(i + 1 as int)));
        }
        i = i + 1;
    }
    proof {
        assert(files@.take(n as int) =~= files@);
    }
    Ok((files_index, files_data))
}

/// Builds the dependency index: each path zero-terminated, in order.
#[verifier::loop_isolation(false)]
fn build_deps_index(deps: &Vec<String>) -> (r: Vec<u8>)
    ensures
        r@ == spec_deps_bytes(str_views(deps@)),
{
    let mut deps_index: Vec<u8> = Vec::new();
    let dn = deps.len();
    let mut j: usize = 0;
    while j < dn
        invariant
            j <= dn,
            deps_index@ == spec_deps_bytes(str_views(deps@.take(j as int))),
        decreases dn - j,
    {
        let ghost ddone = str_views(deps@.take(j as int));
        write_string_u8_0terminated(&mut deps_index, deps[j].as_str());
        proof {
            lemma_deps_bytes_push(ddone, deps@[j as int]@);
            assert(ddone.push(deps@[j as int]@) =~= str_views(deps@.take(j + 1 as int)));
            assert(deps_index@ =~= spec_deps_bytes(str_views(deps@.take(j + 1 as int))));
        }
        j = j + 1;
    }
    proof {
        assert(deps@.take(dn as int) =~= deps@);
    }
    deps_index
}

impl Pack {
    /// Writes the Pack as a PFH4 stream onto `buffer`.
    ///
    /// The files are first put into case-insensitive path order, which
    /// stays in place afterwards; unless `extra_data` asks for test mode,
    /// the header timestamp is refreshed from the caller-supplied time.
    /// Every file must be resident: a lazy entry aborts the whole write
    /// with `LazyDataNotLoaded` before anything lands in `buffer`.
    #[verifier::rlimit(100)]
    #[verifier::spinoff_prover]
    pub fn write_pfh4(
        &mut self,
        buffer: &mut Vec<u8>,
        extra_data: &Option<EncodeableExtraData>,
    ) -> (r: Result<(), RLibError>)
        ensures
            final(self).header.bitmask == old(self).header.bitmask,
            final(self).header.file_type == old(self).header.file_type,
            final(self).dependencies == old(self).dependencies,
            final(self).files@ == spec_sort_files(old(self).files@),
            final(self).header.timestamp == (match extra_data {
                Some(e) => if e.test_mode {
                    old(self).header.timestamp
                } else {
                    e.current_time
                },
                None => old(self).header.timestamp,
            }),
            r is Ok <==> all_resident(spec_sort_files(old(self).files@)),
            r matches Err(e) ==> e == RLibError::LazyDataNotLoaded && final(buffer)@ == old(
                buffer,
            )@,
            r is Ok ==> final(buffer)@ == old(buffer)@ + spec_pfh4_bytes(*final(self)),
    {
        sort_files(&mut self.files);
        match extra_data {
            Some(e) => {
                if !e.test_mode {
                    self.header.timestamp = e.current_time;
                }
            },
            None => {},
        }
        let has_ts = has_flag(self.header.bitmask, PFH_FLAG_HAS_INDEX_WITH_TIMESTAMPS);
        let (files_index, files_data) = match build_files_parts(&self.files, has_ts) {
            Ok(parts) => parts,
            Err(e) => {
                return Err(e);
            },
        };
        let deps_index = build_deps_index(&self.dependencies);

        let mut header: Vec<u8> = Vec::new();
        write_u8(&mut header, 0x50);
        write_u8(&mut header, 0x46);
        write_u8(&mut header, 0x48);
        write_u8(&mut header, 0x34);
        write_u32(&mut header, self.header.bitmask | self.header.file_type);
        write_u32(&mut header, (self.dependencies.len() as u64 % 0x100000000) as u32);
        write_u32(&mut header, (deps_index.len() as u64 % 0x100000000) as u32);
        write_u32(&mut header, (self.files.len() as u64 % 0x100000000) as u32);
        write_u32(&mut header, (files_index.len() as u64 % 0x100000000) as u32);
        write_u32(&mut header, (self.header.timestamp % 0x100000000) as u32);

        proof {
            let gdeps = spec_deps_bytes(str_views(self.dependencies@));
            let gindex = spec_files_index_bytes(
                self.files@,
                spec_has_flag(self.header.bitmask, PFH_FLAG_HAS_INDEX_WITH_TIMESTAMPS),
            );
            assert(header@ =~= spec_pfh4_marker() + spec_u32_bytes(
                self.header.bitmask | self.header.file_type,
            ) + spec_u32_bytes((self.dependencies@.len() % 0x100000000) as u32) + spec_u32_bytes(
                (gdeps.len() % 0x100000000) as u32,
            ) + spec_u32_bytes((self.files@.len() % 0x100000000) as u32) + spec_u32_bytes(
                (gindex.len() % 0x100000000) as u32,
            ) + spec_u32_bytes((self.header.timestamp % 0x100000000) as u32));
        }
        write_all(buffer, header.as_slice());
        write_all(buffer, deps_index.as_slice());
        write_all(buffer, files_index.as_slice());
        write_all(buffer, files_data.as_slice());
        proof {
            assert(buffer@ =~= old(buffer)@ + spec_pfh4_bytes(*self));
        }
        Ok(())
    }
}

/// True when a text's UTF-8 bytes hold no zero, so a zero terminator ends
/// exactly the written text.
pub open spec fn no_nul(s: Seq<char>) -> bool {
    forall|i: int| 0 <= i < encode_utf8(s).len() ==> #[trigger] encode_utf8(s)[i] != 0
}

/// Reading one zero-terminated string back from where it was written
/// yields the text and lands just past its terminator.
pub proof fn lemma_read_0term_of_bytes(w: Seq<u8>, p: int, s: Seq<char>, tail: Seq<u8>)
    requires
        0 <= p <= w.len(),
        no_nul(s),
        w.subrange(p, w.len() as int) == encode_utf8(s) + seq![0u8] + tail,
    ensures
        spec_read_0term(w, p) == (s, p + encode_utf8(s).len() + 1),
{
    let rest = w.subrange(p, w.len() as int);
    let e = encode_utf8(s);
    assert(forall|j: int| 0 <= j < e.len() ==> #[trigger] rest[j] != 0);
    assert(rest[e.len() as int] == 0);
    lemma_first_zero_is(rest, e.len() as int);
    assert(rest.take(e.len() as int) =~= e);
    vstd::utf8::encode_utf8_valid_utf8(s);
    vstd::utf8::encode_utf8_decode_utf8(s);
    assert(spec_first_zero(rest) < rest.len());
}

/// Reading the dependency list back from where it was written yields the
/// paths and lands just past the index.
pub proof fn lemma_read_deps_of_bytes(w: Seq<u8>, p: int, deps: Seq<Seq<char>>, tail: Seq<u8>)
    requires
        0 <= p <= w.len(),
        forall|i: int| 0 <= i < deps.len() ==> no_nul(#[trigger] deps[i]),
        w.subrange(p, w.len() as int) == spec_deps_bytes(deps) + tail,
    ensures
        spec_read_deps(w, p, deps.len() as int) == (deps, p + spec_deps_bytes(deps).len()),
    decreases deps.len(),
{
    reveal(spec_read_deps);
    if deps.len() == 0 {
        assert(spec_read_deps(w, p, 0) == (Seq::<Seq<char>>::empty(), p));
        assert(deps =~= Seq::<Seq<char>>::empty());
    } else {
        let d0 = deps[0];
        let e0 = encode_utf8(d0);
        let rest_deps = deps.drop_first();
        assert(spec_deps_bytes(deps) == e0 + seq![0u8] + spec_deps_bytes(rest_deps));
        let tail2 = spec_deps_bytes(rest_deps) + tail;
        assert(w.subrange(p, w.len() as int) =~= e0 + seq![0u8] + tail2);
        lemma_read_0term_of_bytes(w, p, d0, tail2);
        let p1 = p + e0.len() + 1;
        assert(w.subrange(p1, w.len() as int) =~= spec_deps_bytes(rest_deps) + tail) by {
            assert(p1 <= w.len());
            assert forall|j: int| 0 <= j < w.len() - p1 implies w.subrange(p1, w.len() as int)[j]
                == (spec_deps_bytes(rest_deps) + tail)[j] by {
                assert(w.subrange(p1, w.len() as int)[j] == w.subrange(p, w.len() as int)[j + e0.len()
                    + 1]);
            }
        }
        assert(forall|i: int| 0 <= i < rest_deps.len() ==> no_nul(#[trigger] rest_deps[i]));
        lemma_read_deps_of_bytes(w, p1, rest_deps, tail);
        let st = spec_read_0term(w, p);
        assert(st.0 == d0 && st.1 == p1);
        assert(spec_read_deps(w, p, deps.len() as int).0 =~= deps);
        assert(spec_read_deps(w, p, deps.len() as int).1 == p + spec_deps_bytes(deps).len());
    }
}

/// Total byte length of the resident data of a file list.
pub open spec fn spec_total_size(files: Seq<RFile>) -> int
    decreases files.len(),
{
    if files.len() == 0 {
        0
    } else {
        resident_len(files[0]) + spec_total_size(files.drop_first())
    }
}

/// The data region is as long as the sizes it holds say.
pub proof fn lemma_total_size_is_data_len(files: Seq<RFile>)
    ensures
        spec_total_size(files) == spec_files_data_bytes(files).len(),
        spec_total_size(files) >= 0,
    decreases files.len(),
{
    if files.len() > 0 {
        lemma_total_size_is_data_len(files.drop_first());
    }
}

/// The entries reading a written index must yield: one per file, in order,
/// with sizes from the data lengths and cumulative offsets from `dpos`.
pub open spec fn spec_entries_of(files: Seq<RFile>, has_ts: bool, dpos: int) -> Seq<FileEntryV>
    decreases files.len(),
{
    if files.len() == 0 {
        Seq::empty()
    } else {
        seq![
            (
                files[0].path@,
                if has_ts {
                    files[0].timestamp
                } else {
                    0u64
                },
                resident_len(files[0]) as u32,
                dpos as u64,
            ),
        ] + spec_entries_of(files.drop_first(), has_ts, dpos + resident_len(files[0]))
    }
}

/// The constraints on a file under which its index entry reads back
/// exactly: bytes in memory, a path whose encoding holds no zero, and a
/// size and timestamp that fit their on-disk words.
pub open spec fn file_encodable(f: RFile) -> bool {
    &&& f.data is Resident
    &&& no_nul(f.path@)
    &&& resident_len(f) < 0x100000000
    &&& f.timestamp < 0x100000000
}

/// Reading the file index back from where it was written yields exactly
/// one entry per file, and lands just past the index with the offset just
/// past the last file's bytes.
#[verifier::rlimit(100)]
pub proof fn lemma_read_files_of_bytes(
    w: Seq<u8>,
    p: int,
    files: Seq<RFile>,
    has_ts: bool,
    dpos: u64,
    tail: Seq<u8>,
)
    requires
        0 <= p <= w.len(),
        forall|i: int| 0 <= i < files.len() ==> file_encodable(#[trigger] files[i]),
        w.subrange(p, w.len() as int) == spec_files_index_bytes(files, has_ts) + tail,
        dpos + spec_total_size(files) <= u64::MAX,
    ensures
        spec_read_files(w, p, files.len() as int, has_ts, dpos) == Ok::<
            (Seq<FileEntryV>, int, u64),
            RLibError,
        >(
            (
                spec_entries_of(files, has_ts, dpos as int),
                p + spec_files_index_bytes(files, has_ts).len(),
                (dpos + spec_total_size(files)) as u64,
            ),
        ),
    decreases files.len(),
{
    reveal(spec_read_files);
    lemma_total_size_is_data_len(files);
    if files.len() == 0 {
        assert(spec_entries_of(files, has_ts, dpos as int) =~= Seq::<FileEntryV>::empty());
    } else {
        let f0 = files[0];
        let rest = files.drop_first();
        let e0 = spec_entry_bytes(f0, has_ts);
        assert(spec_files_index_bytes(files, has_ts) == e0 + spec_files_index_bytes(
            rest,
            has_ts,
        ));
        let size0 = resident_len(f0);
        let sw = spec_u32_bytes((size0 % 0x100000000) as u32);
        assert((size0 % 0x100000000) as u32 == size0 as u32);
        assert(sw.len() == 4 && e0.len() >= 4);
        assert(w.subrange(p, w.len() as int).len() == e0.len() + spec_files_index_bytes(
            rest,
            has_ts,
        ).len() + tail.len());
        assert forall|k: int| 0 <= k < 4 implies w[p + k] == sw[k] by {
            assert(w.subrange(p, w.len() as int)[k] == w[p + k]);
            assert((e0 + spec_files_index_bytes(rest, has_ts) + tail)[k] == e0[k]);
            assert(e0[k] == sw[k]);
        }
        crate::encoder::lemma_u32_bytes_le(w, p, size0 as u32);
        let q: int = if has_ts {
            p + 8
        } else {
            p + 4
        };
        if has_ts {
            let tw = spec_u32_bytes((f0.timestamp % 0x100000000) as u32);
            assert((f0.timestamp % 0x100000000) as u32 == f0.timestamp as u32);
            assert forall|k: int| 0 <= k < 4 implies w[p + 4 + k] == tw[k] by {
                assert(w.subrange(p, w.len() as int)[4 + k] == e0[4 + k]);
            }
            crate::encoder::lemma_u32_bytes_le(w, p + 4, f0.timestamp as u32);
        }
        let tail2 = spec_files_index_bytes(rest, has_ts) + tail;
        assert(w.subrange(q, w.len() as int) =~= encode_utf8(f0.path@) + seq![0u8] + tail2) by {
            assert forall|j: int| 0 <= j < w.len() - q implies w.subrange(q, w.len() as int)[j] == (
            encode_utf8(f0.path@) + seq![0u8] + tail2)[j] by {
                assert(w.subrange(q, w.len() as int)[j] == w.subrange(p, w.len() as int)[j + (q
                    - p)]);
            }
        }
        lemma_read_0term_of_bytes(w, q, f0.path@, tail2);
        let p1 = q + encode_utf8(f0.path@).len() + 1;
        assert(p1 == p + e0.len());
        assert(w.subrange(p1, w.len() as int) =~= spec_files_index_bytes(rest, has_ts) + tail)
            by {
            assert forall|j: int| 0 <= j < w.len() - p1 implies w.subrange(p1, w.len() as int)[j]
                == (spec_files_index_bytes(rest, has_ts) + tail)[j] by {
                assert(w.subrange(p1, w.len() as int)[j] == w.subrange(p, w.len() as int)[j + (p1
                    - p)]);
            }
        }
        assert(forall|i: int| 0 <= i < rest.len() ==> file_encodable(#[trigger] rest[i]));
        lemma_total_size_is_data_len(rest);
        lemma_read_files_of_bytes(w, p1, rest, has_ts, (dpos + size0) as u64, tail);
        let st = spec_read_0term(w, q);
        assert(st.0 == f0.path@ && st.1 == p1);
        assert(spec_read_files(w, p, files.len() as int, has_ts, dpos).unwrap().0
            =~= spec_entries_of(files, has_ts, dpos as int));
    }
}

/// The written stream opens with the marker and six exact header words.
#[verifier::rlimit(100)]
#[verifier::spinoff_prover]
pub proof fn lemma_pfh4_header_words(p: Pack)
    ensures
        ({
            let out = spec_pfh4_bytes(p);
            let has_ts = spec_has_flag(p.header.bitmask, PFH_FLAG_HAS_INDEX_WITH_TIMESTAMPS);
            let deps_bytes = spec_deps_bytes(str_views(p.dependencies@));
            let index_bytes = spec_files_index_bytes(p.files@, has_ts);
            let data_bytes = spec_files_data_bytes(p.files@);
            &&& out.len() == 28 + deps_bytes.len() + index_bytes.len() + data_bytes.len()
            &&& out.subrange(0, 4) == spec_pfh4_marker()
            &&& spec_u32_le(out, 4) == p.header.bitmask | p.header.file_type
            &&& spec_u32_le(out, 8) == (p.dependencies@.len() % 0x100000000) as u32
            &&& spec_u32_le(out, 12) == (deps_bytes.len() % 0x100000000) as u32
            &&& spec_u32_le(out, 16) == (p.files@.len() % 0x100000000) as u32
            &&& spec_u32_le(out, 20) == (index_bytes.len() % 0x100000000) as u32
            &&& spec_u32_le(out, 24) == (p.header.timestamp % 0x100000000) as u32
            &&& out.subrange(28, 28 + deps_bytes.len() + index_bytes.len() as int) == deps_bytes
                + index_bytes
        }),
{
    let out = spec_pfh4_bytes(p);
    let has_ts = spec_has_flag(p.header.bitmask, PFH_FLAG_HAS_INDEX_WITH_TIMESTAMPS);
    let deps_bytes = spec_deps_bytes(str_views(p.dependencies@));
    let index_bytes = spec_files_index_bytes(p.files@, has_ts);
    let data_bytes = spec_files_data_bytes(p.files@);
    let word = p.header.bitmask | p.header.file_type;
    let dl = deps_bytes.len() as int;
    let il = index_bytes.len() as int;
    let head = spec_pfh4_marker() + spec_u32_bytes(word) + spec_u32_bytes(
        (p.dependencies@.len() % 0x100000000) as u32,
    ) + spec_u32_bytes((dl % 0x100000000) as u32) + spec_u32_bytes(
        (p.files@.len() % 0x100000000) as u32,
    ) + spec_u32_bytes((il % 0x100000000) as u32) + spec_u32_bytes(
        (p.header.timestamp % 0x100000000) as u32,
    );
    assert(out =~= head + deps_bytes + index_bytes + data_bytes);
    assert(head.len() == 28);
    assert(out.subrange(0, 4) =~= spec_pfh4_marker());
    let words: Seq<u32> = seq![
        word,
        (p.dependencies@.len() % 0x100000000) as u32,
        (dl % 0x100000000) as u32,
        (p.files@.len() % 0x100000000) as u32,
        (il % 0x100000000) as u32,
        (p.header.timestamp % 0x100000000) as u32,
    ];
    assert forall|n: int| 0 <= n < 6 implies spec_u32_le(out, 4 + 4 * n) == words[n] by {
        assert forall|k: int| 0 <= k < 4 implies out[4 + 4 * n + k] == spec_u32_bytes(
            words[n],
        )[k] by {
            assert(head[4 + 4 * n + k] == spec_u32_bytes(words[n])[k]);
        }
        crate::encoder::lemma_u32_bytes_le(out, 4 + 4 * n, words[n]);
    }
    assert(spec_u32_le(out, 4) == words[0] && spec_u32_le(out, 8) == words[1] && spec_u32_le(
        out,
        12,
    ) == words[2] && spec_u32_le(out, 16) == words[3] && spec_u32_le(out, 20) == words[4]
        && spec_u32_le(out, 24) == words[5]);
    assert(out.subrange(28, 28 + dl + il) =~= deps_bytes + index_bytes);
}

/// The data region of the written stream is the files' bytes, laid end to
/// end after the indexes.
#[verifier::rlimit(100)]
#[verifier::spinoff_prover]
pub proof fn lemma_pfh4_data_region(p: Pack)
    ensures
        ({
            let out = spec_pfh4_bytes(p);
            let has_ts = spec_has_flag(p.header.bitmask, PFH_FLAG_HAS_INDEX_WITH_TIMESTAMPS);
            let deps_bytes = spec_deps_bytes(str_views(p.dependencies@));
            let index_bytes = spec_files_index_bytes(p.files@, has_ts);
            let data_bytes = spec_files_data_bytes(p.files@);
            &&& out.len() == 28 + deps_bytes.len() + index_bytes.len() + data_bytes.len()
            &&& out.subrange(
                28 + deps_bytes.len() + index_bytes.len() as int,
                out.len() as int,
            ) == data_bytes
        }),
{
    let out = spec_pfh4_bytes(p);
    let has_ts = spec_has_flag(p.header.bitmask, PFH_FLAG_HAS_INDEX_WITH_TIMESTAMPS);
    let deps_bytes = spec_deps_bytes(str_views(p.dependencies@));
    let index_bytes = spec_files_index_bytes(p.files@, has_ts);
    let data_bytes = spec_files_data_bytes(p.files@);
    let head = spec_pfh4_marker() + spec_u32_bytes(p.header.bitmask | p.header.file_type)
        + spec_u32_bytes((p.dependencies@.len() % 0x100000000) as u32) + spec_u32_bytes(
        (deps_bytes.len() % 0x100000000) as u32,
    ) + spec_u32_bytes((p.files@.len() % 0x100000000) as u32) + spec_u32_bytes(
        (index_bytes.len() % 0x100000000) as u32,
    ) + spec_u32_bytes((p.header.timestamp % 0x100000000) as u32);
    assert(out =~= head + deps_bytes + index_bytes + data_bytes);
    assert(head.len() == 28);
    assert(out.subrange(
        28 + deps_bytes.len() + index_bytes.len() as int,
        out.len() as int,
    ) =~= data_bytes);
}

/// There is exactly one entry per file.
pub proof fn lemma_entries_len(files: Seq<RFile>, has_ts: bool, dpos: int)
    ensures
        spec_entries_of(files, has_ts, dpos).len() == files.len(),
    decreases files.len(),
{
    if files.len() > 0 {
        lemma_entries_len(files.drop_first(), has_ts, dpos + resident_len(files[0]));
    }
}

/// Each entry's byte range in the stream holds exactly its file's bytes,
/// when the stream's data region is the concatenation of those bytes.
pub proof fn lemma_data_contents(out: Seq<u8>, files: Seq<RFile>, has_ts: bool, base: int)
    requires
        0 <= base,
        base + spec_total_size(files) <= out.len(),
        base + spec_total_size(files) <= u64::MAX,
        out.subrange(base, base + spec_total_size(files)) == spec_files_data_bytes(files),
        forall|i: int| 0 <= i < files.len() ==> file_encodable(#[trigger] files[i]),
    ensures
        forall|i: int|
            0 <= i < files.len() ==> {
                let e = #[trigger] spec_entries_of(files, has_ts, base)[i];
                out.subrange(e.3 as int, e.3 + e.2) == resident_bytes(files[i])
            },
    decreases files.len(),
{
    lemma_total_size_is_data_len(files);
    if files.len() > 0 {
        let f0 = files[0];
        let rest = files.drop_first();
        let len0 = resident_len(f0);
        lemma_total_size_is_data_len(rest);
        assert(spec_files_data_bytes(files) == resident_bytes(f0) + spec_files_data_bytes(rest));
        assert(out.subrange(base, base + len0) =~= resident_bytes(f0)) by {
            assert forall|j: int| 0 <= j < len0 implies out.subrange(base, base + len0)[j]
                == resident_bytes(f0)[j] by {
                assert(out.subrange(base, base + spec_total_size(files))[j] == out[base + j]);
            }
        }
        assert(out.subrange(base + len0, base + len0 + spec_total_size(rest))
            =~= spec_files_data_bytes(rest)) by {
            assert forall|j: int| 0 <= j < spec_total_size(rest) implies out.subrange(
                base + len0,
                base + len0 + spec_total_size(rest),
            )[j] == spec_files_data_bytes(rest)[j] by {
                assert(out.subrange(base, base + spec_total_size(files))[len0 + j] == out[base
                    + len0 + j]);
            }
        }
        assert(forall|i: int| 0 <= i < rest.len() ==> file_encodable(#[trigger] rest[i]));
        lemma_data_contents(out, rest, has_ts, base + len0);
        let es = spec_entries_of(files, has_ts, base);
        let er = spec_entries_of(rest, has_ts, base + len0);
        lemma_entries_len(files, has_ts, base);
        lemma_entries_len(rest, has_ts, base + len0);
        let head: FileEntryV = (
            f0.path@,
            if has_ts {
                f0.timestamp
            } else {
                0u64
            },
            len0 as u32,
            base as u64,
        );
        assert(es == seq![head] + er);
        assert forall|i: int| 0 <= i < files.len() implies {
            let e = #[trigger] es[i];
            out.subrange(e.3 as int, e.3 + e.2) == resident_bytes(files[i])
        } by {
            if i == 0 {
                assert(es[0] == head);
                assert(file_encodable(files[0]));
                assert(es[0].3 as int == base && es[0].2 as int == len0);
            } else {
                assert(es[i] == er[i - 1]);
                assert(files[i] == rest[i - 1]);
            }
        }
    }
}

/// Entries carry their files' paths, in order.
pub proof fn lemma_entries_paths(files: Seq<RFile>, has_ts: bool, dpos: int)
    ensures
        spec_entries_of(files, has_ts, dpos).len() == files.len(),
        forall|i: int|
            0 <= i < files.len() ==> (#[trigger] spec_entries_of(files, has_ts, dpos)[i]).0
                == files[i].path@,
    decreases files.len(),
{
    if files.len() > 0 {
        let f0 = files[0];
        let rest = files.drop_first();
        let len0 = resident_len(f0);
        lemma_entries_paths(rest, has_ts, dpos + len0);
        let es = spec_entries_of(files, has_ts, dpos);
        let er = spec_entries_of(rest, has_ts, dpos + len0);
        assert forall|i: int| 0 <= i < files.len() implies (#[trigger] es[i]).0 == files[i].path@
        by {
            if i > 0 {
                assert(es[i] == er[i - 1]);
                assert(files[i] == rest[i - 1]);
            }
        }
    }
}

/// When no entry carries the path, nothing is found.
pub proof fn lemma_find_entry_none(entries: Seq<FileEntryV>, path: Seq<char>)
    requires
        forall|i: int| 0 <= i < entries.len() ==> (#[trigger] entries[i]).0 != path,
    ensures
        spec_find_entry(entries, path) == -1,
    decreases entries.len(),
{
    if entries.len() > 0 {
        assert(forall|i: int|
            0 <= i < entries.drop_first().len() ==> (#[trigger] entries.drop_first()[i]).0
                != path);
        lemma_find_entry_none(entries.drop_first(), path);
    }
}

/// Folding entries whose paths are pairwise distinct changes nothing: with
/// no duplicate to overwrite, last-write-wins insertion is plain insertion.
pub proof fn lemma_fold_entries_unique(entries: Seq<FileEntryV>)
    requires
        forall|i: int, j: int| 0 <= i < j < entries.len() ==> entries[i].0 != entries[j].0,
    ensures
        spec_fold_entries(entries) == entries,
    decreases entries.len(),
{
    if entries.len() > 0 {
        let rest = entries.drop_last();
        assert(forall|i: int, j: int| 0 <= i < j < rest.len() ==> rest[i].0 != rest[j].0);
        lemma_fold_entries_unique(rest);
        assert(forall|i: int| 0 <= i < rest.len() ==> (#[trigger] rest[i]).0 != entries.last().0);
        lemma_find_entry_none(rest, entries.last().0);
        assert(spec_fold_entries(entries) =~= entries);
    }
}

/// Assembles a successful body parse from its pieces: given the header
/// words and the dependency and file parses of the index buffer, the whole
/// read yields exactly those pieces. Stated over plain values so the heavy
/// byte-layout functions stay out of the proof.
pub proof fn lemma_assemble_parse(
    out: Seq<u8>,
    bm: u32,
    dl: int,
    il: int,
    dlen: int,
    w: Seq<u8>,
    ts32: u32,
    deps: Seq<Seq<char>>,
    entries: Seq<FileEntryV>,
)
    requires
        !spec_has_flag(bm, PFH_FLAG_HAS_ENCRYPTED_INDEX),
        !spec_has_flag(bm, PFH_FLAG_HAS_ENCRYPTED_DATA),
        !spec_has_flag(bm, PFH_FLAG_HAS_EXTENDED_HEADER),
        0 <= dl,
        0 <= il,
        0 <= dlen,
        out.len() == 28 + dl + il + dlen,
        out.len() < 0x100000000,
        spec_u32_le(out, 12) as int == dl,
        spec_u32_le(out, 20) as int == il,
        spec_u32_le(out, 24) == ts32,
        w == (if dl + il == 0 {
            Seq::<u8>::empty()
        } else {
            out.subrange(28, 28 + dl + il)
        }),
        spec_read_deps(w, 0, spec_u32_le(out, 8) as int) == (deps, dl),
        spec_read_files(
            w,
            dl,
            spec_u32_le(out, 16) as int,
            spec_has_flag(bm, PFH_FLAG_HAS_INDEX_WITH_TIMESTAMPS),
            (28 + dl + il) as u64,
        ) == Ok::<(Seq<FileEntryV>, int, u64), RLibError>(
            (entries, dl + il, out.len() as u64),
        ),
    ensures
        spec_read_pfh4(out, 8, bm) == Ok::<PackParseV, RLibError>(
            (ts32 as u64, deps, entries, out.len() as u64),
        ),
{
    reveal(spec_read_pfh4);
    assert(8 + 20 <= out.len());
    assert(!(out.len() < 24));
    assert(dl + il <= u32::MAX);
}

/// The header numbers and the two index parses of a written Pack that has
/// dependencies or files.
#[verifier::rlimit(100)]
#[verifier::spinoff_prover]
proof fn lemma_read_body_facts(p: Pack)
    requires
        p.header.bitmask & 0xF == 0,
        p.header.file_type < 0x10,
        !spec_has_flag(p.header.bitmask, PFH_FLAG_HAS_ENCRYPTED_INDEX),
        !spec_has_flag(p.header.bitmask, PFH_FLAG_HAS_ENCRYPTED_DATA),
        !spec_has_flag(p.header.bitmask, PFH_FLAG_HAS_EXTENDED_HEADER),
        forall|i: int| 0 <= i < p.files@.len() ==> file_encodable(#[trigger] p.files@[i]),
        forall|i: int| 0 <= i < p.dependencies@.len() ==> no_nul(#[trigger] p.dependencies@[i]@),
        p.files@.len() < 0x100000000,
        p.dependencies@.len() < 0x100000000,
        p.header.timestamp < 0x100000000,
        spec_pfh4_bytes(p).len() < 0x100000000,
        spec_deps_bytes(str_views(p.dependencies@)).len() + spec_files_index_bytes(
            p.files@,
            spec_has_flag(p.header.bitmask, PFH_FLAG_HAS_INDEX_WITH_TIMESTAMPS),
        ).len() != 0,
    ensures
        ({
            let out = spec_pfh4_bytes(p);
            let has_ts = spec_has_flag(p.header.bitmask, PFH_FLAG_HAS_INDEX_WITH_TIMESTAMPS);
            let deps = str_views(p.dependencies@);
            let dl = spec_deps_bytes(deps).len() as int;
            let il = spec_files_index_bytes(p.files@, has_ts).len() as int;
            let w = out.subrange(28, 28 + dl + il);
            &&& out.len() == 28 + dl + il + spec_files_data_bytes(p.files@).len()
            &&& spec_u32_le(out, 8int + 0) as int == p.dependencies@.len()
            &&& spec_u32_le(out, 8int + 4) as int == dl
            &&& spec_u32_le(out, 8int + 8) as int == p.files@.len()
            &&& spec_u32_le(out, 8int + 12) as int == il
            &&& spec_u32_le(out, 8int + 16) == (p.header.timestamp % 0x100000000) as u32
            &&& spec_read_deps(w, 0, p.dependencies@.len() as int) == (deps, dl)
            &&& spec_read_files(w, dl, p.files@.len() as int, has_ts, (28 + dl + il) as u64)
                == Ok::<(Seq<FileEntryV>, int, u64), RLibError>(
                (
                    spec_entries_of(p.files@, has_ts, 28 + dl + il),
                    dl + il,
                    out.len() as u64,
                ),
            )
        }),
{
    let out = spec_pfh4_bytes(p);
    let has_ts = spec_has_flag(p.header.bitmask, PFH_FLAG_HAS_INDEX_WITH_TIMESTAMPS);
    let deps = str_views(p.dependencies@);
    let deps_bytes = spec_deps_bytes(deps);
    let index_bytes = spec_files_index_bytes(p.files@, has_ts);
    let data_bytes = spec_files_data_bytes(p.files@);
    let dl = deps_bytes.len() as int;
    let il = index_bytes.len() as int;
    let w = out.subrange(28, 28 + dl + il);
    assert(out.len() == 28 + dl + il + data_bytes.len() && spec_u32_le(out, 8int + 0) as int
        == p.dependencies@.len() && spec_u32_le(out, 8int + 4) as int == dl && spec_u32_le(
        out,
        8int + 8,
    ) as int == p.files@.len() && spec_u32_le(out, 8int + 12) as int == il && spec_u32_le(
        out,
        8int + 16,
    ) == (p.header.timestamp % 0x100000000) as u32) by {
        lemma_pfh4_header_words(p);
    }
    assert(spec_read_deps(w, 0, p.dependencies@.len() as int) == (deps, dl)) by {
        lemma_deps_parse_of(p);
    }
    assert(spec_read_files(w, dl, p.files@.len() as int, has_ts, (28 + dl + il) as u64) == Ok::<
        (Seq<FileEntryV>, int, u64),
        RLibError,
    >((spec_entries_of(p.files@, has_ts, 28 + dl + il), dl + il, out.len() as u64))) by {
        lemma_files_parse_of(p);
    }
}


/// The body parse of a written Pack that has dependencies or files.
#[verifier::rlimit(100)]
#[verifier::spinoff_prover]
proof fn lemma_read_body_parts(p: Pack)
    requires
        p.header.bitmask & 0xF == 0,
        p.header.file_type < 0x10,
        !spec_has_flag(p.header.bitmask, PFH_FLAG_HAS_ENCRYPTED_INDEX),
        !spec_has_flag(p.header.bitmask, PFH_FLAG_HAS_ENCRYPTED_DATA),
        !spec_has_flag(p.header.bitmask, PFH_FLAG_HAS_EXTENDED_HEADER),
        forall|i: int| 0 <= i < p.files@.len() ==> file_encodable(#[trigger] p.files@[i]),
        forall|i: int| 0 <= i < p.dependencies@.len() ==> no_nul(#[trigger] p.dependencies@[i]@),
        p.files@.len() < 0x100000000,
        p.dependencies@.len() < 0x100000000,
        p.header.timestamp < 0x100000000,
        spec_pfh4_bytes(p).len() < 0x100000000,
        spec_deps_bytes(str_views(p.dependencies@)).len() + spec_files_index_bytes(
            p.files@,
            spec_has_flag(p.header.bitmask, PFH_FLAG_HAS_INDEX_WITH_TIMESTAMPS),
        ).len() != 0,
    ensures
        ({
            let out = spec_pfh4_bytes(p);
            let has_ts = spec_has_flag(p.header.bitmask, PFH_FLAG_HAS_INDEX_WITH_TIMESTAMPS);
            let deps_bytes = spec_deps_bytes(str_views(p.dependencies@));
            let index_bytes = spec_files_index_bytes(p.files@, has_ts);
            spec_read_pfh4(out, 8, p.header.bitmask) == Ok::<PackParseV, RLibError>(
                (
                    p.header.timestamp,
                    str_views(p.dependencies@),
                    spec_entries_of(
                        p.files@,
                        has_ts,
                        28 + deps_bytes.len() + index_bytes.len() as int,
                    ),
                    out.len() as u64,
                ),
            )
        }),
{
    let out = spec_pfh4_bytes(p);
    let has_ts = spec_has_flag(p.header.bitmask, PFH_FLAG_HAS_INDEX_WITH_TIMESTAMPS);
    let deps = str_views(p.dependencies@);
    let dl = spec_deps_bytes(deps).len() as int;
    let il = spec_files_index_bytes(p.files@, has_ts).len() as int;
    let w = out.subrange(28, 28 + dl + il);
    lemma_read_body_facts(p);
    lemma_assemble_parse(
        out,
        p.header.bitmask,
        dl,
        il,
        spec_files_data_bytes(p.files@).len() as int,
        w,
        (p.header.timestamp % 0x100000000) as u32,
        deps,
        spec_entries_of(p.files@, has_ts, 28 + dl + il),
    );
}

/// The body parse of a written Pack with no dependencies and no files.
#[verifier::rlimit(100)]
#[verifier::spinoff_prover]
proof fn lemma_read_body_empty(p: Pack)
    requires
        p.header.bitmask & 0xF == 0,
        p.header.file_type < 0x10,
        !spec_has_flag(p.header.bitmask, PFH_FLAG_HAS_ENCRYPTED_INDEX),
        !spec_has_flag(p.header.bitmask, PFH_FLAG_HAS_ENCRYPTED_DATA),
        !spec_has_flag(p.header.bitmask, PFH_FLAG_HAS_EXTENDED_HEADER),
        forall|i: int| 0 <= i < p.files@.len() ==> file_encodable(#[trigger] p.files@[i]),
        forall|i: int| 0 <= i < p.dependencies@.len() ==> no_nul(#[trigger] p.dependencies@[i]@),
        p.files@.len() < 0x100000000,
        p.dependencies@.len() < 0x100000000,
        p.header.timestamp < 0x100000000,
        spec_pfh4_bytes(p).len() < 0x100000000,
        spec_deps_bytes(str_views(p.dependencies@)).len() + spec_files_index_bytes(
            p.files@,
            spec_has_flag(p.header.bitmask, PFH_FLAG_HAS_INDEX_WITH_TIMESTAMPS),
        ).len() == 0,
    ensures
        ({
            let out = spec_pfh4_bytes(p);
            let has_ts = spec_has_flag(p.header.bitmask, PFH_FLAG_HAS_INDEX_WITH_TIMESTAMPS);
            let deps_bytes = spec_deps_bytes(str_views(p.dependencies@));
            let index_bytes = spec_files_index_bytes(p.files@, has_ts);
            spec_read_pfh4(out, 8, p.header.bitmask) == Ok::<PackParseV, RLibError>(
                (
                    p.header.timestamp,
                    str_views(p.dependencies@),
                    spec_entries_of(
                        p.files@,
                        has_ts,
                        28 + deps_bytes.len() + index_bytes.len() as int,
                    ),
                    out.len() as u64,
                ),
            )
        }),
{
    let out = spec_pfh4_bytes(p);
    let has_ts = spec_has_flag(p.header.bitmask, PFH_FLAG_HAS_INDEX_WITH_TIMESTAMPS);
    let deps = str_views(p.dependencies@);
    let deps_bytes = spec_deps_bytes(deps);
    let index_bytes = spec_files_index_bytes(p.files@, has_ts);
    let data_bytes = spec_files_data_bytes(p.files@);
    let dl = deps_bytes.len() as int;
    let il = index_bytes.len() as int;
    lemma_pfh4_header_words(p);
    lemma_total_size_is_data_len(p.files@);

        assert(p.dependencies@.len() == 0) by {
            if p.dependencies@.len() > 0 {
                assert(deps_bytes == encode_utf8(deps[0]) + seq![0u8] + spec_deps_bytes(
                    deps.drop_first(),
                ));
            }
        }
        assert(p.files@.len() == 0) by {
            if p.files@.len() > 0 {
                assert(index_bytes == spec_entry_bytes(p.files@[0], has_ts)
                    + spec_files_index_bytes(p.files@.drop_first(), has_ts));
                assert(spec_entry_bytes(p.files@[0], has_ts).len() >= 4);
            }
        }
        let w = Seq::<u8>::empty();
        reveal(spec_read_deps);
        reveal(spec_read_files);
        assert(deps =~= Seq::<Seq<char>>::empty());
        assert(spec_read_deps(w, 0, 0) == (Seq::<Seq<char>>::empty(), 0int));
        assert(spec_entries_of(p.files@, has_ts, 28) =~= Seq::<FileEntryV>::empty());
        assert(data_bytes.len() == 0);
        assert(spec_read_files(w, 0, 0, has_ts, 28u64) == Ok::<
            (Seq<FileEntryV>, int, u64),
            RLibError,
        >((Seq::empty(), 0int, 28u64)));
        lemma_assemble_parse(
            out,
            p.header.bitmask,
            0,
            0,
            0,
            w,
            (p.header.timestamp % 0x100000000) as u32,
            deps,
            spec_entries_of(p.files@, has_ts, 28),
        );
}

/// The body parse of the written bytes succeeds and yields the timestamp,
/// the dependency paths and one entry per file.
#[verifier::rlimit(100)]
#[verifier::spinoff_prover]
pub proof fn lemma_read_pfh4_of_bytes(p: Pack)
    requires
        p.header.bitmask & 0xF == 0,
        p.header.file_type < 0x10,
        !spec_has_flag(p.header.bitmask, PFH_FLAG_HAS_ENCRYPTED_INDEX),
        !spec_has_flag(p.header.bitmask, PFH_FLAG_HAS_ENCRYPTED_DATA),
        !spec_has_flag(p.header.bitmask, PFH_FLAG_HAS_EXTENDED_HEADER),
        forall|i: int| 0 <= i < p.files@.len() ==> file_encodable(#[trigger] p.files@[i]),
        forall|i: int| 0 <= i < p.dependencies@.len() ==> no_nul(#[trigger] p.dependencies@[i]@),
        p.files@.len() < 0x100000000,
        p.dependencies@.len() < 0x100000000,
        p.header.timestamp < 0x100000000,
        spec_pfh4_bytes(p).len() < 0x100000000,
    ensures
        ({
            let out = spec_pfh4_bytes(p);
            let has_ts = spec_has_flag(p.header.bitmask, PFH_FLAG_HAS_INDEX_WITH_TIMESTAMPS);
            let deps_bytes = spec_deps_bytes(str_views(p.dependencies@));
            let index_bytes = spec_files_index_bytes(p.files@, has_ts);
            spec_read_pfh4(out, 8, p.header.bitmask) == Ok::<PackParseV, RLibError>(
                (
                    p.header.timestamp,
                    str_views(p.dependencies@),
                    spec_entries_of(
                        p.files@,
                        has_ts,
                        28 + deps_bytes.len() + index_bytes.len() as int,
                    ),
                    out.len() as u64,
                ),
            )
        }),
{
    if spec_deps_bytes(str_views(p.dependencies@)).len() + spec_files_index_bytes(
        p.files@,
        spec_has_flag(p.header.bitmask, PFH_FLAG_HAS_INDEX_WITH_TIMESTAMPS),
    ).len() != 0 {
        lemma_read_body_parts(p);
    } else {
        lemma_read_body_empty(p);
    }
}

/// The whole round trip: decoding the bytes the writer emits for a Pack
/// with no encryption, no compression and no extended header yields its
/// header word, its timestamp, its dependency paths, and one file entry
/// per file, sized and placed exactly where its bytes were written.
#[verifier::rlimit(100)]
#[verifier::spinoff_prover]
pub proof fn lemma_pfh4_round_trip(p: Pack)
    requires
        p.header.bitmask & 0xF == 0,
        p.header.file_type < 0x10,
        !spec_has_flag(p.header.bitmask, PFH_FLAG_HAS_ENCRYPTED_INDEX),
        !spec_has_flag(p.header.bitmask, PFH_FLAG_HAS_ENCRYPTED_DATA),
        !spec_has_flag(p.header.bitmask, PFH_FLAG_HAS_EXTENDED_HEADER),
        forall|i: int| 0 <= i < p.files@.len() ==> file_encodable(#[trigger] p.files@[i]),
        forall|i: int| 0 <= i < p.dependencies@.len() ==> no_nul(#[trigger] p.dependencies@[i]@),
        p.files@.len() < 0x100000000,
        p.dependencies@.len() < 0x100000000,
        p.header.timestamp < 0x100000000,
        spec_pfh4_bytes(p).len() < 0x100000000,
    ensures
        ({
            let out = spec_pfh4_bytes(p);
            let has_ts = spec_has_flag(p.header.bitmask, PFH_FLAG_HAS_INDEX_WITH_TIMESTAMPS);
            let deps_bytes = spec_deps_bytes(str_views(p.dependencies@));
            let index_bytes = spec_files_index_bytes(p.files@, has_ts);
            spec_decode_pack(out) == Ok::<(u32, PackParseV), RLibError>(
                (
                    p.header.bitmask | p.header.file_type,
                    (
                        p.header.timestamp,
                        str_views(p.dependencies@),
                        spec_entries_of(
                            p.files@,
                            has_ts,
                            28 + deps_bytes.len() + index_bytes.len() as int,
                        ),
                        out.len() as u64,
                    ),
                ),
            )
        }),
{
    let out = spec_pfh4_bytes(p);
    lemma_pfh4_header_words(p);
    lemma_word_split(p.header.bitmask, p.header.file_type);
    lemma_read_pfh4_of_bytes(p);
    let word = p.header.bitmask | p.header.file_type;
    assert(out.len() >= 8);
    assert(out.subrange(0, 4) == spec_pfh4_marker());
    assert(spec_u32_le(out, 4) == word);
    assert(word & 0xFFFFFFF0 == p.header.bitmask);
}

/// Cutting a concatenation at its seam recovers the parts.
pub proof fn lemma_concat_parts(x: Seq<u8>, y: Seq<u8>)
    ensures
        (x + y).subrange(0, (x + y).len() as int) == x + y,
        (x + y).subrange(x.len() as int, (x + y).len() as int) == y + Seq::<u8>::empty(),
{
    assert((x + y).subrange(0, (x + y).len() as int) =~= x + y);
    assert((x + y).subrange(x.len() as int, (x + y).len() as int) =~= y + Seq::<u8>::empty());
}

/// The remaining halves of the round trip: every parsed entry's byte range
/// in the written stream holds exactly its file's original bytes, and when
/// the Pack's paths are unique the last-write-wins fold the reader applies
/// returns the parsed entries unchanged.
#[verifier::rlimit(100)]
#[verifier::spinoff_prover]
pub proof fn lemma_pfh4_round_trip_contents(p: Pack)
    requires
        forall|i: int| 0 <= i < p.files@.len() ==> file_encodable(#[trigger] p.files@[i]),
        forall|i: int| 0 <= i < p.dependencies@.len() ==> no_nul(#[trigger] p.dependencies@[i]@),
        spec_pfh4_bytes(p).len() < 0x100000000,
    ensures
        ({
            let out = spec_pfh4_bytes(p);
            let has_ts = spec_has_flag(p.header.bitmask, PFH_FLAG_HAS_INDEX_WITH_TIMESTAMPS);
            let dl = spec_deps_bytes(str_views(p.dependencies@)).len() as int;
            let il = spec_files_index_bytes(p.files@, has_ts).len() as int;
            let entries = spec_entries_of(p.files@, has_ts, 28 + dl + il);
            &&& (forall|i: int|
                0 <= i < p.files@.len() ==> {
                    let e = #[trigger] entries[i];
                    out.subrange(e.3 as int, e.3 + e.2) == resident_bytes(p.files@[i])
                })
            &&& (p.wf() ==> spec_fold_entries(entries) == entries)
        }),
{
    let out = spec_pfh4_bytes(p);
    let has_ts = spec_has_flag(p.header.bitmask, PFH_FLAG_HAS_INDEX_WITH_TIMESTAMPS);
    let dl = spec_deps_bytes(str_views(p.dependencies@)).len() as int;
    let il = spec_files_index_bytes(p.files@, has_ts).len() as int;
    let entries = spec_entries_of(p.files@, has_ts, 28 + dl + il);
    lemma_pfh4_data_region(p);
    lemma_total_size_is_data_len(p.files@);
    lemma_data_contents(out, p.files@, has_ts, 28 + dl + il);
    lemma_entries_paths(p.files@, has_ts, 28 + dl + il);
    if p.wf() {
        assert(forall|i: int, j: int|
            0 <= i < j < entries.len() ==> entries[i].0 != entries[j].0);
        lemma_fold_entries_unique(entries);
    }
}

/// Splitting the header word recovers its two parts.
pub proof fn lemma_word_split(bm: u32, ft: u32)
    by (bit_vector)
    requires
        bm & 0xF == 0,
        ft < 0x10,
    ensures
        (bm | ft) & 0xFFFFFFF0 == bm,
        (bm | ft) & 0xF == ft,
{
}

/// The dependency index inside the written stream parses back to the
/// dependency paths, ending where the file index begins.
#[verifier::rlimit(100)]
#[verifier::spinoff_prover]
proof fn lemma_deps_parse_of(p: Pack)
    requires
        forall|i: int| 0 <= i < p.files@.len() ==> file_encodable(#[trigger] p.files@[i]),
        forall|i: int| 0 <= i < p.dependencies@.len() ==> no_nul(#[trigger] p.dependencies@[i]@),
        p.files@.len() < 0x100000000,
        p.dependencies@.len() < 0x100000000,
        spec_pfh4_bytes(p).len() < 0x100000000,
        spec_deps_bytes(str_views(p.dependencies@)).len() + spec_files_index_bytes(
            p.files@,
            spec_has_flag(p.header.bitmask, PFH_FLAG_HAS_INDEX_WITH_TIMESTAMPS),
        ).len() != 0,
    ensures
        ({
            let out = spec_pfh4_bytes(p);
            let has_ts = spec_has_flag(p.header.bitmask, PFH_FLAG_HAS_INDEX_WITH_TIMESTAMPS);
            let dl = spec_deps_bytes(str_views(p.dependencies@)).len() as int;
            let il = spec_files_index_bytes(p.files@, has_ts).len() as int;
            spec_read_deps(
                out.subrange(28, 28 + dl + il),
                0,
                p.dependencies@.len() as int,
            ) == (str_views(p.dependencies@), dl)
        }),
{
    let out = spec_pfh4_bytes(p);
    let has_ts = spec_has_flag(p.header.bitmask, PFH_FLAG_HAS_INDEX_WITH_TIMESTAMPS);
    let deps = str_views(p.dependencies@);
    let deps_bytes = spec_deps_bytes(deps);
    let index_bytes = spec_files_index_bytes(p.files@, has_ts);
    let dl = deps_bytes.len() as int;
    let il = index_bytes.len() as int;
    lemma_pfh4_header_words(p);
    let w = out.subrange(28, 28 + dl + il);
    assert(w == deps_bytes + index_bytes);
    lemma_concat_parts(deps_bytes, index_bytes);
    assert(w.subrange(0, w.len() as int) == deps_bytes + index_bytes);
    lemma_read_deps_of_bytes(w, 0, deps, index_bytes);
}

/// The file index inside the written stream parses back to one entry per
/// file, ending at the data region whose end is the stream's end.
#[verifier::rlimit(100)]
#[verifier::spinoff_prover]
proof fn lemma_files_parse_of(p: Pack)
    requires
        forall|i: int| 0 <= i < p.files@.len() ==> file_encodable(#[trigger] p.files@[i]),
        forall|i: int| 0 <= i < p.dependencies@.len() ==> no_nul(#[trigger] p.dependencies@[i]@),
        p.files@.len() < 0x100000000,
        p.dependencies@.len() < 0x100000000,
        spec_pfh4_bytes(p).len() < 0x100000000,
        spec_deps_bytes(str_views(p.dependencies@)).len() + spec_files_index_bytes(
            p.files@,
            spec_has_flag(p.header.bitmask, PFH_FLAG_HAS_INDEX_WITH_TIMESTAMPS),
        ).len() != 0,
    ensures
        ({
            let out = spec_pfh4_bytes(p);
            let has_ts = spec_has_flag(p.header.bitmask, PFH_FLAG_HAS_INDEX_WITH_TIMESTAMPS);
            let dl = spec_deps_bytes(str_views(p.dependencies@)).len() as int;
            let il = spec_files_index_bytes(p.files@, has_ts).len() as int;
            spec_read_files(
                out.subrange(28, 28 + dl + il),
                dl,
                p.files@.len() as int,
                has_ts,
                (28 + dl + il) as u64,
            ) == Ok::<(Seq<FileEntryV>, int, u64), RLibError>(
                (spec_entries_of(p.files@, has_ts, 28 + dl + il), dl + il, out.len() as u64),
            )
        }),
{
    let out = spec_pfh4_bytes(p);
    let has_ts = spec_has_flag(p.header.bitmask, PFH_FLAG_HAS_INDEX_WITH_TIMESTAMPS);
    let deps = str_views(p.dependencies@);
    let deps_bytes = spec_deps_bytes(deps);
    let index_bytes = spec_files_index_bytes(p.files@, has_ts);
    let data_bytes = spec_files_data_bytes(p.files@);
    let dl = deps_bytes.len() as int;
    let il = index_bytes.len() as int;
    lemma_pfh4_header_words(p);
    lemma_total_size_is_data_len(p.files@);
    let w = out.subrange(28, 28 + dl + il);
    assert(w == deps_bytes + index_bytes);
    lemma_concat_parts(deps_bytes, index_bytes);
    assert(w.subrange(dl, w.len() as int) == index_bytes + Seq::<u8>::empty());
    lemma_read_files_of_bytes(w, dl, p.files@, has_ts, (28 + dl + il) as u64, Seq::empty());
}

/// Everything the full Pack decode yields: the header word and the body
/// parse./// Everything the full Pack decode yields: the header word and the body
/// parse.
pub open spec fn spec_decode_pack(data: Seq<u8>) -> Result<(u32, PackParseV), RLibError> {
    if data.len() < 4 || data.subrange(0, 4) != spec_pfh4_marker() {
        Err(RLibError::PackVersionNotSupported)
    } else if data.len() < 8 {
        Err(spec_header_word_err(data.len(), 4))
    } else {
        let word = spec_u32_le(data, 4);
        match spec_read_pfh4(data, 8, word & 0xFFFFFFF0) {
            Ok(p) => Ok((word, p)),
            Err(e) => Err(e),
        }
    }
}

} // verus!
