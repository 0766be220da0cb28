//! AnimPacks: a light container of files, usually animation tables. The
//! stream is a file count followed by, for each file, a length-prefixed
//! path, a byte count, and the bytes themselves; every file is resident.

use vstd::prelude::*;

use vstd::utf8::{decode_utf8, encode_utf8, valid_utf8};

use crate::decoder::{
    decode_bytes_checked, decode_packedfile_integer_u32, decode_packedfile_string_u8,
    decode_integer_u32, spec_shortfall, spec_sized_u8_ok, spec_sized_u8_window, spec_u16_le,
    spec_u32_le,
};
use crate::encoder::{spec_u16_bytes, spec_u32_bytes, write_all, write_sized_string_u8, write_u32};
use crate::error::{DataKind, RLibError};
use crate::pack::{insert_file, resident_bytes, wf_files, Pack, RFile, RFileData};

verus! {

/// The kinds of file this library tells apart.
#[derive(Clone, Copy, Debug, PartialEq, Eq, Structural)]
pub enum FileType {
    /// An animation container.
    AnimPack,
    /// A regular table.
    DB,
    /// A localisation table.
    Loc,
    /// An image.
    Image,
    /// A matched-combat table.
    MatchedCombat,
    /// A Pack container.
    Pack,
    /// Anything else.
    Unknown,
}

/// A decoded AnimPack: its files, keyed by path with last write winning.
#[derive(Debug)]
pub struct AnimPack {
    /// The files, all resident.
    pub files: Vec<RFile>,
}

/// What one parsed AnimPack entry contributes: its path and its bytes.
pub type AnimEntryV = (Seq<char>, Seq<u8>);

/// The resident view of a file: its path and its bytes.
pub open spec fn res_view(f: RFile) -> AnimEntryV {
    (f.path@, resident_bytes(f))
}

/// The resident views of a file list.
pub open spec fn res_views(files: Seq<RFile>) -> Seq<AnimEntryV> {
    files.map(|_i: int, f: RFile| res_view(f))
}

/// Index of the parsed entry with the given path, or -1.
pub open spec fn spec_find_anim(entries: Seq<AnimEntryV>, path: Seq<char>) -> int
    decreases entries.len(),
{
    if entries.len() == 0 {
        -1
    } else if entries[0].0 == path {
        0
    } else {
        let rest = spec_find_anim(entries.drop_first(), path);
        if rest == -1 {
            -1
        } else {
            1 + rest
        }
    }
}

/// Last-write-wins insertion of one parsed entry.
pub open spec fn spec_insert_anim(acc: Seq<AnimEntryV>, e: AnimEntryV) -> Seq<AnimEntryV> {
    let at = spec_find_anim(acc, e.0);
    if at == -1 {
        acc.push(e)
    } else {
        acc.update(at, e)
    }
}

/// The file list that inserting the parsed entries one by one produces.
pub open spec fn spec_fold_anim(entries: Seq<AnimEntryV>) -> Seq<AnimEntryV>
    decreases entries.len(),
{
    if entries.len() == 0 {
        Seq::empty()
    } else {
        spec_insert_anim(spec_fold_anim(entries.drop_last()), entries.last())
    }
}

/// Finding a path among files and among their resident views agree.
pub proof fn lemma_find_res_views(files: Seq<RFile>, path: Seq<char>)
    ensures
        spec_find_anim(res_views(files), path) == Pack::spec_find_file(files, path),
    decreases files.len(),
{
    if files.len() == 0 {
    } else {
        assert(res_views(files).drop_first() =~= res_views(files.drop_first()));
        assert(res_views(files)[0] == res_view(files[0]));
        lemma_find_res_views(files.drop_first(), path);
    }
}

/// The `n` AnimPack entries at `p`: each a length-prefixed UTF-8 path, a
/// 32-bit byte count and that many bytes. Fails exactly as the underlying
/// primitive reads fail.
pub open spec fn spec_read_anim_files(w: Seq<u8>, p: int, n: int) -> Result<
    (Seq<AnimEntryV>, int),
    RLibError,
>
    decreases n,
{
    if n <= 0 {
        Ok((Seq::empty(), p))
    } else if p < 0 || p + 2 > w.len() {
        Err(
            RLibError::StringSizeNotDecoded {
                kind: DataKind::StringU8,
                needed: 2,
                shortfall: spec_shortfall(w.len(), p as nat),
            },
        )
    } else if p + 2 + spec_u16_le(w, p) > w.len() {
        Err(
            RLibError::NotEnoughBytes {
                kind: DataKind::StringU8,
                needed: spec_u16_le(w, p) as usize,
                shortfall: spec_shortfall(w.len(), (p + 2) as nat),
            },
        )
    } else if !valid_utf8(spec_sized_u8_window(w, p)) {
        Err(RLibError::InvalidUtf8(DataKind::StringU8))
    } else {
        let path = decode_utf8(spec_sized_u8_window(w, p));
        let q = p + 2 + spec_u16_le(w, p);
        if q + 4 > w.len() {
            Err(
                RLibError::NotEnoughBytes {
                    kind: DataKind::U32,
                    needed: 4,
                    shortfall: spec_shortfall(w.len(), q as nat),
                },
            )
        } else {
            let count = spec_u32_le(w, q);
            if count != 0 && q + 4 + count > w.len() {
                Err(RLibError::NotMoreBytesToDecode)
            } else {
                let bytes = if count == 0 {
                    Seq::<u8>::empty()
                } else {
                    w.subrange(q + 4, q + 4 + count)
                };
                match spec_read_anim_files(w, q + 4 + count, n - 1) {
                    Ok(rest) => Ok((seq![(path, bytes)] + rest.0, rest.1)),
                    Err(e) => Err(e),
                }
            }
        }
    }
}

/// The whole AnimPack parse: the file count, then the entries.
pub open spec fn spec_read_animpack(data: Seq<u8>) -> Result<Seq<AnimEntryV>, RLibError> {
    if data.len() < 4 {
        Err(
            RLibError::NotEnoughBytes {
                kind: DataKind::U32,
                needed: 4,
                shortfall: spec_shortfall(data.len(), 0),
            },
        )
    } else {
        match spec_read_anim_files(data, 4, spec_u32_le(data, 0) as int) {
            Ok(t) => Ok(t.0),
            Err(e) => Err(e),
        }
    }
}

/// Prepends already-parsed entries onto the result of parsing the rest.
pub open spec fn spec_prepend_anim(
    pre: Seq<AnimEntryV>,
    r: Result<(Seq<AnimEntryV>, int), RLibError>,
) -> Result<(Seq<AnimEntryV>, int), RLibError> {
    match r {
        Ok(t) => Ok((pre + t.0, t.1)),
        Err(e) => Err(e),
    }
}

impl AnimPack {
    /// The kind of file an AnimPack is.
    pub fn file_type(&self) -> (r: FileType)
        ensures
            r == FileType::AnimPack,
    {
        FileType::AnimPack
    }

    /// The files.
    pub fn files(&self) -> (r: &Vec<RFile>)
        ensures
            r == &self.files,
    {
        &self.files
    }

    /// The files, writable.
    pub fn files_mut(&mut self) -> (r: &mut Vec<RFile>)
        ensures
            *r == old(self).files,
            final(self).files == *final(r),
    {
        &mut self.files
    }

    /// Decodes a whole AnimPack stream: the file count, then each file's
    /// path, byte count and bytes, kept resident in memory; a path seen
    /// twice keeps its last bytes. No partial result is returned on
    /// failure.
    #[verifier::loop_isolation(false)]
    #[verifier::rlimit(100)]
    pub fn decode(data: &[u8]) -> (r: Result<AnimPack, RLibError>)
        requires
            data@.len() + 0x10010 <= usize::MAX,
        ensures
            r is Ok <==> spec_read_animpack(data@) is Ok,
            r matches Err(e) ==> spec_read_animpack(data@) == Err::<Seq<AnimEntryV>, RLibError>(e),
            r matches Ok(ap) ==> res_views(ap.files@) == spec_fold_anim(
                spec_read_animpack(data@).unwrap(),
            ) && wf_files(ap.files@),
    {
        let count = match decode_integer_u32(data, 0) {
            Ok(v) => v,
            Err(e) => {
                return Err(e);
            },
        };
        let ghost fc = count as int;
        let mut pos: usize = 4;
        let mut files: Vec<RFile> = Vec::new();
        let ghost mut processed: Seq<AnimEntryV> = Seq::empty();
        let mut k: u32 = 0;
        while k < count
            invariant
                k <= count,
                4 <= pos <= data@.len(),
                wf_files(files@),
                res_views(files@) == spec_fold_anim(processed),
                spec_read_anim_files(data@, 4, fc) == spec_prepend_anim(
                    processed,
                    spec_read_anim_files(data@, pos as int, fc - k),
                ),
            decreases count - k,
        {
            let ghost pos0 = pos as int;
            let ghost processed0 = processed;
            let path = match decode_packedfile_string_u8(data, pos, &mut pos) {
                Ok(s) => s,
                Err(e) => {
                    return Err(e);
                },
            };
            let byte_count = match decode_packedfile_integer_u32(data, pos, &mut pos) {
                Ok(v) => v,
                Err(e) => {
                    return Err(e);
                },
            };
            let bytes = match decode_bytes_checked(data, pos, byte_count as usize) {
                Ok(b) => b,
                Err(e) => {
                    return Err(e);
                },
            };
            pos = pos + byte_count as usize;
            let ghost entry: AnimEntryV = (path@, bytes@);
            let ghost files0 = files@;
            let file = RFile { path, timestamp: 0, data: RFileData::Resident(bytes) };
            insert_file(&mut files, file);
            proof {
                assert(res_view(file) == entry);
                let sz = spec_u16_le(data@, pos0);
                let q = pos0 + 2 + sz;
                assert(fc - k >= 1);
                assert(spec_sized_u8_ok(data@, pos0));
                assert(pos0 + 2 <= data@.len() && q <= data@.len());
                assert(q + 4 <= data@.len());
                assert(byte_count == spec_u32_le(data@, q));
                assert(byte_count != 0 ==> q + 4 + byte_count <= data@.len());
                assert(entry.0 == decode_utf8(spec_sized_u8_window(data@, pos0)));
                assert(entry.1 == (if byte_count == 0 {
                    Seq::<u8>::empty()
                } else {
                    data@.subrange(q + 4, q + 4 + byte_count)
                })) by {
                    if byte_count == 0 {
                        assert(bytes@.len() == 0);
                        assert(bytes@ =~= Seq::<u8>::empty());
                    }
                }
                assert(pos as int == q + 4 + byte_count);
                assert(spec_read_anim_files(data@, pos0, fc - k) == spec_prepend_anim(
                    seq![entry],
                    spec_read_anim_files(data@, pos as int, fc - (k + 1)),
                ));
                processed = processed.push(entry);
                assert(processed.drop_last() =~= processed0);
                lemma_find_res_views(files0, entry.0);
                crate::pack::lemma_find_file_range(files0, entry.0);
                let at = Pack::spec_find_file(files0, entry.0);
                if at == -1 {
                    assert(res_views(files@) =~= res_views(files0).push(entry));
                } else {
                    assert(files@ == files0.update(at, file));
                    assert forall|x: int| 0 <= x < files@.len() implies res_views(files@)[x]
                        == res_views(files0).update(at, entry)[x] by {
                        if x == at {
                            assert(res_views(files@)[x] == res_view(file));
                        } else {
                            assert(files@[x] == files0[x]);
                        }
                    }
                    assert(res_views(files@) =~= res_views(files0).update(at, entry));
                }
                assert(res_views(files@) == spec_fold_anim(processed));
                match spec_read_anim_files(data@, pos as int, fc - (k + 1)) {
                    Ok(t) => {
                        assert(processed0 + (seq![entry] + t.0) =~= processed + t.0);
                    },
                    Err(_) => {},
                }
            }
            k = k + 1;
        }
        proof {
            assert(spec_read_anim_files(data@, pos as int, 0) == Ok::<
                (Seq<AnimEntryV>, int),
                RLibError,
            >((Seq::empty(), pos as int)));
            assert(processed + Seq::<AnimEntryV>::empty() =~= processed);
        }
        Ok(AnimPack { files })
    }

    /// The exact bytes encoding appends for one file.
    pub open spec fn spec_entry_bytes(f: RFile) -> Seq<u8> {
        spec_u16_bytes((encode_utf8(f.path@).len() % 0x10000) as u16) + encode_utf8(f.path@)
            + spec_u32_bytes((resident_bytes(f).len() % 0x100000000) as u32) + resident_bytes(f)
    }

    /// The bytes of all files in order.
    pub open spec fn spec_files_bytes(files: Seq<RFile>) -> Seq<u8>
        decreases files.len(),
    {
        if files.len() == 0 {
            Seq::empty()
        } else {
            Self::spec_entry_bytes(files[0]) + Self::spec_files_bytes(files.drop_first())
        }
    }

    /// Writes the AnimPack onto `buffer`: the file count, then each file's
    /// length-prefixed path, byte count and bytes, in stored order. A lazy
    /// entry aborts the whole write before anything lands in `buffer`.
    #[verifier::loop_isolation(false)]
    pub fn encode(&self, buffer: &mut Vec<u8>) -> (r: Result<(), RLibError>)
        ensures
            r is Ok <==> crate::pack::all_resident(self.files@),
            r matches Err(e) ==> e == RLibError::LazyDataNotLoaded && final(buffer)@ == old(
                buffer,
            )@,
            r is Ok ==> final(buffer)@ == old(buffer)@ + spec_u32_bytes(
                (self.files@.len() % 0x100000000) as u32,
            ) + Self::spec_files_bytes(self.files@),
    {
        let mut body: Vec<u8> = Vec::new();
        let n = self.files.len();
        let mut i: usize = 0;
        while i < n
            invariant
                i <= n,
                n == self.files@.len(),
                body@ == Self::spec_files_bytes(self.files@.take(i as int)),
                crate::pack::all_resident(self.files@.take(i as int)),
            decreases n - i,
        {
            let ghost done = self.files@.take(i as int);
            match &self.files[i].data {
                RFileData::Resident(d) => {
                    write_sized_string_u8(&mut body, self.files[i].path.as_str());
                    write_u32(&mut body, (d.len() as u64 % 0x100000000) as u32);
                    write_all(&mut body, d.as_slice());
                },
                RFileData::Lazy { .. } => {
                    return Err(RLibError::LazyDataNotLoaded);
                },
            }
            proof {
                Self::lemma_files_bytes_push(done, self.files@[i as int]);
                assert(done.push(self.files@[i as int]) =~= self.files@.take(i + 1 as int));
                assert(body@ =~= Self::spec_files_bytes(self.files@.take(i + 1 as int)));
            }
            i = i + 1;
        }
        proof {
            assert(self.files@.take(n as int) =~= self.files@);
        }
        write_u32(buffer, (n as u64 % 0x100000000) as u32);
        write_all(buffer, body.as_slice());
        proof {
            assert(buffer@ =~= old(buffer)@ + spec_u32_bytes(
                (self.files@.len() % 0x100000000) as u32,
            ) + Self::spec_files_bytes(self.files@));
        }
        Ok(())
    }

    /// One more file extends the encoding at its end.
    pub proof fn lemma_files_bytes_push(files: Seq<RFile>, f: RFile)
        ensures
            Self::spec_files_bytes(files.push(f)) == Self::spec_files_bytes(files)
                + Self::spec_entry_bytes(f),
        decreases files.len(),
    {
        let p = files.push(f);
        if files.len() == 0 {
            assert(p.len() == 1 && p[0] == f);
            assert(p.drop_first() =~= Seq::<RFile>::empty());
            assert(Self::spec_files_bytes(p.drop_first()) == Seq::<u8>::empty());
            assert(Self::spec_files_bytes(p) =~= Self::spec_files_bytes(files)
                + Self::spec_entry_bytes(f));
        } else {
            assert(p.len() == files.len() + 1 && p[0] == files[0]);
            assert(p.drop_first() =~= files.drop_first().push(f));
            Self::lemma_files_bytes_push(files.drop_first(), f);
            assert(Self::spec_files_bytes(p) == Self::spec_entry_bytes(p[0])
                + Self::spec_files_bytes(p.drop_first()));
            assert(Self::spec_files_bytes(files) == Self::spec_entry_bytes(files[0])
                + Self::spec_files_bytes(files.drop_first()));
            assert(Self::spec_files_bytes(p) =~= Self::spec_files_bytes(files)
                + Self::spec_entry_bytes(f));
        }
    }
}

} // verus!
