//! Runtime checks of the PFH4 container codec, the full write-then-read
//! round trip among them.

use rpfm_core::error::RLibError;
use rpfm_core::pack::{
    EncodeableExtraData, Pack, RFile, RFileData, PFH_FLAG_HAS_ENCRYPTED_INDEX,
    PFH_FLAG_HAS_INDEX_WITH_TIMESTAMPS,
};

fn resident(path: &str, timestamp: u64, bytes: &[u8]) -> RFile {
    RFile {
        path: path.to_string(),
        timestamp,
        data: RFileData::Resident(bytes.to_vec()),
    }
}

fn test_extra() -> Option<EncodeableExtraData> {
    Some(EncodeableExtraData { test_mode: true, current_time: 0 })
}

#[test]
fn round_trip_plain_pack() {
    let mut pack = Pack::new();
    pack.header.file_type = 3;
    pack.header.timestamp = 1234;
    pack.dependencies.push("base.pack".to_string());
    pack.dependencies.push("extra.pack".to_string());
    pack.add_file(resident("zz/later.txt", 0, b"second"));
    pack.add_file(resident("aa/first.txt", 0, b"first!"));

    let mut bytes = Vec::new();
    pack.write_pfh4(&mut bytes, &test_extra()).unwrap();

    let decoded = Pack::decode(&bytes).unwrap();
    assert_eq!(decoded.header.bitmask, 0);
    assert_eq!(decoded.header.file_type, 3);
    assert_eq!(decoded.header.timestamp, 1234);
    assert_eq!(decoded.dependencies, vec!["base.pack".to_string(), "extra.pack".to_string()]);

    // Files come back in case-insensitive path order, as lazy ranges whose
    // bytes in the stream are the original contents.
    assert_eq!(decoded.files.len(), 2);
    assert_eq!(decoded.files[0].path, "aa/first.txt");
    assert_eq!(decoded.files[1].path, "zz/later.txt");
    for (file, expected) in decoded.files.iter().zip([b"first!", b"second"]) {
        match file.data {
            RFileData::Lazy { offset, size } => {
                let o = offset as usize;
                assert_eq!(&bytes[o..o + size as usize], expected);
            },
            _ => panic!("decoded files must be lazy"),
        }
    }
}

#[test]
fn round_trip_with_index_timestamps() {
    let mut pack = Pack::new();
    pack.header.bitmask = PFH_FLAG_HAS_INDEX_WITH_TIMESTAMPS;
    pack.add_file(resident("a.bin", 42, b"xyz"));
    let mut bytes = Vec::new();
    pack.write_pfh4(&mut bytes, &test_extra()).unwrap();
    let decoded = Pack::decode(&bytes).unwrap();
    assert_eq!(decoded.files.len(), 1);
    assert_eq!(decoded.files[0].timestamp, 42);
}

#[test]
fn add_file_last_write_wins() {
    let mut pack = Pack::new();
    pack.add_file(resident("same.txt", 0, b"one"));
    pack.add_file(resident("same.txt", 0, b"two"));
    assert_eq!(pack.files.len(), 1);
    match &pack.files[0].data {
        RFileData::Resident(d) => assert_eq!(d, b"two"),
        _ => panic!("resident expected"),
    }
}

#[test]
fn sorting_is_case_insensitive() {
    let mut pack = Pack::new();
    pack.add_file(resident("B.txt", 0, b""));
    pack.add_file(resident("a.txt", 0, b""));
    let mut bytes = Vec::new();
    pack.write_pfh4(&mut bytes, &test_extra()).unwrap();
    assert_eq!(pack.files[0].path, "a.txt");
    assert_eq!(pack.files[1].path, "B.txt");
}

#[test]
fn timestamp_refresh_outside_test_mode() {
    let mut pack = Pack::new();
    pack.header.timestamp = 10;
    let mut bytes = Vec::new();
    let extra = Some(EncodeableExtraData { test_mode: false, current_time: 777 });
    pack.write_pfh4(&mut bytes, &extra).unwrap();
    assert_eq!(pack.header.timestamp, 777);
}

#[test]
fn bad_marker_is_unsupported() {
    assert_eq!(Pack::decode(b"NOPE1234").err(), Some(RLibError::PackVersionNotSupported));
    assert_eq!(Pack::decode(b"PF").err(), Some(RLibError::PackVersionNotSupported));
}

#[test]
fn encrypted_pack_is_rejected() {
    let mut pack = Pack::new();
    let mut bytes = Vec::new();
    pack.write_pfh4(&mut bytes, &test_extra()).unwrap();
    let mut raw = Vec::new();
    raw.extend_from_slice(b"PFH4");
    let word: u32 = PFH_FLAG_HAS_ENCRYPTED_INDEX;
    raw.extend_from_slice(&word.to_le_bytes());
    raw.extend_from_slice(&bytes[8..]);
    assert_eq!(Pack::decode(&raw).err(), Some(RLibError::PackEncryptionNotSupported));
}

#[test]
fn truncated_header_is_incomplete() {
    let mut raw = Vec::new();
    raw.extend_from_slice(b"PFH4");
    raw.extend_from_slice(&0u32.to_le_bytes());
    raw.extend_from_slice(&[0u8; 12]);
    // Twenty header bytes were declared but only twelve are here.
    assert!(Pack::decode(&raw).is_err());
}

#[test]
fn load_lazy_data_enables_reencoding() {
    let mut pack = Pack::new();
    pack.add_file(resident("a.txt", 0, b"alpha"));
    pack.add_file(resident("b.txt", 0, b"beta"));
    let mut bytes = Vec::new();
    pack.write_pfh4(&mut bytes, &test_extra()).unwrap();

    // Decode yields lazy ranges; loading them from the source makes the
    // Pack writable again, byte for byte.
    let mut decoded = Pack::decode(&bytes).unwrap();
    decoded.load_lazy_data(&bytes).unwrap();
    match &decoded.files[0].data {
        RFileData::Resident(d) => assert_eq!(d, b"alpha"),
        _ => panic!("loaded files must be resident"),
    }
    let mut again = Vec::new();
    decoded.write_pfh4(&mut again, &test_extra()).unwrap();
    assert_eq!(bytes, again);
}

#[test]
fn load_lazy_data_rejects_short_source() {
    let mut pack = Pack::new();
    pack.add_file(RFile {
        path: "far.bin".to_string(),
        timestamp: 0,
        data: RFileData::Lazy { offset: 100, size: 8 },
    });
    let short = [0u8; 16];
    assert_eq!(pack.load_lazy_data(&short), Err(RLibError::NotMoreBytesToDecode));
    assert!(matches!(pack.files[0].data, RFileData::Lazy { .. }));
}

#[test]
fn lazy_file_cannot_be_encoded() {
    let mut pack = Pack::new();
    pack.add_file(RFile {
        path: "late.bin".to_string(),
        timestamp: 0,
        data: RFileData::Lazy { offset: 0, size: 4 },
    });
    let mut bytes = Vec::new();
    assert_eq!(pack.write_pfh4(&mut bytes, &test_extra()), Err(RLibError::LazyDataNotLoaded));
    assert!(bytes.is_empty());
}
