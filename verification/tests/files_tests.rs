//! Runtime checks of the table model, the matched-combat header and
//! definitions, images, AnimPacks, and the text helpers.

use rpfm_core::animpack::{AnimPack, FileType};
use rpfm_core::error::RLibError;
use rpfm_core::image::Image;
use rpfm_core::matched_combat::{check_size_mismatch, MatchedCombat};
use rpfm_core::pack::{RFile, RFileData};
use rpfm_core::strings::{latin1_to_string, lowercase, string_from_utf16, string_from_utf8};
use rpfm_core::table::{
    clone_row, eq_cell, eq_row, DecodedData, FieldType, ScalarData, Table,
};

#[test]
fn matched_combat_header() {
    let mut bytes = Vec::new();
    bytes.extend_from_slice(&1i32.to_le_bytes());
    bytes.extend_from_slice(&7u32.to_le_bytes());
    assert_eq!(MatchedCombat::read_header(&bytes), Ok((1, 7)));
    assert_eq!(
        MatchedCombat::read_header(&bytes[..7]),
        Err(RLibError::NotAMatchedCombatTable)
    );
}

#[test]
fn matched_combat_definition_shape() {
    let definition = MatchedCombat::new_definition(1);
    assert_eq!(definition.version, 1);
    assert_eq!(definition.fields.len(), 12);
    assert_eq!(definition.fields[0].name, "unit_1_uk_1");
    assert!(matches!(definition.fields[0].field_type, FieldType::SequenceU32(_)));
    assert_eq!(definition.fields[4].name, "unit_1_key");
    assert_eq!(definition.fields[4].default_value.as_deref(), Some("PLACEHOLDER"));
    assert!(definition.fields[4].is_key);
    assert!(!definition.fields[5].is_key);
    assert_eq!(definition.fields[11].name, "unit_2_text");

    let other = MatchedCombat::new_definition(3);
    assert_eq!(other.version, 3);
    assert_eq!(other.fields.len(), 12);
}

#[test]
fn matched_combat_unknown_version_is_typed() {
    assert!(MatchedCombat::new_definition_checked(1).is_ok());
    assert!(MatchedCombat::new_definition_checked(3).is_ok());
    assert_eq!(
        MatchedCombat::new_definition_checked(2).err(),
        Some(RLibError::UnsupportedTableVersion(2))
    );
}

#[test]
fn size_mismatch_is_typed() {
    assert!(check_size_mismatch(14, 14).is_ok());
    assert_eq!(
        check_size_mismatch(12, 14).err(),
        Some(RLibError::SizeMismatch { expected: 14, found: 12 })
    );
}

#[test]
fn matched_combat_accessors() {
    let mc = MatchedCombat::new(MatchedCombat::new_definition(1));
    assert_eq!(mc.definition().fields.len(), 12);
    assert!(mc.data().is_empty());
    let from_table = MatchedCombat::from(Table::new(MatchedCombat::new_definition(3)));
    assert_eq!(from_table.definition().version, 3);
}

#[test]
fn default_row_follows_definition() {
    let table = Table::new(MatchedCombat::new_definition(1));
    let row = table.new_row();
    assert_eq!(row.len(), 12);
    assert!(eq_cell(&row[1], &DecodedData::I32(0)));
    assert!(eq_cell(&row[4], &DecodedData::StringU8("PLACEHOLDER".to_string())));
    assert!(eq_cell(&row[0], &DecodedData::SequenceU32(Vec::new())));
}

#[test]
fn row_equality_is_deep() {
    let a = vec![
        DecodedData::SequenceU32(vec![vec![ScalarData::I32(1), ScalarData::StringU8("x".into())]]),
        DecodedData::Boolean(true),
    ];
    let b = clone_row(&a);
    assert!(eq_row(&a, &b));
    let c = vec![
        DecodedData::SequenceU32(vec![vec![ScalarData::I32(2), ScalarData::StringU8("x".into())]]),
        DecodedData::Boolean(true),
    ];
    assert!(!eq_row(&a, &c));
    assert!(!eq_cell(&DecodedData::I32(1), &DecodedData::I64(1)));
}

#[test]
fn image_keeps_its_bytes() {
    let img = Image::decode(b"not really a png").unwrap();
    assert_eq!(img.get_data(), b"not really a png");
}

#[test]
fn animpack_round_trip() {
    let ap = AnimPack {
        files: vec![
            RFile {
                path: "anim/a.bin".to_string(),
                timestamp: 0,
                data: RFileData::Resident(b"aaaa".to_vec()),
            },
            RFile {
                path: "anim/b.bin".to_string(),
                timestamp: 0,
                data: RFileData::Resident(b"bb".to_vec()),
            },
        ],
    };
    assert_eq!(ap.file_type(), FileType::AnimPack);
    let mut bytes = Vec::new();
    ap.encode(&mut bytes).unwrap();
    let back = AnimPack::decode(&bytes).unwrap();
    assert_eq!(back.files().len(), 2);
    assert_eq!(back.files()[0].path, "anim/a.bin");
    match &back.files()[1].data {
        RFileData::Resident(d) => assert_eq!(d, b"bb"),
        _ => panic!("resident expected"),
    }
}

#[test]
fn animpack_duplicate_paths_keep_last() {
    let mut bytes = Vec::new();
    bytes.extend_from_slice(&2u32.to_le_bytes());
    for payload in [b"one" as &[u8], b"two"] {
        bytes.extend_from_slice(&3u16.to_le_bytes());
        bytes.extend_from_slice(b"a.x");
        bytes.extend_from_slice(&(payload.len() as u32).to_le_bytes());
        bytes.extend_from_slice(payload);
    }
    let ap = AnimPack::decode(&bytes).unwrap();
    assert_eq!(ap.files().len(), 1);
    match &ap.files()[0].data {
        RFileData::Resident(d) => assert_eq!(d, b"two"),
        _ => panic!("resident expected"),
    }
}

#[test]
fn animpack_truncated_stream_fails() {
    let mut bytes = Vec::new();
    bytes.extend_from_slice(&1u32.to_le_bytes());
    bytes.extend_from_slice(&9u16.to_le_bytes());
    bytes.extend_from_slice(b"cut");
    assert!(AnimPack::decode(&bytes).is_err());
    assert!(AnimPack::decode(&[1, 0]).is_err());
}

#[test]
fn latin1_and_lowercase_helpers_transform_their_input() {
    assert_eq!(latin1_to_string(&[0x41, 0xE9]), "A\u{e9}");
    // A helper that handed its argument back unchanged would fail both of
    // these.
    assert_eq!(lowercase("AbC"), "abc");
    assert_eq!(string_from_utf16(&[0xD800]), None);
    let units: Vec<u16> = "\u{1F600}".encode_utf16().collect();
    assert_eq!(string_from_utf16(&units).as_deref(), Some("\u{1F600}"));
    assert_eq!(string_from_utf8(vec![0xC3, 0xA9]).as_deref(), Some("é"));
    assert_eq!(string_from_utf8(vec![0xFF]), None);
}
