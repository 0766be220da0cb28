//! Runtime checks of the table optimization pass and the container-level
//! pass around it.

use rpfm_core::error::RLibError;
use rpfm_core::optimizer::{Dependencies, Loc, TableKind, DB};
use rpfm_core::pack::{Pack, RFile, RFileData};
use rpfm_core::table::{
    eq_row, DecodedData, Definition, Field, FieldType, Table,
};

fn field(name: &str, field_type: FieldType, is_key: bool) -> Field {
    Field { name: name.to_string(), field_type, is_key, default_value: None }
}

fn int_str_definition() -> Definition {
    Definition {
        version: 1,
        fields: vec![
            field("key", FieldType::I32, true),
            field("value", FieldType::StringU8, false),
        ],
    }
}

fn row(k: i32, v: &str) -> Vec<DecodedData> {
    vec![DecodedData::I32(k), DecodedData::StringU8(v.to_string())]
}

fn deps_with(
    table_rows: Vec<Vec<DecodedData>>,
    existing: Vec<String>,
) -> Dependencies {
    Dependencies {
        vanilla_loaded: true,
        db_tables: vec![("units".to_string(), table_rows)],
        db_unreadable: Vec::new(),
        loc_readable: true,
        loc_rows: Vec::new(),
        existing_paths: existing,
    }
}

fn db(rows: Vec<Vec<DecodedData>>) -> DB {
    DB {
        table_name: "units".to_string(),
        table: Table { definition: int_str_definition(), rows },
    }
}

#[test]
fn db_optimize_removes_reference_and_duplicate_rows() {
    // The scenario: rows [[1,"a"],[2,"b"],[1,"a"]] against reference
    // [[2,"b"]] and default [0,""] leave exactly one row [1,"a"], and the
    // table is reported non-empty.
    let mut table = db(vec![row(1, "a"), row(2, "b"), row(1, "a")]);
    let deps = deps_with(vec![row(2, "b")], Vec::new());
    let empty = table.optimize(&deps);
    assert!(!empty);
    assert_eq!(table.table.rows.len(), 1);
    assert!(eq_row(&table.table.rows[0], &row(1, "a")));
}

#[test]
fn db_optimize_removes_default_rows() {
    let mut table = db(vec![row(0, ""), row(5, "x")]);
    let deps = deps_with(Vec::new(), Vec::new());
    assert!(!table.optimize(&deps));
    assert_eq!(table.table.rows.len(), 1);
    assert!(eq_row(&table.table.rows[0], &row(5, "x")));
}

#[test]
fn db_optimize_reports_empty_table() {
    // Every row equals the default row or a reference row, so nothing
    // survives and the optimizer says so.
    let mut table = db(vec![row(0, ""), row(2, "b")]);
    let deps = deps_with(vec![row(2, "b")], Vec::new());
    assert!(table.optimize(&deps));
    assert_eq!(table.table.rows.len(), 0);
}

#[test]
fn db_optimize_sorts_by_first_key() {
    let mut table = db(vec![row(30, "c"), row(4, "a"), row(20, "b")]);
    let deps = deps_with(Vec::new(), Vec::new());
    table.optimize(&deps);
    // Textual comparison of the key column: "20" < "30" < "4".
    assert!(eq_row(&table.table.rows[0], &row(20, "b")));
    assert!(eq_row(&table.table.rows[1], &row(30, "c")));
    assert!(eq_row(&table.table.rows[2], &row(4, "a")));
}

#[test]
fn db_optimize_is_idempotent_on_this_table() {
    let mut once = db(vec![row(1, "a"), row(3, "c"), row(1, "a"), row(0, "")]);
    let deps = deps_with(vec![row(9, "z")], Vec::new());
    once.optimize(&deps);
    let mut twice = DB {
        table_name: "units".to_string(),
        table: Table {
            definition: int_str_definition(),
            rows: once.table.rows.iter().map(|r| rpfm_core::table::clone_row(r)).collect(),
        },
    };
    twice.optimize(&deps);
    assert_eq!(once.table.rows.len(), twice.table.rows.len());
    for (a, b) in once.table.rows.iter().zip(twice.table.rows.iter()) {
        assert!(eq_row(a, b));
    }
}

#[test]
fn db_optimize_removes_real_number_default_rows() {
    // The all-default row of a table with a real-number column is removed:
    // canonical forms are compared on both sides.
    let definition = Definition {
        version: 1,
        fields: vec![field("key", FieldType::F32, true)],
    };
    let mut table = DB {
        table_name: "units".to_string(),
        table: Table { definition, rows: vec![vec![DecodedData::F32(0)]] },
    };
    let deps = deps_with(Vec::new(), Vec::new());
    assert!(table.optimize(&deps));
    assert!(table.table.rows.is_empty());
}

#[test]
fn db_optimize_canonicalizes_real_numbers() {
    // A reference row carrying the textual form of a real number removes
    // the fixed-point row with that exact four-decimal rendering.
    let definition = Definition {
        version: 1,
        fields: vec![field("key", FieldType::F32, true)],
    };
    let mut table = DB {
        table_name: "units".to_string(),
        table: Table {
            definition,
            rows: vec![vec![DecodedData::F32(5000)], vec![DecodedData::F32(-12345)]],
        },
    };
    let deps = Dependencies {
        vanilla_loaded: true,
        db_tables: vec![("units".to_string(), vec![vec![DecodedData::F32(5000)]])],
        db_unreadable: Vec::new(),
        loc_readable: true,
        loc_rows: Vec::new(),
        existing_paths: Vec::new(),
    };
    assert!(!table.optimize(&deps));
    assert_eq!(table.table.rows.len(), 1);
    assert!(eq_row(&table.table.rows[0], &vec![DecodedData::F32(-12345)]));
}

#[test]
fn db_optimize_skips_unreadable_reference() {
    let mut table = db(vec![row(2, "b")]);
    let deps = Dependencies {
        vanilla_loaded: true,
        db_tables: Vec::new(),
        db_unreadable: vec!["units".to_string()],
        loc_readable: true,
        loc_rows: Vec::new(),
        existing_paths: Vec::new(),
    };
    assert!(!table.optimize(&deps));
    assert_eq!(table.table.rows.len(), 1);
}

fn loc_definition() -> Definition {
    Definition {
        version: 1,
        fields: vec![
            field("key", FieldType::StringU8, true),
            field("text", FieldType::StringU8, false),
            field("tooltip", FieldType::Boolean, false),
        ],
    }
}

fn loc_row(k: &str, v: &str) -> Vec<DecodedData> {
    vec![
        DecodedData::StringU8(k.to_string()),
        DecodedData::StringU8(v.to_string()),
        DecodedData::Boolean(false),
    ]
}

#[test]
fn loc_optimize_removes_rows_matching_reference_values() {
    let mut loc = Loc { table: Table { definition: loc_definition(), rows: vec![
        loc_row("greeting", "hello"),
        loc_row("farewell", "bye"),
    ] } };
    let deps = Dependencies {
        vanilla_loaded: true,
        db_tables: Vec::new(),
        db_unreadable: Vec::new(),
        loc_readable: true,
        loc_rows: vec![loc_row("greeting", "hello"), loc_row("farewell", "ciao")],
        existing_paths: Vec::new(),
    };
    assert!(!loc.optimize(&deps));
    assert_eq!(loc.table.rows.len(), 1);
    assert!(eq_row(&loc.table.rows[0], &loc_row("farewell", "bye")));
}

#[test]
fn loc_optimize_is_idempotent_on_this_table() {
    let deps = Dependencies {
        vanilla_loaded: true,
        db_tables: Vec::new(),
        db_unreadable: Vec::new(),
        loc_readable: true,
        loc_rows: vec![loc_row("greeting", "hello")],
        existing_paths: Vec::new(),
    };
    let mut once = Loc { table: Table { definition: loc_definition(), rows: vec![
        loc_row("zeta", "z"),
        loc_row("alpha", "a"),
        loc_row("greeting", "hello"),
        loc_row("alpha", "a"),
    ] } };
    once.optimize(&deps);
    let mut twice = Loc { table: Table {
        definition: loc_definition(),
        rows: once.table.rows.iter().map(|r| rpfm_core::table::clone_row(r)).collect(),
    } };
    twice.optimize(&deps);
    assert_eq!(once.table.rows.len(), twice.table.rows.len());
    for (a, b) in once.table.rows.iter().zip(twice.table.rows.iter()) {
        assert!(eq_row(a, b));
    }
}

fn resident(path: &str, bytes: &[u8]) -> RFile {
    RFile { path: path.to_string(), timestamp: 0, data: RFileData::Resident(bytes.to_vec()) }
}

#[test]
fn container_optimize_removes_emptied_files() {
    let mut pack = Pack::new();
    pack.add_file(resident("db/units/data", b""));
    pack.add_file(resident("db/units/keep", b""));
    let mut tables = vec![
        ("db/units/data".to_string(), TableKind::DB(db(vec![row(2, "b")]))),
        ("db/units/keep".to_string(), TableKind::DB(db(vec![row(7, "q")]))),
    ];
    let deps = deps_with(vec![row(2, "b")], Vec::new());
    let removed = pack.optimize(&mut tables, &deps, false).unwrap();
    assert_eq!(removed, vec!["db/units/data".to_string()]);
    assert_eq!(pack.files.len(), 1);
    assert_eq!(pack.files[0].path, "db/units/keep");
}

#[test]
fn container_optimize_skips_reference_paths_unless_overridden() {
    // A file whose path exists in the reference data stays untouched even
    // though its rows are identical to the reference, unless the caller
    // asks for such files too.
    let path = "db/units/data".to_string();
    let deps = deps_with(vec![row(2, "b")], vec![path.clone()]);

    let mut pack = Pack::new();
    pack.add_file(resident(&path, b""));
    let mut tables = vec![(path.clone(), TableKind::DB(db(vec![row(2, "b")])))];
    let removed = pack.optimize(&mut tables, &deps, false).unwrap();
    assert!(removed.is_empty());
    assert_eq!(pack.files.len(), 1);
    match &tables[0].1 {
        TableKind::DB(t) => assert_eq!(t.table.rows.len(), 1),
        _ => panic!("kind changed"),
    }

    let mut pack = Pack::new();
    pack.add_file(resident(&path, b""));
    let mut tables = vec![(path.clone(), TableKind::DB(db(vec![row(2, "b")])))];
    let removed = pack.optimize(&mut tables, &deps, true).unwrap();
    assert_eq!(removed, vec![path.clone()]);
    assert!(pack.files.is_empty());
}

#[test]
fn container_optimize_needs_reference_data() {
    let mut pack = Pack::new();
    let mut tables = Vec::new();
    let mut deps = deps_with(Vec::new(), Vec::new());
    deps.vanilla_loaded = false;
    assert_eq!(
        pack.optimize(&mut tables, &deps, false),
        Err(RLibError::DependenciesCacheNotGeneratedOrOutOfDate)
    );
}
