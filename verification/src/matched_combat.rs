//! Matched-combat files: tables describing matched animations between
//! units. The byte layout of their rows follows an externally supplied
//! table codec; this module owns the header and the built-in definitions.

use vstd::prelude::*;

use crate::decoder::{decode_integer_i32, decode_integer_u32, spec_shortfall, spec_signed,
    spec_u32_le};
use crate::error::{DataKind, RLibError};
use crate::table::{Definition, Field, FieldType, Table};

verus! {

/// Size in bytes of the header of a matched-combat file.
pub const MATCHED_COMBAT_HEADER_SIZE: usize = 8;

/// A decoded matched-combat file: a table under one of the built-in
/// definitions.
pub struct MatchedCombat {
    /// The table holding the decoded rows.
    pub table: Table,
}

/// What one column of the built-in definitions must look like.
pub open spec fn spec_mc_field_ok(f: Field, i: int) -> bool {
    &&& f.name@ == (if i == 0 {
        "unit_1_uk_1"@
    } else if i == 1 {
        "unit_1_uk_2"@
    } else if i == 2 {
        "unit_1_uk_3"@
    } else if i == 3 {
        "unit_1_uk_4"@
    } else if i == 4 {
        "unit_1_key"@
    } else if i == 5 {
        "unit_1_text"@
    } else if i == 6 {
        "unit_2_uk_1"@
    } else if i == 7 {
        "unit_2_uk_2"@
    } else if i == 8 {
        "unit_2_uk_3"@
    } else if i == 9 {
        "unit_2_uk_4"@
    } else if i == 10 {
        "unit_2_key"@
    } else {
        "unit_2_text"@
    })
    &&& f.is_key == (i != 5 && i != 11)
    &&& (if i == 0 || i == 6 {
        match f.field_type {
            FieldType::SequenceU32(sub) => {
                &&& sub.version == -1
                &&& sub.fields@.len() == 1
                &&& sub.fields@[0].name@ == "uk_1"@
                &&& sub.fields@[0].field_type is I32
                &&& sub.fields@[0].is_key
                &&& sub.fields@[0].default_value is None
            },
            _ => false,
        }
    } else if i == 4 || i == 5 || i == 10 || i == 11 {
        f.field_type is StringU8 && (match f.default_value {
            Some(d) => d@ == "PLACEHOLDER"@,
            None => false,
        })
    } else {
        f.field_type is I32 && f.default_value is None
    })
}

impl MatchedCombat {
    /// Creates an empty matched-combat table over the given definition.
    pub fn new(definition: Definition) -> (r: MatchedCombat)
        ensures
            r.table.definition == definition,
            r.table.rows@.len() == 0,
            r.table.wf(),
    {
        let r = MatchedCombat { table: Table::new(definition) };
        proof {
            assert(r.table.rows.deep_view().len() == r.table.rows@.len());
        }
        r
    }

    /// Builds the built-in definition of the given version: twelve columns,
    /// six per unit, where each unit has a nested single-column sequence,
    /// three plain integers, and key and text columns defaulting to a
    /// placeholder. Only the two known versions exist.
    pub fn new_definition(version: i32) -> (r: Definition)
        requires
            version == 1 || version == 3,
        ensures
            r.version == version,
            r.fields@.len() == 12,
            forall|i: int| 0 <= i < 12 ==> spec_mc_field_ok(#[trigger] r.fields@[i], i),
    {
        let names: [&'static str; 12] = [
            "unit_1_uk_1",
            "unit_1_uk_2",
            "unit_1_uk_3",
            "unit_1_uk_4",
            "unit_1_key",
            "unit_1_text",
            "unit_2_uk_1",
            "unit_2_uk_2",
            "unit_2_uk_3",
            "unit_2_uk_4",
            "unit_2_key",
            "unit_2_text",
        ];
        let mut fields: Vec<Field> = Vec::new();
        let mut i: usize = 0;
        while i < 12
            invariant
                i <= 12,
                fields@.len() == i,
                names@.len() == 12,
                names@[0]@ == "unit_1_uk_1"@,
                names@[1]@ == "unit_1_uk_2"@,
                names@[2]@ == "unit_1_uk_3"@,
                names@[3]@ == "unit_1_uk_4"@,
                names@[4]@ == "unit_1_key"@,
                names@[5]@ == "unit_1_text"@,
                names@[6]@ == "unit_2_uk_1"@,
                names@[7]@ == "unit_2_uk_2"@,
                names@[8]@ == "unit_2_uk_3"@,
                names@[9]@ == "unit_2_uk_4"@,
                names@[10]@ == "unit_2_key"@,
                names@[11]@ == "unit_2_text"@,
                forall|p: int| 0 <= p < i ==> spec_mc_field_ok(#[trigger] fields@[p], p),
            decreases 12 - i,
        {
            let name = String::from_str(names[i]);
            let field_type: FieldType = if i == 0 || i == 6 {
                let subfield = Field {
                    name: String::from_str("uk_1"),
                    field_type: FieldType::I32,
                    is_key: true,
                    default_value: None,
                };
                let mut subfields: Vec<Field> = Vec::new();
                subfields.push(subfield);
                FieldType::SequenceU32(Box::new(Definition { version: -1, fields: subfields }))
            } else if i == 4 || i == 5 || i == 10 || i == 11 {
                FieldType::StringU8
            } else {
                FieldType::I32
            };
            let default_value: Option<String> = if i == 4 || i == 5 || i == 10 || i == 11 {
                Some(String::from_str("PLACEHOLDER"))
            } else {
                None
            };
            let is_key = i != 5 && i != 11;
            let field = Field { name, field_type, is_key, default_value };
            proof {
                assert(spec_mc_field_ok(field, i as int));
            }
            fields.push(field);
            i = i + 1;
        }
        Definition { version, fields }
    }

    /// Builds the built-in definition of the given version, or reports an
    /// unknown version as the typed error the decode path propagates
    /// instead of failing abruptly.
    pub fn new_definition_checked(version: i32) -> (r: Result<Definition, RLibError>)
        ensures
            r is Ok <==> version == 1 || version == 3,
            r matches Ok(d) ==> d.version == version && d.fields@.len() == 12 && (forall|i: int|
                0 <= i < 12 ==> spec_mc_field_ok(#[trigger] d.fields@[i], i)),
            r matches Err(e) ==> e == RLibError::UnsupportedTableVersion(version),
    {
        if version == 1 || version == 3 {
            Ok(Self::new_definition(version))
        } else {
            Err(RLibError::UnsupportedTableVersion(version))
        }
    }

    /// The definition of the table.
    pub fn definition(&self) -> (r: &Definition)
        ensures
            r == &self.table.definition,
    {
        self.table.definition()
    }

    /// The rows of the table.
    pub fn data(&self) -> (r: &Vec<Vec<crate::table::DecodedData>>)
        ensures
            r == &self.table.rows,
    {
        self.table.data()
    }

    /// Reads the header of a matched-combat stream: its version and its
    /// declared entry count. A stream shorter than the fixed header size is
    /// not a matched-combat table at all.
    pub fn read_header(data: &[u8]) -> (r: Result<(i32, u32), RLibError>)
        ensures
            r is Ok <==> data@.len() >= 8,
            r matches Ok(p) ==> p.0 as int == spec_signed(spec_u32_le(data@, 0) as int, 32) && p.1
                == spec_u32_le(data@, 4),
            r matches Err(e) ==> e == RLibError::NotAMatchedCombatTable,
    {
        if data.len() < 8 {
            return Err(RLibError::NotAMatchedCombatTable);
        }
        let version = match decode_integer_i32(data, 0) {
            Ok(v) => v,
            Err(_) => {
                proof {
                    assert(false);
                }
                0
            },
        };
        let entry_count = match decode_integer_u32(data, 4) {
            Ok(v) => v,
            Err(_) => {
                proof {
                    assert(false);
                }
                0
            },
        };
        Ok((version, entry_count))
    }
}

/// Checks that a decode consumed the whole stream: the position the table
/// codec stopped at must be the stream's very end, else the file is
/// corrupt.
pub fn check_size_mismatch(read: usize, size: usize) -> (r: Result<(), RLibError>)
    ensures
        r is Ok <==> read == size,
        r matches Err(e) ==> e == (RLibError::SizeMismatch { expected: size, found: read }),
{
    if read == size {
        Ok(())
    } else {
        Err(RLibError::SizeMismatch { expected: size, found: read })
    }
}

/// A table becomes a matched-combat file directly.
impl From<Table> for MatchedCombat {
    fn from(table: Table) -> (r: MatchedCombat) {
        MatchedCombat { table }
    }
}

impl vstd::std_specs::convert::FromSpecImpl<Table> for MatchedCombat {
    open spec fn obeys_from_spec() -> bool {
        true
    }

    open spec fn from_spec(table: Table) -> MatchedCombat {
        MatchedCombat { table }
    }
}

} // verus!
