//! The decoded-table model the optimizer works on.
//!
//! A table is a definition (column names, kinds and key roles) and an
//! ordered list of rows; every row holds one tagged cell per column. Real
//! numbers are carried in fixed-point form, as signed ten-thousandths, so
//! comparisons and the canonical four-decimal rendering are exact.

use vstd::prelude::*;

verus! {

/// The kinds of column this model knows.
pub enum FieldType {
    /// One boolean cell.
    Boolean,
    /// A real number, carried as ten-thousandths.
    F32,
    /// A 32-bit signed integer.
    I32,
    /// A 64-bit signed integer.
    I64,
    /// A text cell.
    StringU8,
    /// A nested table of rows following the boxed definition.
    SequenceU32(Box<Definition>),
}

/// One column of a table.
pub struct Field {
    /// The column's name.
    pub name: String,
    /// What the column holds.
    pub field_type: FieldType,
    /// Whether the column is part of the table's key.
    pub is_key: bool,
    /// The textual default for the column, when the schema gives one.
    pub default_value: Option<String>,
}

/// The schema of one table version.
pub struct Definition {
    /// The version this definition describes.
    pub version: i32,
    /// The columns, in order.
    pub fields: Vec<Field>,
}

/// One scalar cell inside a nested sequence. Nested tables this engine
/// meets hold scalar columns only, so a sequence cell holds rows of these.
pub enum ScalarData {
    /// A boolean cell.
    Boolean(bool),
    /// A real-number cell in ten-thousandths.
    F32(i64),
    /// A 32-bit integer cell.
    I32(i32),
    /// A 64-bit integer cell.
    I64(i64),
    /// A text cell.
    StringU8(String),
}

/// The mathematical value of a scalar cell.
pub ghost enum ScalarV {
    Boolean(bool),
    F32(i64),
    I32(i32),
    I64(i64),
    StringU8(Seq<char>),
}

impl DeepView for ScalarData {
    type V = ScalarV;

    open spec fn deep_view(&self) -> ScalarV {
        match self {
            ScalarData::Boolean(b) => ScalarV::Boolean(*b),
            ScalarData::F32(v) => ScalarV::F32(*v),
            ScalarData::I32(v) => ScalarV::I32(*v),
            ScalarData::I64(v) => ScalarV::I64(*v),
            ScalarData::StringU8(s) => ScalarV::StringU8(s@),
        }
    }
}

/// One cell of a row.
pub enum DecodedData {
    /// A boolean cell.
    Boolean(bool),
    /// A real-number cell in ten-thousandths.
    F32(i64),
    /// A 32-bit integer cell.
    I32(i32),
    /// A 64-bit integer cell.
    I64(i64),
    /// A text cell.
    StringU8(String),
    /// A nested sequence of scalar rows.
    SequenceU32(Vec<Vec<ScalarData>>),
}

/// The mathematical value of a cell.
pub ghost enum CellV {
    Boolean(bool),
    F32(i64),
    I32(i32),
    I64(i64),
    StringU8(Seq<char>),
    SequenceU32(Seq<Seq<ScalarV>>),
}

impl DeepView for DecodedData {
    type V = CellV;

    open spec fn deep_view(&self) -> CellV {
        match self {
            DecodedData::Boolean(b) => CellV::Boolean(*b),
            DecodedData::F32(v) => CellV::F32(*v),
            DecodedData::I32(v) => CellV::I32(*v),
            DecodedData::I64(v) => CellV::I64(*v),
            DecodedData::StringU8(s) => CellV::StringU8(s@),
            DecodedData::SequenceU32(rows) => CellV::SequenceU32(rows.deep_view()),
        }
    }
}

/// The mathematical value of a row.
pub open spec fn row_view(row: Vec<DecodedData>) -> Seq<CellV> {
    row.deep_view()
}

/// The mathematical value of a row list.
pub open spec fn rows_view(rows: Vec<Vec<DecodedData>>) -> Seq<Seq<CellV>> {
    rows.deep_view()
}

/// Compares two scalar cells for deep equality.
pub fn eq_scalar(a: &ScalarData, b: &ScalarData) -> (r: bool)
    ensures
        r == (a.deep_view() == b.deep_view()),
{
    match a {
        ScalarData::Boolean(x) => match b {
            ScalarData::Boolean(y) => {
                return *x == *y;
            },
            _ => {
                return false;
            },
        },
        ScalarData::F32(x) => match b {
            ScalarData::F32(y) => {
                return *x == *y;
            },
            _ => {
                return false;
            },
        },
        ScalarData::I32(x) => match b {
            ScalarData::I32(y) => {
                return *x == *y;
            },
            _ => {
                return false;
            },
        },
        ScalarData::I64(x) => match b {
            ScalarData::I64(y) => {
                return *x == *y;
            },
            _ => {
                return false;
            },
        },
        ScalarData::StringU8(x) => match b {
            ScalarData::StringU8(y) => {
                return *x == *y;
            },
            _ => {
                return false;
            },
        },
    }
}

/// Compares two nested scalar-row lists for deep equality.
fn eq_scalar_rows(xs: &Vec<Vec<ScalarData>>, ys: &Vec<Vec<ScalarData>>) -> (r: bool)
    ensures
        r == (xs.deep_view() == ys.deep_view()),
{
    if xs.len() != ys.len() {
        proof {
            assert(xs.deep_view().len() != ys.deep_view().len());
        }
        return false;
    }
    let mut i: usize = 0;
    while i < xs.len()
        invariant
            i <= xs@.len(),
            xs@.len() == ys@.len(),
            forall|p: int| 0 <= p < i ==> #[trigger] xs.deep_view()[p] == ys.deep_view()[p],
        decreases xs@.len() - i,
    {
        let xr = &xs[i];
        let yr = &ys[i];
        if xr.len() != yr.len() {
            proof {
                assert(xs.deep_view()[i as int].len() != ys.deep_view()[i as int].len());
            }
            return false;
        }
        let mut j: usize = 0;
        while j < xr.len()
            invariant
                j <= xr@.len(),
                xr@.len() == yr@.len(),
                i < xs@.len(),
                xs@.len() == ys@.len(),
                xr == &xs[i as int],
                yr == &ys[i as int],
                forall|q: int| 0 <= q < j ==> #[trigger] xr.deep_view()[q] == yr.deep_view()[q],
            decreases xr@.len() - j,
        {
            if !eq_scalar(&xr[j], &yr[j]) {
                proof {
                    assert(xs.deep_view()[i as int][j as int] == xr.deep_view()[j as int]);
                    assert(ys.deep_view()[i as int][j as int] == yr.deep_view()[j as int]);
                }
                return false;
            }
            j = j + 1;
        }
        proof {
            assert(xr.deep_view() =~= yr.deep_view());
            assert(xs.deep_view()[i as int] == xr.deep_view());
            assert(ys.deep_view()[i as int] == yr.deep_view());
        }
        i = i + 1;
    }
    proof {
        assert(xs.deep_view() =~= ys.deep_view());
    }
    true
}

/// Compares two cells for deep equality.
pub fn eq_cell(a: &DecodedData, b: &DecodedData) -> (r: bool)
    ensures
        r == (a.deep_view() == b.deep_view()),
{
    match a {
        DecodedData::Boolean(x) => match b {
            DecodedData::Boolean(y) => *x == *y,
            _ => false,
        },
        DecodedData::F32(x) => match b {
            DecodedData::F32(y) => *x == *y,
            _ => false,
        },
        DecodedData::I32(x) => match b {
            DecodedData::I32(y) => *x == *y,
            _ => false,
        },
        DecodedData::I64(x) => match b {
            DecodedData::I64(y) => *x == *y,
            _ => false,
        },
        DecodedData::StringU8(x) => match b {
            DecodedData::StringU8(y) => *x == *y,
            _ => false,
        },
        DecodedData::SequenceU32(xs) => match b {
            DecodedData::SequenceU32(ys) => eq_scalar_rows(xs, ys),
            _ => false,
        },
    }
}

/// Copies a scalar cell; the copy has the same mathematical value.
pub fn clone_scalar(c: &ScalarData) -> (r: ScalarData)
    ensures
        r.deep_view() == c.deep_view(),
{
    match c {
        ScalarData::Boolean(b) => ScalarData::Boolean(*b),
        ScalarData::F32(v) => ScalarData::F32(*v),
        ScalarData::I32(v) => ScalarData::I32(*v),
        ScalarData::I64(v) => ScalarData::I64(*v),
        ScalarData::StringU8(s) => ScalarData::StringU8(s.clone()),
    }
}

/// Copies a cell; the copy has the same mathematical value.
pub fn clone_cell(c: &DecodedData) -> (r: DecodedData)
    ensures
        r.deep_view() == c.deep_view(),
{
    match c {
        DecodedData::Boolean(b) => DecodedData::Boolean(*b),
        DecodedData::F32(v) => DecodedData::F32(*v),
        DecodedData::I32(v) => DecodedData::I32(*v),
        DecodedData::I64(v) => DecodedData::I64(*v),
        DecodedData::StringU8(s) => DecodedData::StringU8(s.clone()),
        DecodedData::SequenceU32(rows) => {
            let mut out: Vec<Vec<ScalarData>> = Vec::new();
            let mut i: usize = 0;
            while i < rows.len()
                invariant
                    i <= rows@.len(),
                    out@.len() == i,
                    out.deep_view() == rows.deep_view().take(i as int),
                decreases rows@.len() - i,
            {
                let mut row: Vec<ScalarData> = Vec::new();
                let src = &rows[i];
                let mut j: usize = 0;
                while j < src.len()
                    invariant
                        j <= src@.len(),
                        i < rows@.len(),
                        src == &rows[i as int],
                        row@.len() == j,
                        row.deep_view() == src.deep_view().take(j as int),
                    decreases src@.len() - j,
                {
                    let ghost prev = row@;
                    let c = clone_scalar(&src[j]);
                    let ghost cv = c.deep_view();
                    row.push(c);
                    proof {
                        assert(row@ == prev.push(c));
                        assert forall|q: int| 0 <= q < j + 1 implies row.deep_view()[q]
                            == src.deep_view().take(j + 1 as int)[q] by {
                            assert(row.deep_view()[q] == row@[q].deep_view());
                            assert(src.deep_view()[q] == src@[q].deep_view());
                            if q < j {
                                assert(row@[q] == prev[q]);
                                assert(prev[q].deep_view() == src.deep_view().take(j as int)[q]);
                            } else {
                                assert(row@[q].deep_view() == cv);
                                assert(cv == src@[j as int].deep_view());
                            }
                        }
                        assert(row.deep_view() =~= src.deep_view().take(j + 1 as int));
                    }
                    j = j + 1;
                }
                proof {
                    assert(src.deep_view().take(src@.len() as int) =~= src.deep_view());
                    assert(rows.deep_view()[i as int] == src.deep_view());
                }
                let ghost prev_out = out@;
                let ghost rowv = row.deep_view();
                out.push(row);
                proof {
                    assert(out@ == prev_out.push(out@[i as int]));
                    assert forall|p: int| 0 <= p < i + 1 implies out.deep_view()[p]
                        == rows.deep_view().take(i + 1 as int)[p] by {
                        assert(out.deep_view()[p] == out@[p].deep_view());
                        if p < i {
                            assert(out@[p] == prev_out[p]);
                            assert(prev_out[p].deep_view() == rows.deep_view().take(i as int)[p]);
                        } else {
                            assert(out@[p].deep_view() == rowv);
                        }
                    }
                    assert(out.deep_view() =~= rows.deep_view().take(i + 1 as int));
                }
                i = i + 1;
            }
            proof {
                assert(rows.deep_view().take(rows@.len() as int) =~= rows.deep_view());
            }
            let r = DecodedData::SequenceU32(out);
            proof {
                assert(r.deep_view()->SequenceU32_0 =~= c.deep_view()->SequenceU32_0);
            }
            r
        },
    }
}

/// Compares two rows for deep equality.
pub fn eq_row(a: &Vec<DecodedData>, b: &Vec<DecodedData>) -> (r: bool)
    ensures
        r == (a.deep_view() == b.deep_view()),
{
    if a.len() != b.len() {
        proof {
            assert(a.deep_view().len() != b.deep_view().len());
        }
        return false;
    }
    let mut i: usize = 0;
    while i < a.len()
        invariant
            i <= a@.len(),
            a@.len() == b@.len(),
            forall|p: int| 0 <= p < i ==> a.deep_view()[p] == b.deep_view()[p],
        decreases a@.len() - i,
    {
        if !eq_cell(&a[i], &b[i]) {
            proof {
                assert(a.deep_view()[i as int] == a@[i as int].deep_view());
                assert(b.deep_view()[i as int] == b@[i as int].deep_view());
            }
            return false;
        }
        proof {
            assert(a.deep_view()[i as int] == a@[i as int].deep_view());
            assert(b.deep_view()[i as int] == b@[i as int].deep_view());
        }
        i = i + 1;
    }
    proof {
        assert(a.deep_view() =~= b.deep_view());
    }
    true
}

/// Copies a row; the copy has the same mathematical value.
pub fn clone_row(row: &Vec<DecodedData>) -> (r: Vec<DecodedData>)
    ensures
        r.deep_view() == row.deep_view(),
{
    let mut out: Vec<DecodedData> = Vec::new();
    let mut i: usize = 0;
    while i < row.len()
        invariant
            i <= row@.len(),
            out@.len() == i,
            out.deep_view() == row.deep_view().take(i as int),
        decreases row@.len() - i,
    {
        let ghost prev = out@;
        let c = clone_cell(&row[i]);
        let ghost cv = c.deep_view();
        out.push(c);
        proof {
            assert(out@ == prev.push(out@[i as int]));
            assert forall|p: int| 0 <= p < i + 1 implies out.deep_view()[p]
                == row.deep_view().take(i + 1 as int)[p] by {
                assert(out.deep_view()[p] == out@[p].deep_view());
                assert(row.deep_view()[p] == row@[p].deep_view());
                if p < i {
                    assert(out@[p] == prev[p]);
                    assert(prev[p].deep_view() == row.deep_view().take(i as int)[p]);
                } else {
                    assert(out@[p].deep_view() == cv);
                }
            }
            assert(out.deep_view() =~= row.deep_view().take(i + 1 as int));
        }
        i = i + 1;
    }
    proof {
        assert(row.deep_view().take(row@.len() as int) =~= row.deep_view());
    }
    out
}

/// The default cell of a field: false, zero, the schema's textual default
/// (or empty text), or an empty nested sequence.
pub open spec fn spec_default_cell(f: Field) -> CellV {
    match f.field_type {
        FieldType::Boolean => CellV::Boolean(false),
        FieldType::F32 => CellV::F32(0),
        FieldType::I32 => CellV::I32(0),
        FieldType::I64 => CellV::I64(0),
        FieldType::StringU8 => CellV::StringU8(
            match f.default_value {
                Some(d) => d@,
                None => Seq::empty(),
            },
        ),
        FieldType::SequenceU32(_) => CellV::SequenceU32(Seq::<Seq<ScalarV>>::empty()),
    }
}

/// The all-defaults row of a definition.
pub open spec fn spec_default_row(fields: Seq<Field>) -> Seq<CellV> {
    Seq::new(fields.len(), |i: int| spec_default_cell(fields[i]))
}

/// Position of the first key-flagged column, or zero when none is flagged.
pub open spec fn spec_first_key(fields: Seq<Field>) -> int {
    if exists|i: int| 0 <= i < fields.len() && fields[i].is_key {
        choose|i: int|
            0 <= i < fields.len() && fields[i].is_key && (forall|j: int|
                0 <= j < i ==> !fields[j].is_key)
    } else {
        0
    }
}

/// A decoded table: a definition and its rows.
pub struct Table {
    /// The schema of the rows.
    pub definition: Definition,
    /// The rows, in order.
    pub rows: Vec<Vec<DecodedData>>,
}

impl Table {
    /// Every row has exactly one cell per column.
    pub open spec fn wf(self) -> bool {
        forall|i: int|
            0 <= i < self.rows.deep_view().len() ==> #[trigger] self.rows.deep_view()[i].len()
                == self.definition.fields@.len()
    }

    /// Creates an empty table over the given definition.
    pub fn new(definition: Definition) -> (r: Table)
        ensures
            r.definition == definition,
            r.rows.deep_view() == Seq::<Seq<CellV>>::empty(),
            r.wf(),
    {
        let r = Table { definition, rows: Vec::new() };
        proof {
            assert(r.rows.deep_view() =~= Seq::<Seq<CellV>>::empty());
        }
        r
    }

    /// The schema of the rows.
    pub fn definition(&self) -> (r: &Definition)
        ensures
            r == &self.definition,
    {
        &self.definition
    }

    /// The rows.
    pub fn data(&self) -> (r: &Vec<Vec<DecodedData>>)
        ensures
            r == &self.rows,
    {
        &self.rows
    }

    /// Replaces the rows.
    pub fn set_data(&mut self, rows: Vec<Vec<DecodedData>>)
        ensures
            final(self).definition == old(self).definition,
            final(self).rows == rows,
    {
        self.rows = rows;
    }

    /// Builds the all-defaults row of the definition.
    pub fn new_row(&self) -> (r: Vec<DecodedData>)
        ensures
            r.deep_view() == spec_default_row(self.definition.fields@),
    {
        let mut out: Vec<DecodedData> = Vec::new();
        let n = self.definition.fields.len();
        let mut i: usize = 0;
        while i < n
            invariant
                i <= n,
                n == self.definition.fields@.len(),
                out@.len() == i,
                out.deep_view() == spec_default_row(self.definition.fields@).take(i as int),
            decreases n - i,
        {
            let cell = match &self.definition.fields[i].field_type {
                FieldType::Boolean => DecodedData::Boolean(false),
                FieldType::F32 => DecodedData::F32(0),
                FieldType::I32 => DecodedData::I32(0),
                FieldType::I64 => DecodedData::I64(0),
                FieldType::StringU8 => DecodedData::StringU8(
                    match &self.definition.fields[i].default_value {
                        Some(d) => d.clone(),
                        None => String::new(),
                    },
                ),
                FieldType::SequenceU32(_) => DecodedData::SequenceU32(Vec::new()),
            };
            proof {
                if cell is SequenceU32 {
                    assert(cell.deep_view()->SequenceU32_0 =~= Seq::<Seq<ScalarV>>::empty());
                }
            }
            let ghost prev = out@;
            let ghost cv = cell.deep_view();
            let ghost dr = spec_default_row(self.definition.fields@);
            out.push(cell);
            proof {
                assert(out@ == prev.push(out@[i as int]));
                assert(cv == spec_default_cell(self.definition.fields@[i as int]));
                assert forall|p: int| 0 <= p < i + 1 implies out.deep_view()[p] == dr.take(
                    i + 1 as int,
                )[p] by {
                    assert(out.deep_view()[p] == out@[p].deep_view());
                    if p < i {
                        assert(out@[p] == prev[p]);
                        assert(prev[p].deep_view() == dr.take(i as int)[p]);
                    } else {
                        assert(out@[p].deep_view() == cv);
                    }
                }
                assert(out.deep_view() =~= dr.take(i + 1 as int));
            }
            i = i + 1;
        }
        proof {
            let dr = spec_default_row(self.definition.fields@);
            assert(dr.take(n as int) =~= dr);
        }
        out
    }

    /// Position of the first key-flagged column, or zero when none is.
    pub fn first_key_index(&self) -> (r: usize)
        ensures
            r as int == spec_first_key(self.definition.fields@),
            self.definition.fields@.len() > 0 ==> r < self.definition.fields@.len(),
            self.definition.fields@.len() == 0 ==> r == 0,
    {
        let n = self.definition.fields.len();
        let mut i: usize = 0;
        while i < n
            invariant
                i <= n,
                n == self.definition.fields@.len(),
                forall|j: int| 0 <= j < i ==> !self.definition.fields@[j].is_key,
            decreases n - i,
        {
            if self.definition.fields[i].is_key {
                proof {
                    let fields = self.definition.fields@;
                    let w = choose|w: int|
                        0 <= w < fields.len() && fields[w].is_key && (forall|j: int|
                            0 <= j < w ==> !fields[j].is_key);
                    assert(fields[i as int].is_key);
                    assert(w == i as int);
                }
                return i;
            }
            i = i + 1;
        }
        proof {
            assert(forall|w: int| 0 <= w < n ==> !self.definition.fields@[w].is_key);
        }
        0
    }
}

} // verus!
