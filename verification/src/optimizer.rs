//! The table optimization pass: removal of rows identical to reference
//! data, removal of all-default rows, deterministic reordering by the first
//! key column, and adjacent deduplication; plus the container-level pass
//! that drops files whose tables end up empty.
//!
//! Rows are compared through their mathematical values, and real-number
//! cells through their exact four-decimal fixed-point form, so no
//! floating-point epsilon can misclassify a row.

use vstd::prelude::*;

use vstd::utf8::{encode_utf8, is_ascii_chars, is_ascii_chars_encode_utf8};

use crate::error::RLibError;
use crate::pack::{lex_lt, Pack, RFile};
use crate::strings::latin1_chars;
use crate::table::{
    clone_cell, clone_row, eq_row, CellV, DecodedData, Definition, Table, spec_default_row,
    spec_first_key,
};

verus! {

/// The ASCII digits of `n`, most significant first, no leading zeros.
pub open spec fn spec_dec_digits(n: int) -> Seq<u8>
    decreases n,
{
    if n < 0 {
        Seq::empty()
    } else if n < 10 {
        seq![(0x30 + n) as u8]
    } else {
        spec_dec_digits(n / 10).push((0x30 + n % 10) as u8)
    }
}

/// The ASCII text of a signed integer.
pub open spec fn spec_int_text_bytes(v: int) -> Seq<u8> {
    if v < 0 {
        seq![0x2Du8] + spec_dec_digits(-v)
    } else {
        spec_dec_digits(v)
    }
}

/// Digits zero-padded on the left to four.
pub open spec fn spec_pad4(d: Seq<u8>) -> Seq<u8> {
    if d.len() >= 4 {
        d
    } else {
        Seq::new((4 - d.len()) as nat, |_i: int| 0x30u8) + d
    }
}

/// The four-decimal fixed-point text of a ten-thousandths value: sign,
/// integer part, a dot, and exactly four fractional digits.
pub open spec fn spec_fixed4_bytes(v: int) -> Seq<u8> {
    let a = if v < 0 {
        -v
    } else {
        v
    };
    (if v < 0 {
        seq![0x2Du8]
    } else {
        Seq::<u8>::empty()
    }) + spec_dec_digits(a / 10000) + seq![0x2Eu8] + spec_pad4(spec_dec_digits(a % 10000))
}

/// The textual form a cell is compared by: its text for text cells, the
/// decimal or four-decimal rendering for numbers, `true`/`false` for
/// booleans, and empty text for nested sequences.
pub open spec fn spec_cell_text(c: CellV) -> Seq<char> {
    match c {
        CellV::Boolean(b) => if b {
            latin1_chars(seq![0x74u8, 0x72u8, 0x75u8, 0x65u8])
        } else {
            latin1_chars(seq![0x66u8, 0x61u8, 0x6Cu8, 0x73u8, 0x65u8])
        },
        CellV::F32(v) => latin1_chars(spec_fixed4_bytes(v as int)),
        CellV::I32(v) => latin1_chars(spec_int_text_bytes(v as int)),
        CellV::I64(v) => latin1_chars(spec_int_text_bytes(v as int)),
        CellV::StringU8(s) => s,
        CellV::SequenceU32(_) => Seq::empty(),
    }
}

/// The UTF-8 bytes of a cell's textual form; textual comparisons run on
/// these, which is the order `String` comparison uses.
pub open spec fn spec_cell_text_bytes(c: CellV) -> Seq<u8> {
    encode_utf8(spec_cell_text(c))
}

/// Writes the decimal digits of `v` onto `out`; every written byte is an
/// ASCII digit.
fn push_dec_digits(v: u64, out: &mut Vec<u8>)
    ensures
        final(out)@ == old(out)@ + spec_dec_digits(v as int),
        forall|i: int|
            old(out)@.len() <= i < final(out)@.len() ==> 0x30 <= #[trigger] final(out)@[i] < 0x3A,
    decreases v,
{
    if v < 10 {
        out.push(0x30 + v as u8);
        proof {
            assert(out@ =~= old(out)@ + spec_dec_digits(v as int));
        }
    } else {
        push_dec_digits(v / 10, out);
        out.push(0x30 + (v % 10) as u8);
        proof {
            assert(out@ =~= old(out)@ + spec_dec_digits(v as int));
        }
    }
}

/// The absolute value of `v` as an unsigned word.
fn abs_u64(v: i64) -> (r: u64)
    ensures
        r as int == if v < 0 {
            -(v as int)
        } else {
            v as int
        },
{
    if v < 0 {
        (-(v as i128)) as u64
    } else {
        v as u64
    }
}

/// The ASCII text of a signed integer.
fn int_text_bytes(v: i64) -> (r: Vec<u8>)
    ensures
        r@ == spec_int_text_bytes(v as int),
        forall|i: int| 0 <= i < r@.len() ==> #[trigger] r@[i] < 0x80,
{
    let mut out: Vec<u8> = Vec::new();
    if v < 0 {
        out.push(0x2D);
    }
    push_dec_digits(abs_u64(v), &mut out);
    proof {
        assert(out@ =~= spec_int_text_bytes(v as int));
    }
    out
}

/// The four-decimal fixed-point text of a ten-thousandths value.
fn fixed4_text_bytes(v: i64) -> (r: Vec<u8>)
    ensures
        r@ == spec_fixed4_bytes(v as int),
        forall|i: int| 0 <= i < r@.len() ==> #[trigger] r@[i] < 0x80,
{
    let a = abs_u64(v);
    let mut out: Vec<u8> = Vec::new();
    if v < 0 {
        out.push(0x2D);
    }
    push_dec_digits(a / 10000, &mut out);
    out.push(0x2E);
    let mut frac: Vec<u8> = Vec::new();
    push_dec_digits(a % 10000, &mut frac);
    proof {
        assert(spec_dec_digits((a % 10000) as int).len() <= 4) by {
            lemma_dec_digits_len(a as int % 10000);
        }
    }
    let mut pad: usize = 4 - frac.len();
    while pad > 0
        invariant
            out@ == (if v < 0 {
                seq![0x2Du8]
            } else {
                Seq::<u8>::empty()
            }) + spec_dec_digits((if v < 0 {
                -(v as int)
            } else {
                v as int
            }) / 10000) + seq![0x2Eu8] + Seq::new(
                (4 - pad - frac@.len()) as nat,
                |_i: int| 0x30u8,
            ),
            frac@ == spec_dec_digits((if v < 0 {
                -(v as int)
            } else {
                v as int
            }) % 10000),
            pad + frac@.len() <= 4,
        decreases pad,
    {
        out.push(0x30);
        proof {
            assert(out@.drop_last().len() + 1 == out@.len());
            assert(out@ =~= (if v < 0 {
                seq![0x2Du8]
            } else {
                Seq::<u8>::empty()
            }) + spec_dec_digits((if v < 0 {
                -(v as int)
            } else {
                v as int
            }) / 10000) + seq![0x2Eu8] + Seq::new(
                (4 - (pad - 1) - frac@.len()) as nat,
                |_i: int| 0x30u8,
            ));
        }
        pad = pad - 1;
    }
    let mut fr = frac;
    out.append(&mut fr);
    proof {
        assert(out@ =~= spec_fixed4_bytes(v as int));
    }
    out
}

/// A value below one hundred has at most two digits.
pub proof fn lemma_dec_digits_len2(n: int)
    requires
        n < 100,
    ensures
        spec_dec_digits(n).len() <= 2,
{
    if n >= 10 {
        assert(spec_dec_digits(n / 10).len() == 1);
    }
}

/// A value below one thousand has at most three digits.
pub proof fn lemma_dec_digits_len3(n: int)
    requires
        n < 1000,
    ensures
        spec_dec_digits(n).len() <= 3,
{
    if n >= 10 {
        lemma_dec_digits_len2(n / 10);
    }
}

/// A value below ten thousand has at most four digits.
pub proof fn lemma_dec_digits_len(n: int)
    requires
        n < 10000,
    ensures
        spec_dec_digits(n).len() <= 4,
{
    if n >= 10 {
        lemma_dec_digits_len3(n / 10);
    }
}

/// ASCII bytes are their own UTF-8 encoding under the Latin-1 reading.
pub proof fn lemma_ascii_round(bytes: Seq<u8>)
    requires
        forall|i: int| 0 <= i < bytes.len() ==> #[trigger] bytes[i] < 0x80,
    ensures
        encode_utf8(latin1_chars(bytes)) == bytes,
{
    let chars = latin1_chars(bytes);
    assert(is_ascii_chars(chars)) by {
        assert forall|i: int| 0 <= i < chars.len() implies '\0' <= #[trigger] chars[i] <= '\u{7f}'
        by {
            assert(chars[i] == bytes[i] as char);
        }
    }
    is_ascii_chars_encode_utf8(chars);
    assert(encode_utf8(chars) =~= bytes);
}

/// A row list's deep view indexes to its rows' deep views.
pub proof fn lemma_rows_deep(v: &Vec<Vec<DecodedData>>)
    ensures
        v.deep_view().len() == v@.len(),
        forall|p: int| 0 <= p < v@.len() ==> #[trigger] v.deep_view()[p] == v@[p].deep_view(),
        forall|p: int|
            0 <= p < v@.len() ==> #[trigger] v.deep_view()[p].len() == v@[p]@.len(),
{
    assert forall|p: int| 0 <= p < v@.len() implies #[trigger] v.deep_view()[p]
        == v@[p].deep_view() && v.deep_view()[p].len() == v@[p]@.len() by {
        assert(v.deep_view()[p] == v@[p].deep_view());
        assert(v@[p].deep_view().len() == v@[p]@.len());
    }
}

/// The UTF-8 bytes of a cell's textual form.
pub fn cell_text_bytes(c: &DecodedData) -> (r: Vec<u8>)
    ensures
        r@ == spec_cell_text_bytes(c.deep_view()),
{
    match c {
        DecodedData::Boolean(b) => {
            let mut out: Vec<u8> = Vec::new();
            if *b {
                out.push(0x74);
                out.push(0x72);
                out.push(0x75);
                out.push(0x65);
                proof {
                    assert(out@ =~= seq![0x74u8, 0x72u8, 0x75u8, 0x65u8]);
                    lemma_ascii_round(out@);
                }
            } else {
                out.push(0x66);
                out.push(0x61);
                out.push(0x6C);
                out.push(0x73);
                out.push(0x65);
                proof {
                    assert(out@ =~= seq![0x66u8, 0x61u8, 0x6Cu8, 0x73u8, 0x65u8]);
                    lemma_ascii_round(out@);
                }
            }
            out
        },
        DecodedData::F32(v) => {
            let out = fixed4_text_bytes(*v);
            proof {
                lemma_ascii_round(out@);
            }
            out
        },
        DecodedData::I32(v) => {
            let out = int_text_bytes(*v as i64);
            proof {
                lemma_ascii_round(out@);
            }
            out
        },
        DecodedData::I64(v) => {
            let out = int_text_bytes(*v);
            proof {
                lemma_ascii_round(out@);
            }
            out
        },
        DecodedData::StringU8(s) => s.as_str().as_bytes_vec(),
        DecodedData::SequenceU32(_) => {
            let out: Vec<u8> = Vec::new();
            proof {
                assert(encode_utf8(Seq::<char>::empty()) =~= Seq::<u8>::empty());
            }
            out
        },
    }
}

/// Compares two byte strings for equality.
fn bytes_eq(a: &Vec<u8>, b: &Vec<u8>) -> (r: bool)
    ensures
        r == (a@ == b@),
{
    if a.len() != b.len() {
        return false;
    }
    let mut i: usize = 0;
    while i < a.len()
        invariant
            i <= a@.len(),
            a@.len() == b@.len(),
            forall|j: int| 0 <= j < i ==> a@[j] == b@[j],
        decreases a@.len() - i,
    {
        if a[i] != b[i] {
            return false;
        }
        i = i + 1;
    }
    proof {
        assert(a@ =~= b@);
    }
    true
}

/// Compares two byte strings lexicographically, on owned buffers.
fn vec_bytes_lt(a: &Vec<u8>, b: &Vec<u8>) -> (r: bool)
    ensures
        r == lex_lt(a@, b@),
{
    crate::pack::bytes_lt(a.as_slice(), b.as_slice())
}

/// The tolerant comparison the row sort uses: two real-number cells within
/// one ten-thousandth compare equal; anything else falls back to the
/// lexicographic order of the cells' textual bytes. Yields -1, 0 or 1.
pub open spec fn spec_cell_cmp(a: CellV, b: CellV) -> int {
    if a is F32 && b is F32 && -1 <= a->F32_0 - b->F32_0 <= 1 {
        0
    } else {
        let ab = spec_cell_text_bytes(a);
        let bb = spec_cell_text_bytes(b);
        if ab == bb {
            0
        } else if lex_lt(ab, bb) {
            -1
        } else {
            1
        }
    }
}

/// The plain textual comparison, with no tolerance branch.
pub open spec fn spec_text_cmp(a: CellV, b: CellV) -> int {
    let ab = spec_cell_text_bytes(a);
    let bb = spec_cell_text_bytes(b);
    if ab == bb {
        0
    } else if lex_lt(ab, bb) {
        -1
    } else {
        1
    }
}

/// Compares two cells with the tolerant comparison.
pub fn cmp_cells(a: &DecodedData, b: &DecodedData) -> (r: i8)
    ensures
        r as int == spec_cell_cmp(a.deep_view(), b.deep_view()),
{
    let tolerant_equal = match a {
        DecodedData::F32(x) => match b {
            DecodedData::F32(y) => {
                let d: i128 = *x as i128 - *y as i128;
                -1 <= d && d <= 1
            },
            _ => false,
        },
        _ => false,
    };
    if tolerant_equal {
        return 0;
    }
    cmp_cells_text(a, b)
}

/// Compares two cells by their textual bytes alone.
pub fn cmp_cells_text(a: &DecodedData, b: &DecodedData) -> (r: i8)
    ensures
        r as int == spec_text_cmp(a.deep_view(), b.deep_view()),
{
    let ab = cell_text_bytes(a);
    let bb = cell_text_bytes(b);
    if bytes_eq(&ab, &bb) {
        0
    } else if vec_bytes_lt(&ab, &bb) {
        -1
    } else {
        1
    }
}

/// True when `r` occurs in `rows`.
pub open spec fn spec_row_in(rows: Seq<Seq<CellV>>, r: Seq<CellV>) -> bool {
    exists|i: int| 0 <= i < rows.len() && rows[i] == r
}

/// A row's canonical comparison form: every real-number cell replaced by
/// its four-decimal text, other cells kept as they are.
pub open spec fn spec_canon_cell(c: CellV) -> CellV {
    match c {
        CellV::F32(v) => CellV::StringU8(latin1_chars(spec_fixed4_bytes(v as int))),
        _ => c,
    }
}

/// The canonical form of a whole row.
pub open spec fn spec_canon_row(r: Seq<CellV>) -> Seq<CellV> {
    Seq::new(r.len(), |i: int| spec_canon_cell(r[i]))
}

/// The canonical forms of a row list.
pub open spec fn spec_canon_rows(rows: Seq<Seq<CellV>>) -> Seq<Seq<CellV>> {
    Seq::new(rows.len(), |i: int| spec_canon_row(rows[i]))
}

/// Whether a row survives the reference pass: it is kept unless its
/// canonical form occurs among the canonical reference rows, or its
/// canonical form equals the canonicalized default row.
pub open spec fn spec_db_keep(r: Seq<CellV>, refc: Seq<Seq<CellV>>, nr: Seq<CellV>) -> bool {
    !spec_row_in(refc, spec_canon_row(r)) && spec_canon_row(r) != nr
}

/// The rows surviving the reference pass, in their original order.
pub open spec fn spec_db_filter(rows: Seq<Seq<CellV>>, refc: Seq<Seq<CellV>>, nr: Seq<CellV>) -> Seq<
    Seq<CellV>,
>
    decreases rows.len(),
{
    if rows.len() == 0 {
        Seq::empty()
    } else {
        let rest = spec_db_filter(rows.drop_last(), refc, nr);
        if spec_db_keep(rows.last(), refc, nr) {
            rest.push(rows.last())
        } else {
            rest
        }
    }
}

/// The comparison a sort runs under: the tolerant one for regular tables,
/// the plain textual one for loc tables.
pub open spec fn spec_cmp_mode(a: CellV, b: CellV, tolerant: bool) -> int {
    if tolerant {
        spec_cell_cmp(a, b)
    } else {
        spec_text_cmp(a, b)
    }
}

/// Compares two cells under the chosen mode.
pub fn cmp_mode(a: &DecodedData, b: &DecodedData, tolerant: bool) -> (r: i8)
    ensures
        r as int == spec_cmp_mode(a.deep_view(), b.deep_view(), tolerant),
{
    if tolerant {
        cmp_cells(a, b)
    } else {
        cmp_cells_text(a, b)
    }
}

/// Inserts a row into a list sorted by the comparison at column `k`, before
/// the first entry that compares strictly greater.
pub open spec fn spec_insert_row(acc: Seq<Seq<CellV>>, r: Seq<CellV>, k: int, tol: bool) -> Seq<
    Seq<CellV>,
>
    decreases acc.len(),
{
    if acc.len() == 0 {
        seq![r]
    } else if spec_cmp_mode(r[k], acc[0][k], tol) < 0 {
        seq![r] + acc
    } else {
        seq![acc[0]] + spec_insert_row(acc.drop_first(), r, k, tol)
    }
}

/// The order the sort step imposes: each row inserted in turn.
pub open spec fn spec_sort_rows(s: Seq<Seq<CellV>>, k: int, tol: bool) -> Seq<Seq<CellV>>
    decreases s.len(),
{
    if s.len() == 0 {
        Seq::empty()
    } else {
        spec_insert_row(spec_sort_rows(s.drop_last(), k, tol), s.last(), k, tol)
    }
}

/// Adjacent deduplication: a row is dropped when it equals the row just
/// before it.
pub open spec fn spec_dedup_rows(s: Seq<Seq<CellV>>) -> Seq<Seq<CellV>>
    decreases s.len(),
{
    if s.len() == 0 {
        Seq::empty()
    } else if s.len() == 1 {
        s
    } else {
        let rest = spec_dedup_rows(s.drop_last());
        if s.last() == s[s.len() - 2] {
            rest
        } else {
            rest.push(s.last())
        }
    }
}

/// The whole row-level optimization with the tolerant sort: reference and
/// default rows out, sort by column `k`, then adjacent deduplication.
pub open spec fn spec_optimize_rows(
    rows: Seq<Seq<CellV>>,
    refc: Seq<Seq<CellV>>,
    nr: Seq<CellV>,
    k: int,
) -> Seq<Seq<CellV>> {
    spec_dedup_rows(spec_sort_rows(spec_db_filter(rows, refc, nr), k, true))
}

/// Canonicalizes one row.
pub fn canon_row(row: &Vec<DecodedData>) -> (r: Vec<DecodedData>)
    ensures
        r.deep_view() == spec_canon_row(row.deep_view()),
{
    let mut out: Vec<DecodedData> = Vec::new();
    let mut i: usize = 0;
    while i < row.len()
        invariant
            i <= row@.len(),
            out@.len() == i,
            out.deep_view() == spec_canon_row(row.deep_view()).take(i as int),
        decreases row@.len() - i,
    {
        let ghost prev = out@;
        let cell = match &row[i] {
            DecodedData::F32(v) => {
                let bytes = fixed4_text_bytes(*v);
                let s = crate::strings::latin1_to_string(bytes.as_slice());
                DecodedData::StringU8(s)
            },
            other => clone_cell(other),
        };
        let ghost cv = cell.deep_view();
        out.push(cell);
        proof {
            assert(cv == spec_canon_cell(row.deep_view()[i as int]));
            assert(out@ == prev.push(out@[i as int]));
            assert forall|p: int| 0 <= p < i + 1 implies out.deep_view()[p] == spec_canon_row(
                row.deep_view(),
            ).take(i + 1 as int)[p] by {
                assert(out.deep_view()[p] == out@[p].deep_view());
                if p < i {
                    assert(out@[p] == prev[p]);
                    assert(prev[p].deep_view() == spec_canon_row(row.deep_view()).take(
                        i as int,
                    )[p]);
                } else {
                    assert(out@[p].deep_view() == cv);
                }
            }
            assert(out.deep_view() =~= spec_canon_row(row.deep_view()).take(i + 1 as int));
        }
        i = i + 1;
    }
    proof {
        assert(spec_canon_row(row.deep_view()).take(row@.len() as int) =~= spec_canon_row(
            row.deep_view(),
        ));
    }
    out
}

/// Canonicalizes a whole row list.
pub fn canon_rows(rows: &Vec<Vec<DecodedData>>) -> (r: Vec<Vec<DecodedData>>)
    ensures
        r.deep_view() == spec_canon_rows(rows.deep_view()),
{
    let mut out: Vec<Vec<DecodedData>> = Vec::new();
    let mut i: usize = 0;
    while i < rows.len()
        invariant
            i <= rows@.len(),
            out@.len() == i,
            out.deep_view() == spec_canon_rows(rows.deep_view()).take(i as int),
        decreases rows@.len() - i,
    {
        let ghost prev = out@;
        let row = canon_row(&rows[i]);
        let ghost rv = row.deep_view();
        out.push(row);
        proof {
            assert(rows.deep_view()[i as int] == rows@[i as int].deep_view());
            assert(rv == spec_canon_rows(rows.deep_view())[i as int]);
            assert(out@ == prev.push(out@[i as int]));
            assert forall|p: int| 0 <= p < i + 1 implies out.deep_view()[p] == spec_canon_rows(
                rows.deep_view(),
            ).take(i + 1 as int)[p] by {
                assert(out.deep_view()[p] == out@[p].deep_view());
                if p < i {
                    assert(out@[p] == prev[p]);
                    assert(prev[p].deep_view() == spec_canon_rows(rows.deep_view()).take(
                        i as int,
                    )[p]);
                } else {
                    assert(out@[p].deep_view() == rv);
                }
            }
            assert(out.deep_view() =~= spec_canon_rows(rows.deep_view()).take(i + 1 as int));
        }
        i = i + 1;
    }
    proof {
        assert(spec_canon_rows(rows.deep_view()).take(rows@.len() as int) =~= spec_canon_rows(
            rows.deep_view(),
        ));
    }
    out
}

/// Tests whether a row occurs in a list.
pub fn row_in(rows: &Vec<Vec<DecodedData>>, r: &Vec<DecodedData>) -> (res: bool)
    ensures
        res == spec_row_in(rows.deep_view(), r.deep_view()),
{
    let mut i: usize = 0;
    while i < rows.len()
        invariant
            i <= rows@.len(),
            forall|j: int| 0 <= j < i ==> #[trigger] rows.deep_view()[j] != r.deep_view(),
        decreases rows@.len() - i,
    {
        if eq_row(&rows[i], r) {
            proof {
                assert(rows.deep_view()[i as int] == rows@[i as int].deep_view());
            }
            return true;
        }
        proof {
            assert(rows.deep_view()[i as int] == rows@[i as int].deep_view());
        }
        i = i + 1;
    }
    false
}

/// `spec_insert_row` lands at the first position whose key cell compares
/// strictly greater.
pub proof fn lemma_insert_row_at(acc: Seq<Seq<CellV>>, r: Seq<CellV>, k: int, tol: bool, j: int)
    requires
        0 <= j <= acc.len(),
        forall|l: int| 0 <= l < j ==> spec_cmp_mode(r[k], (#[trigger] acc[l])[k], tol) >= 0,
        j < acc.len() ==> spec_cmp_mode(r[k], acc[j][k], tol) < 0,
    ensures
        spec_insert_row(acc, r, k, tol) == acc.take(j) + seq![r] + acc.skip(j),
    decreases acc.len(),
{
    if acc.len() == 0 {
        assert(spec_insert_row(acc, r, k, tol) =~= acc.take(0) + seq![r] + acc.skip(0));
    } else if spec_cmp_mode(r[k], acc[0][k], tol) < 0 {
        assert(j == 0);
        assert(spec_insert_row(acc, r, k, tol) =~= acc.take(0) + seq![r] + acc.skip(0));
    } else {
        assert(j >= 1) by {
            assert(spec_cmp_mode(r[k], acc[0][k], tol) >= 0);
        }
        assert(forall|l: int|
            0 <= l < j - 1 ==> spec_cmp_mode(r[k], (#[trigger] acc.drop_first()[l])[k], tol)
                >= 0);
        lemma_insert_row_at(acc.drop_first(), r, k, tol, j - 1);
        assert(spec_insert_row(acc, r, k, tol) =~= acc.take(j) + seq![r] + acc.skip(j));
    }
}

/// Sorts rows in place by the tolerant comparison at column `k`, keeping
/// the relative order of rows that compare equal.
pub fn sort_rows(rows: &mut Vec<Vec<DecodedData>>, k: usize, tolerant: bool)
    requires
        forall|i: int| 0 <= i < old(rows)@.len() ==> k < #[trigger] old(rows)@[i]@.len(),
    ensures
        final(rows).deep_view() == spec_sort_rows(old(rows).deep_view(), k as int, tolerant),
{
    let ghost orig = rows.deep_view();
    proof {
        lemma_rows_deep(rows);
    }
    let mut i: usize = 0;
    while i < rows.len()
        invariant
            i <= orig.len(),
            rows@.len() == orig.len(),
            rows.deep_view() == spec_sort_rows(orig.take(i as int), k as int, tolerant) + orig.skip(i as int),
            forall|p: int| 0 <= p < rows@.len() ==> k < #[trigger] rows@[p]@.len(),
        decreases orig.len() - i,
    {
        let ghost sorted = spec_sort_rows(orig.take(i as int), k as int, tolerant);
        proof {
            lemma_sort_rows_len(orig.take(i as int), k as int, tolerant);
            lemma_rows_deep(rows);
            assert(rows.deep_view()[i as int] == orig.skip(i as int)[0]);
            assert(rows@[i as int].deep_view() == orig[i as int]);
        }
        let mut j: usize = 0;
        while j < i && !(cmp_mode(&rows[i][k], &rows[j][k], tolerant) < 0)
            invariant
                j <= i,
                i < rows@.len(),
                rows@.len() == orig.len(),
                rows.deep_view() == sorted + orig.skip(i as int),
                sorted.len() == i,
                rows@[i as int].deep_view() == orig[i as int],
                forall|p: int| 0 <= p < rows@.len() ==> k < #[trigger] rows@[p]@.len(),
                forall|l: int|
                    0 <= l < j ==> spec_cmp_mode(
                        orig[i as int][k as int],
                        (#[trigger] sorted[l])[k as int],
                        tolerant,
                    ) >= 0,
            decreases i - j,
        {
            proof {
                lemma_rows_deep(rows);
                assert((sorted + orig.skip(i as int))[j as int] == sorted[j as int]);
                assert(rows.deep_view()[j as int] == sorted[j as int]);
                assert(rows@[j as int].deep_view() == sorted[j as int]);
                assert(rows@[i as int].deep_view()[k as int] == rows@[i as int]@[k as int].deep_view());
                assert(rows@[j as int].deep_view()[k as int] == rows@[j as int]@[k as int].deep_view());
            }
            j = j + 1;
        }
        proof {
            lemma_rows_deep(rows);
            if j < i {
                assert((sorted + orig.skip(i as int))[j as int] == sorted[j as int]);
                assert(rows.deep_view()[j as int] == sorted[j as int]);
                assert(rows@[j as int].deep_view() == sorted[j as int]);
                assert(rows@[i as int].deep_view()[k as int] == rows@[i as int]@[k as int].deep_view());
                assert(rows@[j as int].deep_view()[k as int] == rows@[j as int]@[k as int].deep_view());
            }
            lemma_insert_row_at(sorted, orig[i as int], k as int, tolerant, j as int);
            assert(orig.take(i + 1 as int).drop_last() =~= orig.take(i as int));
            assert(orig.take(i + 1 as int).last() == orig[i as int]);
        }
        let ghost before = rows@;
        let f = rows.remove(i);
        let ghost mid = rows@;
        rows.insert(j, f);
        proof {
            lemma_rows_deep(rows);
            assert forall|p: int| 0 <= p < rows@.len() implies k < #[trigger] rows@[p]@.len() by {
                if p < j {
                    assert(rows@[p] == mid[p]);
                    assert(mid[p] == before[p]);
                } else if p == j {
                    assert(rows@[p] == before[i as int]);
                } else if p <= i {
                    assert(rows@[p] == mid[p - 1]);
                    assert(mid[p - 1] == before[p - 1]);
                } else {
                    assert(rows@[p] == mid[p - 1]);
                    assert(mid[p - 1] == before[p]);
                }
            }
            let ghost ins = spec_sort_rows(orig.take(i + 1 as int), k as int, tolerant);
            assert(ins == sorted.take(j as int) + seq![orig[i as int]] + sorted.skip(j as int));
            assert(ins.len() == i + 1) by {
                lemma_sort_rows_len(orig.take(i + 1 as int), k as int, tolerant);
            }
            assert forall|p: int| 0 <= p < rows@.len() implies rows.deep_view()[p] == (ins
                + orig.skip(i + 1 as int))[p] by {
                assert(rows.deep_view()[p] == rows@[p].deep_view());
                if p < j {
                    assert(rows@[p] == before[p]);
                    assert(before[p].deep_view() == (sorted + orig.skip(i as int))[p]);
                    assert((sorted + orig.skip(i as int))[p] == sorted[p]);
                    assert(ins[p] == sorted.take(j as int)[p]);
                    assert((ins + orig.skip(i + 1 as int))[p] == ins[p]);
                } else if p == j {
                    assert(rows@[p] == before[i as int]);
                    assert(before[i as int].deep_view() == (sorted + orig.skip(i as int))[
                        i as int
                    ]);
                    assert((sorted + orig.skip(i as int))[i as int] == orig.skip(i as int)[0]);
                    assert(ins[p] == orig[i as int]);
                    assert((ins + orig.skip(i + 1 as int))[p] == ins[p]);
                } else if p <= i {
                    assert(rows@[p] == before[p - 1]);
                    assert(before[p - 1].deep_view() == (sorted + orig.skip(i as int))[p - 1]);
                    assert((sorted + orig.skip(i as int))[p - 1] == sorted[p - 1]);
                    assert(ins[p] == sorted.skip(j as int)[p - j - 1]);
                    assert(sorted.skip(j as int)[p - j - 1] == sorted[p - 1]);
                    assert((ins + orig.skip(i + 1 as int))[p] == ins[p]);
                } else {
                    assert(rows@[p] == before[p]);
                    assert(before[p].deep_view() == (sorted + orig.skip(i as int))[p]);
                    assert((sorted + orig.skip(i as int))[p] == orig.skip(i as int)[p - i]);
                    assert(orig.skip(i as int)[p - i] == orig[p]);
                    assert((ins + orig.skip(i + 1 as int))[p] == orig.skip(i + 1 as int)[p - i
                        - 1]);
                    assert(orig.skip(i + 1 as int)[p - i - 1] == orig[p]);
                }
            }
            assert(rows.deep_view() =~= spec_sort_rows(orig.take(i + 1 as int), k as int, tolerant)
                + orig.skip(i + 1 as int));
        }
        i = i + 1;
    }
    proof {
        assert(orig.take(orig.len() as int) =~= orig);
        assert(rows.deep_view() =~= spec_sort_rows(orig, k as int, tolerant));
    }
}

/// Sorting keeps the number of rows.
pub proof fn lemma_sort_rows_len(s: Seq<Seq<CellV>>, k: int, tol: bool)
    ensures
        spec_sort_rows(s, k, tol).len() == s.len(),
    decreases s.len(),
{
    if s.len() > 0 {
        lemma_sort_rows_len(s.drop_last(), k, tol);
        lemma_insert_row_len(spec_sort_rows(s.drop_last(), k, tol), s.last(), k, tol);
    }
}

/// Insertion adds exactly one row.
pub proof fn lemma_insert_row_len(acc: Seq<Seq<CellV>>, r: Seq<CellV>, k: int, tol: bool)
    ensures
        spec_insert_row(acc, r, k, tol).len() == acc.len() + 1,
    decreases acc.len(),
{
    if acc.len() > 0 && !(spec_cmp_mode(r[k], acc[0][k], tol) < 0) {
        lemma_insert_row_len(acc.drop_first(), r, k, tol);
    }
}

/// Removes each row that equals the row just before it.
pub fn dedup_rows(rows: &Vec<Vec<DecodedData>>) -> (out: Vec<Vec<DecodedData>>)
    ensures
        out.deep_view() == spec_dedup_rows(rows.deep_view()),
{
    let mut out: Vec<Vec<DecodedData>> = Vec::new();
    let mut i: usize = 0;
    while i < rows.len()
        invariant
            i <= rows@.len(),
            out.deep_view() == spec_dedup_rows(rows.deep_view().take(i as int)),
        decreases rows@.len() - i,
    {
        let ghost dv = rows.deep_view();
        proof {
            lemma_rows_deep(rows);
            lemma_rows_deep(&out);
            assert(dv.take(i + 1 as int).drop_last() =~= dv.take(i as int));
            assert(dv.take(i + 1 as int).last() == dv[i as int]);
            assert(dv[i as int] == rows@[i as int].deep_view());
            if i > 0 {
                assert(dv.take(i + 1 as int)[i - 1] == dv[i - 1]);
                assert(dv[i - 1] == rows@[i - 1].deep_view());
            }
        }
        if i > 0 && eq_row(&rows[i], &rows[i - 1]) {
        } else {
            let ghost prev = out@;
            let r = clone_row(&rows[i]);
            let ghost rv = r.deep_view();
            out.push(r);
            proof {
                lemma_rows_deep(&out);
                assert(out@ == prev.push(out@[out@.len() - 1]));
                assert forall|p: int| 0 <= p < out@.len() implies out.deep_view()[p]
                    == spec_dedup_rows(dv.take(i + 1 as int))[p] by {
                    assert(out.deep_view()[p] == out@[p].deep_view());
                    if p < out@.len() - 1 {
                        assert(out@[p] == prev[p]);
                        assert(prev[p].deep_view() == spec_dedup_rows(dv.take(i as int))[p]);
                    } else {
                        assert(out@[p].deep_view() == rv);
                    }
                }
                assert(out.deep_view() =~= spec_dedup_rows(dv.take(i + 1 as int)));
            }
        }
        i = i + 1;
    }
    proof {
        assert(rows.deep_view().take(rows@.len() as int) =~= rows.deep_view());
    }
    out
}

/// Filters a row list for the reference pass against already-canonical
/// reference rows and the canonicalized default row.
pub fn filter_db_rows(
    rows: &Vec<Vec<DecodedData>>,
    refc: &Vec<Vec<DecodedData>>,
    nr: &Vec<DecodedData>,
) -> (out: Vec<Vec<DecodedData>>)
    ensures
        out.deep_view() == spec_db_filter(rows.deep_view(), refc.deep_view(), nr.deep_view()),
{
    let mut out: Vec<Vec<DecodedData>> = Vec::new();
    let mut i: usize = 0;
    while i < rows.len()
        invariant
            i <= rows@.len(),
            out.deep_view() == spec_db_filter(
                rows.deep_view().take(i as int),
                refc.deep_view(),
                nr.deep_view(),
            ),
        decreases rows@.len() - i,
    {
        let ghost dv = rows.deep_view();
        proof {
            lemma_rows_deep(rows);
            assert(dv.take(i + 1 as int).drop_last() =~= dv.take(i as int));
            assert(dv.take(i + 1 as int).last() == dv[i as int]);
        }
        let canon = canon_row(&rows[i]);
        let keep = !row_in(refc, &canon) && !eq_row(&canon, nr);
        if keep {
            let ghost prev = out@;
            proof {
                lemma_rows_deep(&out);
            }
            let r = clone_row(&rows[i]);
            let ghost rv = r.deep_view();
            out.push(r);
            proof {
                lemma_rows_deep(&out);
                assert(out@ == prev.push(out@[out@.len() - 1]));
                assert forall|p: int| 0 <= p < out@.len() implies out.deep_view()[p]
                    == spec_db_filter(dv.take(i + 1 as int), refc.deep_view(), nr.deep_view())[p]
                by {
                    assert(out.deep_view()[p] == out@[p].deep_view());
                    if p < out@.len() - 1 {
                        assert(out@[p] == prev[p]);
                        assert(prev[p].deep_view() == spec_db_filter(
                            dv.take(i as int),
                            refc.deep_view(),
                            nr.deep_view(),
                        )[p]);
                    } else {
                        assert(out@[p].deep_view() == rv);
                    }
                }
                assert(out.deep_view() =~= spec_db_filter(
                    dv.take(i + 1 as int),
                    refc.deep_view(),
                    nr.deep_view(),
                ));
            }
        }
        i = i + 1;
    }
    proof {
        assert(rows.deep_view().take(rows@.len() as int) =~= rows.deep_view());
    }
    out
}

/// The reference value stored under a key among loc reference rows: the
/// value of the last row whose key column renders to `key`.
pub open spec fn spec_loc_lookup(refs: Seq<Seq<CellV>>, key: Seq<u8>) -> Option<Seq<u8>>
    decreases refs.len(),
{
    if refs.len() == 0 {
        None
    } else if spec_cell_text_bytes(refs.last()[0]) == key {
        Some(spec_cell_text_bytes(refs.last()[1]))
    } else {
        spec_loc_lookup(refs.drop_last(), key)
    }
}

/// Whether a loc row survives: it is kept unless it equals the default row,
/// or the reference holds its key with the very same value.
pub open spec fn spec_loc_keep(r: Seq<CellV>, refs: Seq<Seq<CellV>>, nr: Seq<CellV>) -> bool {
    &&& r != nr
    &&& match spec_loc_lookup(refs, spec_cell_text_bytes(r[0])) {
        Some(v) => spec_cell_text_bytes(r[1]) != v,
        None => true,
    }
}

/// The loc rows surviving the reference pass, in their original order.
pub open spec fn spec_loc_filter(rows: Seq<Seq<CellV>>, refs: Seq<Seq<CellV>>, nr: Seq<CellV>) -> Seq<
    Seq<CellV>,
>
    decreases rows.len(),
{
    if rows.len() == 0 {
        Seq::empty()
    } else {
        let rest = spec_loc_filter(rows.drop_last(), refs, nr);
        if spec_loc_keep(rows.last(), refs, nr) {
            rest.push(rows.last())
        } else {
            rest
        }
    }
}

/// `spec_loc_lookup` finds the last matching row.
pub proof fn lemma_loc_lookup_at(refs: Seq<Seq<CellV>>, key: Seq<u8>, i: int)
    requires
        0 <= i < refs.len(),
        spec_cell_text_bytes(refs[i][0]) == key,
        forall|l: int| i < l < refs.len() ==> spec_cell_text_bytes(#[trigger] refs[l][0]) != key,
    ensures
        spec_loc_lookup(refs, key) == Some(spec_cell_text_bytes(refs[i][1])),
    decreases refs.len(),
{
    if i == refs.len() - 1 {
    } else {
        assert(forall|l: int|
            i < l < refs.drop_last().len() ==> spec_cell_text_bytes(
                #[trigger] refs.drop_last()[l][0],
            ) != key);
        lemma_loc_lookup_at(refs.drop_last(), key, i);
    }
}

/// `spec_loc_lookup` finds nothing when no row matches.
pub proof fn lemma_loc_lookup_none(refs: Seq<Seq<CellV>>, key: Seq<u8>)
    requires
        forall|l: int| 0 <= l < refs.len() ==> spec_cell_text_bytes(#[trigger] refs[l][0]) != key,
    ensures
        spec_loc_lookup(refs, key) is None,
    decreases refs.len(),
{
    if refs.len() > 0 {
        lemma_loc_lookup_none(refs.drop_last(), key);
    }
}

/// Looks up a key among loc reference rows, later rows shadowing earlier
/// ones.
pub fn loc_lookup(refs: &Vec<Vec<DecodedData>>, key: &Vec<u8>) -> (r: Option<Vec<u8>>)
    requires
        forall|p: int| 0 <= p < refs.deep_view().len() ==> #[trigger] refs.deep_view()[p].len()
            >= 2,
    ensures
        match r {
            Some(v) => spec_loc_lookup(refs.deep_view(), key@) == Some(v@),
            None => spec_loc_lookup(refs.deep_view(), key@) is None,
        },
{
    proof {
        lemma_rows_deep(refs);
    }
    let mut i: usize = refs.len();
    while i > 0
        invariant
            i <= refs@.len(),
            forall|p: int| 0 <= p < refs.deep_view().len() ==> #[trigger] refs.deep_view()[p].len()
                >= 2,
            forall|l: int|
                i <= l < refs@.len() ==> spec_cell_text_bytes(
                    #[trigger] refs.deep_view()[l][0],
                ) != key@,
        decreases i,
    {
        i = i - 1;
        proof {
            lemma_rows_deep(refs);
            assert(refs.deep_view()[i as int] == refs@[i as int].deep_view());
        }
        let kb = cell_text_bytes(&refs[i][0]);
        if bytes_eq(&kb, key) {
            let vb = cell_text_bytes(&refs[i][1]);
            proof {
                lemma_loc_lookup_at(refs.deep_view(), key@, i as int);
            }
            return Some(vb);
        }
        proof {
            assert(refs@[i as int].deep_view()[0] == refs@[i as int]@[0].deep_view());
        }
    }
    proof {
        lemma_loc_lookup_none(refs.deep_view(), key@);
    }
    None
}

/// Filters a loc row list against the reference rows and the default row.
pub fn filter_loc_rows(
    rows: &Vec<Vec<DecodedData>>,
    refs: &Vec<Vec<DecodedData>>,
    nr: &Vec<DecodedData>,
) -> (out: Vec<Vec<DecodedData>>)
    requires
        forall|p: int| 0 <= p < refs.deep_view().len() ==> #[trigger] refs.deep_view()[p].len()
            >= 2,
        forall|p: int| 0 <= p < rows.deep_view().len() ==> #[trigger] rows.deep_view()[p].len()
            >= 2,
    ensures
        out.deep_view() == spec_loc_filter(rows.deep_view(), refs.deep_view(), nr.deep_view()),
{
    let mut out: Vec<Vec<DecodedData>> = Vec::new();
    let mut i: usize = 0;
    while i < rows.len()
        invariant
            i <= rows@.len(),
            forall|p: int| 0 <= p < refs.deep_view().len() ==> #[trigger] refs.deep_view()[p].len()
                >= 2,
            forall|p: int| 0 <= p < rows.deep_view().len() ==> #[trigger] rows.deep_view()[p].len()
                >= 2,
            out.deep_view() == spec_loc_filter(
                rows.deep_view().take(i as int),
                refs.deep_view(),
                nr.deep_view(),
            ),
        decreases rows@.len() - i,
    {
        let ghost dv = rows.deep_view();
        proof {
            lemma_rows_deep(rows);
            assert(dv.take(i + 1 as int).drop_last() =~= dv.take(i as int));
            assert(dv.take(i + 1 as int).last() == dv[i as int]);
            assert(rows@[i as int].deep_view()[0] == rows@[i as int]@[0].deep_view());
            assert(rows@[i as int].deep_view()[1] == rows@[i as int]@[1].deep_view());
        }
        let keep: bool = if eq_row(&rows[i], nr) {
            false
        } else {
            let kb = cell_text_bytes(&rows[i][0]);
            match loc_lookup(refs, &kb) {
                Some(v) => {
                    let vb = cell_text_bytes(&rows[i][1]);
                    !bytes_eq(&vb, &v)
                },
                None => true,
            }
        };
        proof {
            assert(keep == spec_loc_keep(dv[i as int], refs.deep_view(), nr.deep_view()));
        }
        if keep {
            let ghost prev = out@;
            proof {
                lemma_rows_deep(&out);
            }
            let r = clone_row(&rows[i]);
            let ghost rv = r.deep_view();
            out.push(r);
            proof {
                lemma_rows_deep(&out);
                assert(out@ == prev.push(out@[out@.len() - 1]));
                assert forall|p: int| 0 <= p < out@.len() implies out.deep_view()[p]
                    == spec_loc_filter(dv.take(i + 1 as int), refs.deep_view(), nr.deep_view())[p]
                by {
                    assert(out.deep_view()[p] == out@[p].deep_view());
                    if p < out@.len() - 1 {
                        assert(out@[p] == prev[p]);
                        assert(prev[p].deep_view() == spec_loc_filter(
                            dv.take(i as int),
                            refs.deep_view(),
                            nr.deep_view(),
                        )[p]);
                    } else {
                        assert(out@[p].deep_view() == rv);
                    }
                }
                assert(out.deep_view() =~= spec_loc_filter(
                    dv.take(i + 1 as int),
                    refs.deep_view(),
                    nr.deep_view(),
                ));
            }
        }
        i = i + 1;
    }
    proof {
        assert(rows.deep_view().take(rows@.len() as int) =~= rows.deep_view());
    }
    out
}

/// Rows surviving the reference pass keep their cell count.
pub proof fn lemma_db_filter_lens(
    rows: Seq<Seq<CellV>>,
    refc: Seq<Seq<CellV>>,
    nr: Seq<CellV>,
    len: int,
)
    requires
        forall|p: int| 0 <= p < rows.len() ==> #[trigger] rows[p].len() == len,
    ensures
        forall|p: int|
            0 <= p < spec_db_filter(rows, refc, nr).len() ==> #[trigger] spec_db_filter(
                rows,
                refc,
                nr,
            )[p].len() == len,
    decreases rows.len(),
{
    if rows.len() > 0 {
        assert(forall|p: int|
            0 <= p < rows.drop_last().len() ==> #[trigger] rows.drop_last()[p].len() == len);
        lemma_db_filter_lens(rows.drop_last(), refc, nr, len);
        let f = spec_db_filter(rows, refc, nr);
        let fr = spec_db_filter(rows.drop_last(), refc, nr);
        assert(rows[rows.len() - 1].len() == len);
        assert forall|p: int| 0 <= p < f.len() implies #[trigger] f[p].len() == len by {
            if spec_db_keep(rows.last(), refc, nr) {
                if p < f.len() - 1 {
                    assert(f[p] == fr[p]);
                } else {
                    assert(f[p] == rows.last());
                }
            } else {
                assert(f[p] == fr[p]);
            }
        }
    }
}

/// Loc rows surviving the reference pass keep their cell count.
pub proof fn lemma_loc_filter_lens(
    rows: Seq<Seq<CellV>>,
    refs: Seq<Seq<CellV>>,
    nr: Seq<CellV>,
    len: int,
)
    requires
        forall|p: int| 0 <= p < rows.len() ==> #[trigger] rows[p].len() == len,
    ensures
        forall|p: int|
            0 <= p < spec_loc_filter(rows, refs, nr).len() ==> #[trigger] spec_loc_filter(
                rows,
                refs,
                nr,
            )[p].len() == len,
    decreases rows.len(),
{
    if rows.len() > 0 {
        assert(forall|p: int|
            0 <= p < rows.drop_last().len() ==> #[trigger] rows.drop_last()[p].len() == len);
        lemma_loc_filter_lens(rows.drop_last(), refs, nr, len);
        let f = spec_loc_filter(rows, refs, nr);
        let fr = spec_loc_filter(rows.drop_last(), refs, nr);
        assert(rows[rows.len() - 1].len() == len);
        assert forall|p: int| 0 <= p < f.len() implies #[trigger] f[p].len() == len by {
            if spec_loc_keep(rows.last(), refs, nr) {
                if p < f.len() - 1 {
                    assert(f[p] == fr[p]);
                } else {
                    assert(f[p] == rows.last());
                }
            } else {
                assert(f[p] == fr[p]);
            }
        }
    }
}

/// Insertion keeps the cell count of every row.
pub proof fn lemma_insert_row_lens(acc: Seq<Seq<CellV>>, r: Seq<CellV>, k: int, tol: bool, len: int)
    requires
        forall|p: int| 0 <= p < acc.len() ==> #[trigger] acc[p].len() == len,
        r.len() == len,
    ensures
        forall|p: int|
            0 <= p < spec_insert_row(acc, r, k, tol).len() ==> #[trigger] spec_insert_row(
                acc,
                r,
                k,
                tol,
            )[p].len() == len,
    decreases acc.len(),
{
    let f = spec_insert_row(acc, r, k, tol);
    if acc.len() == 0 {
        assert forall|p: int| 0 <= p < f.len() implies #[trigger] f[p].len() == len by {
            assert(f[p] == r);
        }
    } else if spec_cmp_mode(r[k], acc[0][k], tol) < 0 {
        assert forall|p: int| 0 <= p < f.len() implies #[trigger] f[p].len() == len by {
            if p == 0 {
                assert(f[p] == r);
            } else {
                assert(f[p] == acc[p - 1]);
            }
        }
    } else {
        assert(forall|p: int|
            0 <= p < acc.drop_first().len() ==> #[trigger] acc.drop_first()[p].len() == len);
        lemma_insert_row_lens(acc.drop_first(), r, k, tol, len);
        let fr = spec_insert_row(acc.drop_first(), r, k, tol);
        assert forall|p: int| 0 <= p < f.len() implies #[trigger] f[p].len() == len by {
            if p == 0 {
                assert(f[p] == acc[0]);
            } else {
                assert(f[p] == fr[p - 1]);
            }
        }
    }
}

/// Sorting keeps the cell count of every row.
pub proof fn lemma_sort_rows_lens(s: Seq<Seq<CellV>>, k: int, tol: bool, len: int)
    requires
        forall|p: int| 0 <= p < s.len() ==> #[trigger] s[p].len() == len,
    ensures
        forall|p: int|
            0 <= p < spec_sort_rows(s, k, tol).len() ==> #[trigger] spec_sort_rows(s, k, tol)[
                p
            ].len() == len,
    decreases s.len(),
{
    if s.len() > 0 {
        assert(forall|p: int|
            0 <= p < s.drop_last().len() ==> #[trigger] s.drop_last()[p].len() == len);
        lemma_sort_rows_lens(s.drop_last(), k, tol, len);
        assert(s[s.len() - 1].len() == len);
        lemma_insert_row_lens(spec_sort_rows(s.drop_last(), k, tol), s.last(), k, tol, len);
    }
}

/// Deduplication keeps the cell count of every row.
pub proof fn lemma_dedup_rows_lens(s: Seq<Seq<CellV>>, len: int)
    requires
        forall|p: int| 0 <= p < s.len() ==> #[trigger] s[p].len() == len,
    ensures
        forall|p: int|
            0 <= p < spec_dedup_rows(s).len() ==> #[trigger] spec_dedup_rows(s)[p].len() == len,
    decreases s.len(),
{
    if s.len() > 1 {
        assert(forall|p: int|
            0 <= p < s.drop_last().len() ==> #[trigger] s.drop_last()[p].len() == len);
        lemma_dedup_rows_lens(s.drop_last(), len);
        let f = spec_dedup_rows(s);
        let fr = spec_dedup_rows(s.drop_last());
        assert(s[s.len() - 1].len() == len);
        assert forall|p: int| 0 <= p < f.len() implies #[trigger] f[p].len() == len by {
            if s.last() == s[s.len() - 2] {
                assert(f[p] == fr[p]);
            } else {
                if p < f.len() - 1 {
                    assert(f[p] == fr[p]);
                } else {
                    assert(f[p] == s.last());
                }
            }
        }
    }
}

/// True when some string in the list reads `n`.
pub open spec fn spec_name_in(names: Seq<String>, n: Seq<char>) -> bool {
    exists|i: int| 0 <= i < names.len() && names[i]@ == n
}

/// Tests whether some string in the list reads like `n`.
pub fn name_in(names: &Vec<String>, n: &String) -> (r: bool)
    ensures
        r == spec_name_in(names@, n@),
{
    let mut i: usize = 0;
    while i < names.len()
        invariant
            i <= names@.len(),
            forall|j: int| 0 <= j < i ==> #[trigger] names@[j]@ != n@,
        decreases names@.len() - i,
    {
        if names[i] == *n {
            return true;
        }
        i = i + 1;
    }
    false
}

/// First position holding reference rows for a table name, or -1.
pub open spec fn spec_db_find(tables: Seq<(String, Vec<Vec<DecodedData>>)>, n: Seq<char>) -> int
    decreases tables.len(),
{
    if tables.len() == 0 {
        -1
    } else if tables[0].0@ == n {
        0
    } else {
        let rest = spec_db_find(tables.drop_first(), n);
        if rest == -1 {
            -1
        } else {
            1 + rest
        }
    }
}

/// When no earlier entry holds the name, the find is at `i`, or -1 at the
/// end.
pub proof fn lemma_db_find_at(tables: Seq<(String, Vec<Vec<DecodedData>>)>, n: Seq<char>, i: int)
    requires
        0 <= i <= tables.len(),
        forall|j: int| 0 <= j < i ==> (#[trigger] tables[j]).0@ != n,
        i < tables.len() ==> tables[i].0@ == n,
    ensures
        spec_db_find(tables, n) == if i < tables.len() {
            i
        } else {
            -1
        },
    decreases tables.len(),
{
    if tables.len() == 0 {
    } else if tables[0].0@ == n {
        assert(i == 0);
    } else {
        assert(forall|j: int| 0 <= j < i - 1 ==> (#[trigger] tables.drop_first()[j]).0@ != n);
        lemma_db_find_at(tables.drop_first(), n, i - 1);
    }
}

/// The reference dataset the optimizer diffs against: vanilla and parent
/// data merged, handed in as plain values by the caller. The dependency
/// provider itself stays outside the library.
pub struct Dependencies {
    /// Whether reference data is loaded at all; without it no optimization
    /// runs.
    pub vanilla_loaded: bool,
    /// Reference rows per table name.
    pub db_tables: Vec<(String, Vec<Vec<DecodedData>>)>,
    /// Table names whose reference data cannot be read; their tables are
    /// skipped, not failed.
    pub db_unreadable: Vec<String>,
    /// Whether the loc reference rows could be read.
    pub loc_readable: bool,
    /// The merged loc reference rows, key and value in the first two
    /// columns.
    pub loc_rows: Vec<Vec<DecodedData>>,
    /// Paths that exist in the vanilla or parent data; a file under such a
    /// path is presumed an intentional overwrite.
    pub existing_paths: Vec<String>,
}

impl Dependencies {
    /// Every loc reference row carries at least its key and value columns.
    pub open spec fn wf(self) -> bool {
        forall|p: int|
            0 <= p < self.loc_rows.deep_view().len() ==> #[trigger] self.loc_rows.deep_view()[
                p
            ].len() >= 2
    }

    /// Whether the reference dataset is loaded.
    pub fn is_vanilla_data_loaded(&self, _strict: bool) -> (r: bool)
        ensures
            r == self.vanilla_loaded,
    {
        self.vanilla_loaded
    }

    /// Whether a file under this path exists in the reference data.
    pub fn file_exists(&self, path: &String, _vanilla: bool, _parent: bool, _current: bool) -> (r:
        bool)
        ensures
            r == spec_name_in(self.existing_paths@, path@),
    {
        name_in(&self.existing_paths, path)
    }
}

/// The reference rows a table diffs against: nothing when the table's
/// reference data cannot be read, otherwise the stored rows, or no rows at
/// all for a table the reference does not know.
pub open spec fn spec_db_ref(deps: Dependencies, n: Seq<char>) -> Option<Seq<Seq<CellV>>> {
    if spec_name_in(deps.db_unreadable@, n) {
        None
    } else {
        let at = spec_db_find(deps.db_tables@, n);
        if at == -1 {
            Some(Seq::empty())
        } else {
            Some(deps.db_tables@[at].1.deep_view())
        }
    }
}

/// The loc reference rows, or nothing when they cannot be read.
pub open spec fn spec_loc_ref(deps: Dependencies) -> Option<Seq<Seq<CellV>>> {
    if deps.loc_readable {
        Some(deps.loc_rows.deep_view())
    } else {
        None
    }
}

/// A decoded table-backed file of the regular kind, with the name its rows
/// are diffed under.
pub struct DB {
    /// The logical table name the reference data is keyed by.
    pub table_name: String,
    /// The decoded table.
    pub table: Table,
}

/// A decoded localisation table.
pub struct Loc {
    /// The decoded table; the first two columns are key and value.
    pub table: Table,
}

/// How a finished DB optimization relates the new table to the old one.
pub open spec fn spec_db_optimized(o: DB, n: DB, deps: Dependencies) -> bool {
    &&& n.table_name == o.table_name
    &&& n.table.definition == o.table.definition
    &&& match spec_db_ref(deps, o.table_name@) {
        None => n.table.rows == o.table.rows,
        Some(refrows) => n.table.rows.deep_view() == spec_optimize_rows(
            o.table.rows.deep_view(),
            spec_canon_rows(refrows),
            spec_canon_row(spec_default_row(o.table.definition.fields@)),
            spec_first_key(o.table.definition.fields@),
        ),
    }
}

/// Whether a DB optimization leaves the table empty.
pub open spec fn spec_db_empties(o: DB, deps: Dependencies) -> bool {
    match spec_db_ref(deps, o.table_name@) {
        None => false,
        Some(refrows) => spec_optimize_rows(
            o.table.rows.deep_view(),
            spec_canon_rows(refrows),
            spec_canon_row(spec_default_row(o.table.definition.fields@)),
            spec_first_key(o.table.definition.fields@),
        ).len() == 0,
    }
}

/// How a finished loc optimization relates the new table to the old one.
pub open spec fn spec_loc_optimized(o: Loc, n: Loc, deps: Dependencies) -> bool {
    &&& n.table.definition == o.table.definition
    &&& match spec_loc_ref(deps) {
        None => n.table.rows == o.table.rows,
        Some(refs) => n.table.rows.deep_view() == spec_dedup_rows(
            spec_sort_rows(
                spec_loc_filter(
                    o.table.rows.deep_view(),
                    refs,
                    spec_default_row(o.table.definition.fields@),
                ),
                0,
                false,
            ),
        ),
    }
}

/// Whether a loc optimization leaves the table empty.
pub open spec fn spec_loc_empties(o: Loc, deps: Dependencies) -> bool {
    match spec_loc_ref(deps) {
        None => false,
        Some(refs) => spec_dedup_rows(
            spec_sort_rows(
                spec_loc_filter(
                    o.table.rows.deep_view(),
                    refs,
                    spec_default_row(o.table.definition.fields@),
                ),
                0,
                false,
            ),
        ).len() == 0,
    }
}

impl DB {
    /// Removes rows identical to reference rows and rows equal to the
    /// canonicalized default row, sorts what remains by the first key
    /// column under the tolerant comparison, removes adjacent duplicates,
    /// and reports whether nothing is left. A table whose reference data
    /// cannot be read is left untouched and reported non-empty.
    pub fn optimize(&mut self, dependencies: &Dependencies) -> (r: bool)
        requires
            old(self).table.wf(),
            old(self).table.definition.fields@.len() > 0,
        ensures
            spec_db_optimized(*old(self), *final(self), *dependencies),
            r == spec_db_empties(*old(self), *dependencies),
            final(self).table.wf(),
    {
        if name_in(&dependencies.db_unreadable, &self.table_name) {
            return false;
        }
        let found = db_tables_find(&dependencies.db_tables, &self.table_name);
        let crefs: Vec<Vec<DecodedData>> = match found {
            Some(i) => canon_rows(&dependencies.db_tables[i].1),
            None => {
                let empty: Vec<Vec<DecodedData>> = Vec::new();
                proof {
                    assert(empty.deep_view() =~= spec_canon_rows(Seq::empty()));
                    assert(empty.deep_view() =~= Seq::<Seq<CellV>>::empty());
                }
                empty
            },
        };
        let ghost refrows = spec_db_ref(*dependencies, self.table_name@).unwrap();
        proof {
            assert(crefs.deep_view() == spec_canon_rows(refrows));
        }
        let nr0 = self.table.new_row();
        let nrc = canon_row(&nr0);
        let mut filtered = filter_db_rows(&self.table.rows, &crefs, &nrc);
        let k = self.table.first_key_index();
        let ghost fields = self.table.definition.fields@;
        let ghost fl = spec_db_filter(
            self.table.rows.deep_view(),
            crefs.deep_view(),
            nrc.deep_view(),
        );
        proof {
            lemma_db_filter_lens(
                self.table.rows.deep_view(),
                crefs.deep_view(),
                nrc.deep_view(),
                fields.len() as int,
            );
            lemma_rows_deep(&filtered);
            assert forall|p: int| 0 <= p < filtered@.len() implies k < #[trigger] filtered@[p]@.len()
            by {
                assert(filtered.deep_view()[p].len() == filtered@[p]@.len());
                assert(spec_db_filter(
                    self.table.rows.deep_view(),
                    crefs.deep_view(),
                    nrc.deep_view(),
                )[p].len() == fields.len());
            }
        }
        sort_rows(&mut filtered, k, true);
        let out = dedup_rows(&filtered);
        let empty = out.len() == 0;
        proof {
            lemma_sort_rows_lens(fl, k as int, true, fields.len() as int);
            lemma_dedup_rows_lens(spec_sort_rows(fl, k as int, true), fields.len() as int);
            lemma_rows_deep(&out);
        }
        self.table.set_data(out);
        empty
    }
}

/// First position holding reference rows for a table name.
pub fn db_tables_find(tables: &Vec<(String, Vec<Vec<DecodedData>>)>, n: &String) -> (r: Option<
    usize,
>)
    ensures
        match r {
            Some(i) => spec_db_find(tables@, n@) == i as int && i < tables@.len(),
            None => spec_db_find(tables@, n@) == -1,
        },
{
    let mut i: usize = 0;
    let len = tables.len();
    while i < len
        invariant
            i <= len,
            len == tables@.len(),
            forall|j: int| 0 <= j < i ==> (#[trigger] tables@[j]).0@ != n@,
        decreases len - i,
    {
        if tables[i].0 == *n {
            proof {
                lemma_db_find_at(tables@, n@, i as int);
            }
            return Some(i);
        }
        i = i + 1;
    }
    proof {
        lemma_db_find_at(tables@, n@, len as int);
    }
    None
}

impl Loc {
    /// Removes rows whose value matches the reference value under the same
    /// key and rows equal to the default row, sorts what remains by the key
    /// column's text, removes adjacent duplicates, and reports whether
    /// nothing is left. When the loc reference cannot be read the table is
    /// left untouched and reported non-empty.
    pub fn optimize(&mut self, dependencies: &Dependencies) -> (r: bool)
        requires
            old(self).table.wf(),
            old(self).table.definition.fields@.len() >= 2,
            dependencies.wf(),
        ensures
            spec_loc_optimized(*old(self), *final(self), *dependencies),
            r == spec_loc_empties(*old(self), *dependencies),
            final(self).table.wf(),
    {
        if !dependencies.loc_readable {
            return false;
        }
        let nr0 = self.table.new_row();
        let ghost fields = self.table.definition.fields@;
        proof {
            lemma_rows_deep(&self.table.rows);
        }
        let mut filtered = filter_loc_rows(&self.table.rows, &dependencies.loc_rows, &nr0);
        let ghost fl = spec_loc_filter(
            self.table.rows.deep_view(),
            dependencies.loc_rows.deep_view(),
            nr0.deep_view(),
        );
        proof {
            lemma_loc_filter_lens(
                self.table.rows.deep_view(),
                dependencies.loc_rows.deep_view(),
                nr0.deep_view(),
                fields.len() as int,
            );
            lemma_rows_deep(&filtered);
            assert forall|p: int| 0 <= p < filtered@.len() implies 0 < #[trigger] filtered@[p]@.len()
            by {
                assert(filtered.deep_view()[p].len() == filtered@[p]@.len());
                assert(spec_loc_filter(
                    self.table.rows.deep_view(),
                    dependencies.loc_rows.deep_view(),
                    nr0.deep_view(),
                )[p].len() == fields.len());
            }
        }
        sort_rows(&mut filtered, 0, false);
        let out = dedup_rows(&filtered);
        let empty = out.len() == 0;
        proof {
            lemma_sort_rows_lens(fl, 0, false, fields.len() as int);
            lemma_dedup_rows_lens(spec_sort_rows(fl, 0, false), fields.len() as int);
            lemma_rows_deep(&out);
        }
        self.table.set_data(out);
        empty
    }
}

/// When no row survives the reference pass, the filter yields nothing.
pub proof fn lemma_db_filter_none(rows: Seq<Seq<CellV>>, refc: Seq<Seq<CellV>>, nr: Seq<CellV>)
    requires
        forall|i: int| 0 <= i < rows.len() ==> !spec_db_keep(#[trigger] rows[i], refc, nr),
    ensures
        spec_db_filter(rows, refc, nr).len() == 0,
    decreases rows.len(),
{
    if rows.len() > 0 {
        assert(!spec_db_keep(rows[rows.len() - 1], refc, nr));
        assert(forall|i: int|
            0 <= i < rows.drop_last().len() ==> !spec_db_keep(
                #[trigger] rows.drop_last()[i],
                refc,
                nr,
            ));
        lemma_db_filter_none(rows.drop_last(), refc, nr);
    }
}

/// A table whose every row, in canonical form, is identical to a canonical
/// reference row or to the canonical default row optimizes to nothing, so
/// the container pass marks its file for removal.
pub proof fn lemma_db_all_redundant_empties(db: DB, deps: Dependencies)
    requires
        spec_db_ref(deps, db.table_name@) is Some,
        forall|i: int|
            0 <= i < db.table.rows.deep_view().len() ==> {
                let r = #[trigger] db.table.rows.deep_view()[i];
                spec_row_in(
                    spec_canon_rows(spec_db_ref(deps, db.table_name@).unwrap()),
                    spec_canon_row(r),
                ) || spec_canon_row(r) == spec_canon_row(
                    spec_default_row(db.table.definition.fields@),
                )
            },
    ensures
        spec_db_empties(db, deps),
{
    let rows = db.table.rows.deep_view();
    let refc = spec_canon_rows(spec_db_ref(deps, db.table_name@).unwrap());
    let nr = spec_canon_row(spec_default_row(db.table.definition.fields@));
    let k = spec_first_key(db.table.definition.fields@);
    assert(forall|i: int| 0 <= i < rows.len() ==> !spec_db_keep(#[trigger] rows[i], refc, nr));
    lemma_db_filter_none(rows, refc, nr);
    lemma_sort_rows_len(spec_db_filter(rows, refc, nr), k, true);
    assert(spec_sort_rows(spec_db_filter(rows, refc, nr), k, true).len() == 0);
    assert(spec_optimize_rows(rows, refc, nr, k).len() == 0);
}

/// Strict lexicographic order rejects its own reverse.
pub proof fn lemma_lex_lt_asym(a: Seq<u8>, b: Seq<u8>)
    requires
        lex_lt(a, b),
    ensures
        !lex_lt(b, a),
    decreases a.len(),
{
    if b.len() == 0 {
    } else if a.len() == 0 {
    } else if a[0] < b[0] {
    } else if a[0] > b[0] {
    } else {
        lemma_lex_lt_asym(a.drop_first(), b.drop_first());
    }
}

/// Two distinct byte strings compare strictly one way or the other.
pub proof fn lemma_lex_lt_connex(a: Seq<u8>, b: Seq<u8>)
    requires
        a != b,
    ensures
        lex_lt(a, b) || lex_lt(b, a),
    decreases a.len(),
{
    if b.len() == 0 {
        if a.len() == 0 {
            assert(a =~= b);
        }
    } else if a.len() == 0 {
    } else if a[0] < b[0] {
    } else if a[0] > b[0] {
    } else {
        if a.drop_first() == b.drop_first() {
            assert(a[0] == b[0]);
            assert(a.drop_first().len() == a.len() - 1);
            assert(b.drop_first().len() == b.len() - 1);
            assert(a.len() == b.len());
            assert forall|i: int| 0 <= i < a.len() implies a[i] == b[i] by {
                if i > 0 {
                    assert(a.drop_first()[i - 1] == b.drop_first()[i - 1]);
                }
            }
            assert(a =~= b);
        } else {
            lemma_lex_lt_connex(a.drop_first(), b.drop_first());
        }
    }
}

/// Strict lexicographic order chains.
pub proof fn lemma_lex_lt_trans(a: Seq<u8>, b: Seq<u8>, c: Seq<u8>)
    requires
        lex_lt(a, b),
        lex_lt(b, c),
    ensures
        lex_lt(a, c),
    decreases a.len(),
{
    if c.len() == 0 {
    } else if b.len() == 0 {
    } else if a.len() == 0 {
    } else if a[0] < b[0] {
        if b[0] < c[0] {
        } else if b[0] > c[0] {
        } else {
        }
    } else if a[0] > b[0] {
    } else {
        if b[0] < c[0] {
        } else if b[0] > c[0] {
        } else {
            lemma_lex_lt_trans(a.drop_first(), b.drop_first(), c.drop_first());
        }
    }
}

/// The textual comparison flips sign when its operands swap.
pub proof fn lemma_text_cmp_antisym(a: CellV, b: CellV)
    ensures
        spec_text_cmp(a, b) == -spec_text_cmp(b, a),
{
    let ab = spec_cell_text_bytes(a);
    let bb = spec_cell_text_bytes(b);
    if ab == bb {
    } else {
        lemma_lex_lt_connex(ab, bb);
        if lex_lt(ab, bb) {
            lemma_lex_lt_asym(ab, bb);
        } else {
            lemma_lex_lt_asym(bb, ab);
        }
    }
}

/// The textual comparison chains through its weak order.
pub proof fn lemma_text_cmp_trans(a: CellV, b: CellV, c: CellV)
    requires
        spec_text_cmp(a, b) <= 0,
        spec_text_cmp(b, c) <= 0,
    ensures
        spec_text_cmp(a, c) <= 0,
{
    let ab = spec_cell_text_bytes(a);
    let bb = spec_cell_text_bytes(b);
    let cb = spec_cell_text_bytes(c);
    if ab == bb || bb == cb || ab == cb {
    } else {
        lemma_lex_lt_trans(ab, bb, cb);
        lemma_lex_lt_asym(ab, cb);
    }
}

/// Rows in fully sorted order under the textual comparison at column `k`:
/// every earlier key compares at or below every later one.
pub open spec fn rows_sorted_text(s: Seq<Seq<CellV>>, k: int) -> bool {
    forall|i: int, j: int|
        0 <= i < j < s.len() ==> spec_text_cmp(#[trigger] s[i][k], #[trigger] s[j][k]) <= 0
}

/// Every row of an inserted list is the inserted row or one of the old
/// ones.
pub proof fn lemma_insert_row_in(acc: Seq<Seq<CellV>>, r: Seq<CellV>, k: int, tol: bool)
    ensures
        forall|p: int|
            0 <= p < spec_insert_row(acc, r, k, tol).len() ==> spec_row_in(
                acc,
                #[trigger] spec_insert_row(acc, r, k, tol)[p],
            ) || spec_insert_row(acc, r, k, tol)[p] == r,
    decreases acc.len(),
{
    let f = spec_insert_row(acc, r, k, tol);
    if acc.len() == 0 {
    } else if spec_cmp_mode(r[k], acc[0][k], tol) < 0 {
        assert forall|p: int| 0 <= p < f.len() implies spec_row_in(acc, #[trigger] f[p]) || f[p]
            == r by {
            if p > 0 {
                assert(f[p] == acc[p - 1]);
            }
        }
    } else {
        lemma_insert_row_in(acc.drop_first(), r, k, tol);
        let fr = spec_insert_row(acc.drop_first(), r, k, tol);
        assert forall|p: int| 0 <= p < f.len() implies spec_row_in(acc, #[trigger] f[p]) || f[p]
            == r by {
            if p > 0 {
                assert(f[p] == fr[p - 1]);
                if spec_row_in(acc.drop_first(), fr[p - 1]) {
                    let w = choose|w: int|
                        0 <= w < acc.drop_first().len() && acc.drop_first()[w] == fr[p - 1];
                    assert(acc[w + 1] == fr[p - 1]);
                }
            }
        }
    }
}

/// Every row of a sorted list is one of the original rows.
pub proof fn lemma_sort_rows_in(s: Seq<Seq<CellV>>, k: int, tol: bool)
    ensures
        forall|p: int|
            0 <= p < spec_sort_rows(s, k, tol).len() ==> spec_row_in(
                s,
                #[trigger] spec_sort_rows(s, k, tol)[p],
            ),
    decreases s.len(),
{
    if s.len() > 0 {
        let rest = s.drop_last();
        lemma_sort_rows_in(rest, k, tol);
        lemma_insert_row_in(spec_sort_rows(rest, k, tol), s.last(), k, tol);
        let f = spec_sort_rows(s, k, tol);
        assert forall|p: int| 0 <= p < f.len() implies spec_row_in(s, #[trigger] f[p]) by {
            if f[p] == s.last() {
                assert(s[s.len() - 1] == f[p]);
            } else {
                assert(spec_row_in(spec_sort_rows(rest, k, tol), f[p]));
                let w = choose|w: int|
                    0 <= w < spec_sort_rows(rest, k, tol).len() && spec_sort_rows(rest, k, tol)[w]
                        == f[p];
                assert(spec_row_in(rest, f[p]));
                let v = choose|v: int| 0 <= v < rest.len() && rest[v] == f[p];
                assert(s[v] == f[p]);
            }
        }
    }
}

/// Every row of a deduplicated list is one of the original rows.
pub proof fn lemma_dedup_rows_in(s: Seq<Seq<CellV>>)
    ensures
        forall|p: int|
            0 <= p < spec_dedup_rows(s).len() ==> spec_row_in(s, #[trigger] spec_dedup_rows(s)[p]),
    decreases s.len(),
{
    if s.len() > 1 {
        let rest = s.drop_last();
        lemma_dedup_rows_in(rest);
        let f = spec_dedup_rows(s);
        assert forall|p: int| 0 <= p < f.len() implies spec_row_in(s, #[trigger] f[p]) by {
            if p < spec_dedup_rows(rest).len() && f[p] == spec_dedup_rows(rest)[p] {
                assert(spec_row_in(rest, f[p]));
                let v = choose|v: int| 0 <= v < rest.len() && rest[v] == f[p];
                assert(s[v] == f[p]);
            } else {
                assert(f[p] == s.last());
                assert(s[s.len() - 1] == f[p]);
            }
        }
    } else if s.len() == 1 {
        assert(spec_dedup_rows(s) == s);
        assert(s[0] == s[0]);
    }
}

/// Inserting into a sorted list under the textual comparison keeps it
/// sorted.
pub proof fn lemma_insert_sorted_text(acc: Seq<Seq<CellV>>, r: Seq<CellV>, k: int)
    requires
        rows_sorted_text(acc, k),
    ensures
        rows_sorted_text(spec_insert_row(acc, r, k, false), k),
    decreases acc.len(),
{
    let f = spec_insert_row(acc, r, k, false);
    if acc.len() == 0 {
    } else if spec_cmp_mode(r[k], acc[0][k], false) < 0 {
        assert forall|i: int, j: int| 0 <= i < j < f.len() implies spec_text_cmp(
            #[trigger] f[i][k],
            #[trigger] f[j][k],
        ) <= 0 by {
            if i == 0 {
                assert(f[j] == acc[j - 1]);
                if j > 1 {
                    assert(spec_text_cmp(acc[0][k], acc[j - 1][k]) <= 0);
                    lemma_text_cmp_trans(r[k], acc[0][k], acc[j - 1][k]);
                }
            } else {
                assert(f[i] == acc[i - 1] && f[j] == acc[j - 1]);
            }
        }
    } else {
        let rest = acc.drop_first();
        assert(rows_sorted_text(rest, k)) by {
            assert forall|i: int, j: int| 0 <= i < j < rest.len() implies spec_text_cmp(
                #[trigger] rest[i][k],
                #[trigger] rest[j][k],
            ) <= 0 by {
                assert(rest[i] == acc[i + 1] && rest[j] == acc[j + 1]);
                assert(spec_text_cmp(acc[i + 1][k], acc[j + 1][k]) <= 0);
            }
        }
        lemma_insert_sorted_text(rest, r, k);
        lemma_insert_row_in(rest, r, k, false);
        let fr = spec_insert_row(rest, r, k, false);
        assert forall|i: int, j: int| 0 <= i < j < f.len() implies spec_text_cmp(
            #[trigger] f[i][k],
            #[trigger] f[j][k],
        ) <= 0 by {
            if i == 0 {
                assert(f[j] == fr[j - 1]);
                if fr[j - 1] == r {
                    lemma_text_cmp_antisym(r[k], acc[0][k]);
                } else {
                    assert(spec_row_in(rest, fr[j - 1]));
                    let w = choose|w: int| 0 <= w < rest.len() && rest[w] == fr[j - 1];
                    assert(rest[w] == acc[w + 1]);
                    assert(spec_text_cmp(acc[0][k], acc[w + 1][k]) <= 0);
                }
            } else {
                assert(f[i] == fr[i - 1] && f[j] == fr[j - 1]);
                assert(spec_text_cmp(fr[i - 1][k], fr[j - 1][k]) <= 0);
            }
        }
    }
}

/// Sorting under the textual comparison yields a sorted list.
pub proof fn lemma_sort_sorted_text(s: Seq<Seq<CellV>>, k: int)
    ensures
        rows_sorted_text(spec_sort_rows(s, k, false), k),
    decreases s.len(),
{
    if s.len() > 0 {
        lemma_sort_sorted_text(s.drop_last(), k);
        lemma_insert_sorted_text(spec_sort_rows(s.drop_last(), k, false), s.last(), k);
    }
}

/// A row whose key is at or above every key in the list is inserted at the
/// end.
pub proof fn lemma_insert_at_end(acc: Seq<Seq<CellV>>, r: Seq<CellV>, k: int)
    requires
        forall|j: int| 0 <= j < acc.len() ==> spec_text_cmp((#[trigger] acc[j])[k], r[k]) <= 0,
    ensures
        spec_insert_row(acc, r, k, false) == acc.push(r),
    decreases acc.len(),
{
    if acc.len() == 0 {
        assert(spec_insert_row(acc, r, k, false) =~= acc.push(r));
    } else {
        lemma_text_cmp_antisym(r[k], acc[0][k]);
        assert(!(spec_cmp_mode(r[k], acc[0][k], false) < 0));
        let rest = acc.drop_first();
        assert(forall|j: int|
            0 <= j < rest.len() ==> spec_text_cmp((#[trigger] rest[j])[k], r[k]) <= 0) by {
            assert forall|j: int| 0 <= j < rest.len() implies spec_text_cmp(
                (#[trigger] rest[j])[k],
                r[k],
            ) <= 0 by {
                assert(rest[j] == acc[j + 1]);
                assert(spec_text_cmp(acc[j + 1][k], r[k]) <= 0);
            }
        }
        lemma_insert_at_end(rest, r, k);
        assert(spec_insert_row(acc, r, k, false) =~= acc.push(r));
    }
}

/// Sorting a list already sorted under the textual comparison changes
/// nothing.
pub proof fn lemma_sort_fixpoint_text(s: Seq<Seq<CellV>>, k: int)
    requires
        rows_sorted_text(s, k),
    ensures
        spec_sort_rows(s, k, false) == s,
    decreases s.len(),
{
    if s.len() > 0 {
        let rest = s.drop_last();
        assert(rows_sorted_text(rest, k)) by {
            assert forall|i: int, j: int| 0 <= i < j < rest.len() implies spec_text_cmp(
                #[trigger] rest[i][k],
                #[trigger] rest[j][k],
            ) <= 0 by {
                assert(rest[i] == s[i] && rest[j] == s[j]);
                assert(spec_text_cmp(s[i][k], s[j][k]) <= 0);
            }
        }
        lemma_sort_fixpoint_text(rest, k);
        assert(forall|j: int|
            0 <= j < rest.len() ==> spec_text_cmp((#[trigger] rest[j])[k], s.last()[k]) <= 0)
            by {
            assert forall|j: int| 0 <= j < rest.len() implies spec_text_cmp(
                (#[trigger] rest[j])[k],
                s.last()[k],
            ) <= 0 by {
                assert(rest[j] == s[j]);
                assert(spec_text_cmp(s[j][k], s[s.len() - 1][k]) <= 0);
            }
        }
        lemma_insert_at_end(rest, s.last(), k);
        assert(spec_sort_rows(s, k, false) =~= s);
    }
}

/// Deduplication keeps a sorted list sorted.
pub proof fn lemma_dedup_sorted_text(s: Seq<Seq<CellV>>, k: int)
    requires
        rows_sorted_text(s, k),
    ensures
        rows_sorted_text(spec_dedup_rows(s), k),
    decreases s.len(),
{
    if s.len() > 1 {
        let rest = s.drop_last();
        assert(rows_sorted_text(rest, k)) by {
            assert forall|i: int, j: int| 0 <= i < j < rest.len() implies spec_text_cmp(
                #[trigger] rest[i][k],
                #[trigger] rest[j][k],
            ) <= 0 by {
                assert(rest[i] == s[i] && rest[j] == s[j]);
                assert(spec_text_cmp(s[i][k], s[j][k]) <= 0);
            }
        }
        lemma_dedup_sorted_text(rest, k);
        lemma_dedup_rows_in(rest);
        let f = spec_dedup_rows(s);
        let dr = spec_dedup_rows(rest);
        assert forall|i: int, j: int| 0 <= i < j < f.len() implies spec_text_cmp(
            #[trigger] f[i][k],
            #[trigger] f[j][k],
        ) <= 0 by {
            if s.last() == s[s.len() - 2] {
                assert(f[i] == dr[i] && f[j] == dr[j]);
                assert(spec_text_cmp(dr[i][k], dr[j][k]) <= 0);
            } else {
                if j < f.len() - 1 {
                    assert(f[i] == dr[i] && f[j] == dr[j]);
                    assert(spec_text_cmp(dr[i][k], dr[j][k]) <= 0);
                } else {
                    assert(f[i] == dr[i] && f[j] == s.last());
                    assert(spec_row_in(rest, dr[i]));
                    let w = choose|w: int| 0 <= w < rest.len() && rest[w] == dr[i];
                    assert(rest[w] == s[w]);
                    assert(spec_text_cmp(s[w][k], s[s.len() - 1][k]) <= 0);
                }
            }
        }
    }
}

/// Deduplication keeps the last row.
pub proof fn lemma_dedup_last(s: Seq<Seq<CellV>>)
    requires
        s.len() > 0,
    ensures
        spec_dedup_rows(s).len() > 0,
        spec_dedup_rows(s).last() == s.last(),
    decreases s.len(),
{
    if s.len() > 1 {
        lemma_dedup_last(s.drop_last());
    }
}

/// Deduplication leaves no two equal neighbours.
pub proof fn lemma_dedup_no_adjacent(s: Seq<Seq<CellV>>)
    ensures
        forall|p: int|
            0 <= p < spec_dedup_rows(s).len() - 1 ==> #[trigger] spec_dedup_rows(s)[p]
                != spec_dedup_rows(s)[p + 1],
    decreases s.len(),
{
    if s.len() > 1 {
        let rest = s.drop_last();
        lemma_dedup_no_adjacent(rest);
        let f = spec_dedup_rows(s);
        let dr = spec_dedup_rows(rest);
        assert forall|p: int| 0 <= p < f.len() - 1 implies #[trigger] f[p] != f[p + 1] by {
            if s.last() == s[s.len() - 2] {
                assert(f[p] == dr[p] && f[p + 1] == dr[p + 1]);
            } else {
                if p + 1 < f.len() - 1 {
                    assert(f[p] == dr[p] && f[p + 1] == dr[p + 1]);
                } else {
                    assert(f[p + 1] == s.last());
                    assert(f[p] == dr[p]);
                    lemma_dedup_last(rest);
                    assert(dr[dr.len() - 1] == rest[rest.len() - 1]);
                    assert(rest[rest.len() - 1] == s[s.len() - 2]);
                }
            }
        }
    }
}

/// Deduplicating a list with no equal neighbours changes nothing.
pub proof fn lemma_dedup_of_nodup(s: Seq<Seq<CellV>>)
    requires
        forall|p: int| 0 <= p < s.len() - 1 ==> #[trigger] s[p] != s[p + 1],
    ensures
        spec_dedup_rows(s) == s,
    decreases s.len(),
{
    if s.len() > 1 {
        let rest = s.drop_last();
        assert(forall|p: int| 0 <= p < rest.len() - 1 ==> #[trigger] rest[p] != rest[p + 1]) by {
            assert forall|p: int| 0 <= p < rest.len() - 1 implies #[trigger] rest[p] != rest[p
                + 1] by {
                assert(rest[p] == s[p] && rest[p + 1] == s[p + 1]);
            }
        }
        lemma_dedup_of_nodup(rest);
        assert(s.last() != s[s.len() - 2]) by {
            assert(s[s.len() - 2] != s[s.len() - 2 + 1]);
        }
        assert(spec_dedup_rows(s) =~= s);
    }
}

/// Every filtered row passes the keep test.
pub proof fn lemma_db_filter_keeps(rows: Seq<Seq<CellV>>, refc: Seq<Seq<CellV>>, nr: Seq<CellV>)
    ensures
        forall|p: int|
            0 <= p < spec_db_filter(rows, refc, nr).len() ==> spec_db_keep(
                #[trigger] spec_db_filter(rows, refc, nr)[p],
                refc,
                nr,
            ),
    decreases rows.len(),
{
    if rows.len() > 0 {
        lemma_db_filter_keeps(rows.drop_last(), refc, nr);
        let f = spec_db_filter(rows, refc, nr);
        let fr = spec_db_filter(rows.drop_last(), refc, nr);
        assert forall|p: int| 0 <= p < f.len() implies spec_db_keep(#[trigger] f[p], refc, nr)
        by {
            if spec_db_keep(rows.last(), refc, nr) {
                if p < f.len() - 1 {
                    assert(f[p] == fr[p]);
                } else {
                    assert(f[p] == rows.last());
                }
            } else {
                assert(f[p] == fr[p]);
            }
        }
    }
}

/// Filtering rows that all pass the keep test changes nothing.
pub proof fn lemma_db_filter_id(rows: Seq<Seq<CellV>>, refc: Seq<Seq<CellV>>, nr: Seq<CellV>)
    requires
        forall|i: int| 0 <= i < rows.len() ==> spec_db_keep(#[trigger] rows[i], refc, nr),
    ensures
        spec_db_filter(rows, refc, nr) == rows,
    decreases rows.len(),
{
    if rows.len() > 0 {
        let rest = rows.drop_last();
        assert(forall|i: int| 0 <= i < rest.len() ==> spec_db_keep(#[trigger] rest[i], refc, nr))
            by {
            assert forall|i: int| 0 <= i < rest.len() implies spec_db_keep(
                #[trigger] rest[i],
                refc,
                nr,
            ) by {
                assert(rest[i] == rows[i]);
            }
        }
        lemma_db_filter_id(rest, refc, nr);
        assert(spec_db_keep(rows[rows.len() - 1], refc, nr));
        assert(spec_db_filter(rows, refc, nr) =~= rows);
    }
}

/// Every filtered loc row passes the keep test.
pub proof fn lemma_loc_filter_keeps(rows: Seq<Seq<CellV>>, refs: Seq<Seq<CellV>>, nr: Seq<CellV>)
    ensures
        forall|p: int|
            0 <= p < spec_loc_filter(rows, refs, nr).len() ==> spec_loc_keep(
                #[trigger] spec_loc_filter(rows, refs, nr)[p],
                refs,
                nr,
            ),
    decreases rows.len(),
{
    if rows.len() > 0 {
        lemma_loc_filter_keeps(rows.drop_last(), refs, nr);
        let f = spec_loc_filter(rows, refs, nr);
        let fr = spec_loc_filter(rows.drop_last(), refs, nr);
        assert forall|p: int| 0 <= p < f.len() implies spec_loc_keep(#[trigger] f[p], refs, nr)
        by {
            if spec_loc_keep(rows.last(), refs, nr) {
                if p < f.len() - 1 {
                    assert(f[p] == fr[p]);
                } else {
                    assert(f[p] == rows.last());
                }
            } else {
                assert(f[p] == fr[p]);
            }
        }
    }
}

/// Filtering loc rows that all pass the keep test changes nothing.
pub proof fn lemma_loc_filter_id(rows: Seq<Seq<CellV>>, refs: Seq<Seq<CellV>>, nr: Seq<CellV>)
    requires
        forall|i: int| 0 <= i < rows.len() ==> spec_loc_keep(#[trigger] rows[i], refs, nr),
    ensures
        spec_loc_filter(rows, refs, nr) == rows,
    decreases rows.len(),
{
    if rows.len() > 0 {
        let rest = rows.drop_last();
        assert(forall|i: int| 0 <= i < rest.len() ==> spec_loc_keep(#[trigger] rest[i], refs, nr))
            by {
            assert forall|i: int| 0 <= i < rest.len() implies spec_loc_keep(
                #[trigger] rest[i],
                refs,
                nr,
            ) by {
                assert(rest[i] == rows[i]);
            }
        }
        lemma_loc_filter_id(rest, refs, nr);
        assert(spec_loc_keep(rows[rows.len() - 1], refs, nr));
        assert(spec_loc_filter(rows, refs, nr) =~= rows);
    }
}

/// Running the loc row optimization a second time yields what the first
/// run yielded: the surviving rows still pass the reference test, the sort
/// finds them already in order, and no equal neighbours are left to drop.
pub proof fn lemma_loc_optimize_idempotent(
    rows: Seq<Seq<CellV>>,
    refs: Seq<Seq<CellV>>,
    nr: Seq<CellV>,
)
    ensures
        ({
            let once = spec_dedup_rows(spec_sort_rows(spec_loc_filter(rows, refs, nr), 0, false));
            spec_dedup_rows(spec_sort_rows(spec_loc_filter(once, refs, nr), 0, false)) == once
        }),
{
    let fl = spec_loc_filter(rows, refs, nr);
    let so = spec_sort_rows(fl, 0, false);
    let once = spec_dedup_rows(so);
    lemma_loc_filter_keeps(rows, refs, nr);
    lemma_sort_rows_in(fl, 0, false);
    lemma_dedup_rows_in(so);
    assert forall|i: int| 0 <= i < once.len() implies spec_loc_keep(
        #[trigger] once[i],
        refs,
        nr,
    ) by {
        assert(spec_row_in(so, once[i]));
        let w = choose|w: int| 0 <= w < so.len() && so[w] == once[i];
        assert(spec_row_in(fl, so[w]));
        let v = choose|v: int| 0 <= v < fl.len() && fl[v] == so[w];
        assert(spec_loc_keep(fl[v], refs, nr));
    }
    lemma_loc_filter_id(once, refs, nr);
    lemma_sort_sorted_text(fl, 0);
    lemma_dedup_sorted_text(so, 0);
    lemma_sort_fixpoint_text(once, 0);
    lemma_dedup_no_adjacent(so);
    lemma_dedup_of_nodup(once);
}

/// Running the row optimization a second time yields what the first run
/// yielded, for tables whose key column holds no real-number cell; the
/// tolerant comparison then coincides with the textual one.
pub proof fn lemma_db_optimize_idempotent(
    rows: Seq<Seq<CellV>>,
    refc: Seq<Seq<CellV>>,
    nr: Seq<CellV>,
    k: int,
)
    requires
        forall|i: int| 0 <= i < rows.len() ==> !((#[trigger] rows[i])[k] is F32),
    ensures
        ({
            let once = spec_optimize_rows(rows, refc, nr, k);
            spec_optimize_rows(once, refc, nr, k) == once
        }),
{
    let fl = spec_db_filter(rows, refc, nr);
    lemma_db_filter_sub(rows, refc, nr);
    assert forall|i: int| 0 <= i < fl.len() implies !((#[trigger] fl[i])[k] is F32) by {
        assert(spec_row_in(rows, fl[i]));
        let w = choose|w: int| 0 <= w < rows.len() && rows[w] == fl[i];
    }
    lemma_sort_mode_eq(fl, k);
    let so = spec_sort_rows(fl, k, false);
    let once = spec_dedup_rows(so);
    lemma_sort_rows_in(fl, k, false);
    lemma_dedup_rows_in(so);
    assert forall|i: int| 0 <= i < once.len() implies spec_db_keep(#[trigger] once[i], refc, nr)
        && !(once[i][k] is F32) by {
        assert(spec_row_in(so, once[i]));
        let w = choose|w: int| 0 <= w < so.len() && so[w] == once[i];
        assert(spec_row_in(fl, so[w]));
        let v = choose|v: int| 0 <= v < fl.len() && fl[v] == so[w];
        lemma_db_filter_keeps(rows, refc, nr);
        assert(spec_db_keep(fl[v], refc, nr));
    }
    lemma_db_filter_id(once, refc, nr);
    lemma_sort_mode_eq(once, k);
    lemma_sort_sorted_text(fl, k);
    lemma_dedup_sorted_text(so, k);
    lemma_sort_fixpoint_text(once, k);
    lemma_dedup_no_adjacent(so);
    lemma_dedup_of_nodup(once);
}

/// Every filtered row is one of the original rows.
pub proof fn lemma_db_filter_sub(rows: Seq<Seq<CellV>>, refc: Seq<Seq<CellV>>, nr: Seq<CellV>)
    ensures
        forall|p: int|
            0 <= p < spec_db_filter(rows, refc, nr).len() ==> spec_row_in(
                rows,
                #[trigger] spec_db_filter(rows, refc, nr)[p],
            ),
    decreases rows.len(),
{
    if rows.len() > 0 {
        let rest = rows.drop_last();
        lemma_db_filter_sub(rest, refc, nr);
        let f = spec_db_filter(rows, refc, nr);
        let fr = spec_db_filter(rest, refc, nr);
        assert forall|p: int| 0 <= p < f.len() implies spec_row_in(rows, #[trigger] f[p]) by {
            if p < fr.len() && f[p] == fr[p] {
                assert(spec_row_in(rest, fr[p]));
                let v = choose|v: int| 0 <= v < rest.len() && rest[v] == fr[p];
                assert(rows[v] == f[p]);
            } else {
                assert(f[p] == rows.last());
                assert(rows[rows.len() - 1] == f[p]);
            }
        }
    }
}

/// On rows whose key cell is not a real number, the tolerant sort and the
/// textual sort agree.
pub proof fn lemma_sort_mode_eq(s: Seq<Seq<CellV>>, k: int)
    requires
        forall|i: int| 0 <= i < s.len() ==> !((#[trigger] s[i])[k] is F32),
    ensures
        spec_sort_rows(s, k, true) == spec_sort_rows(s, k, false),
    decreases s.len(),
{
    if s.len() > 0 {
        let rest = s.drop_last();
        assert(forall|i: int| 0 <= i < rest.len() ==> !((#[trigger] rest[i])[k] is F32)) by {
            assert forall|i: int| 0 <= i < rest.len() implies !((#[trigger] rest[i])[k] is F32)
            by {
                assert(rest[i] == s[i]);
            }
        }
        lemma_sort_mode_eq(rest, k);
        lemma_sort_rows_in(rest, k, false);
        assert(!(s.last()[k] is F32)) by {
            assert(!(s[s.len() - 1][k] is F32));
        }
        lemma_insert_mode_eq(spec_sort_rows(rest, k, false), s.last(), k, rest);
    }
}

/// On rows whose key cell is not a real number, the tolerant insertion and
/// the textual insertion agree; the inserted list's rows are drawn from
/// `src0`, whose key cells are all plain.
pub proof fn lemma_insert_mode_eq(
    acc: Seq<Seq<CellV>>,
    r: Seq<CellV>,
    k: int,
    src0: Seq<Seq<CellV>>,
)
    requires
        !(r[k] is F32),
        forall|i: int| 0 <= i < src0.len() ==> !((#[trigger] src0[i])[k] is F32),
        forall|p: int| 0 <= p < acc.len() ==> spec_row_in(src0, #[trigger] acc[p]),
    ensures
        spec_insert_row(acc, r, k, true) == spec_insert_row(acc, r, k, false),
    decreases acc.len(),
{
    if acc.len() > 0 {
        assert(spec_row_in(src0, acc[0]));
        let w = choose|w: int| 0 <= w < src0.len() && src0[w] == acc[0];
        assert(!(acc[0][k] is F32));
        assert(spec_cmp_mode(r[k], acc[0][k], true) == spec_cmp_mode(r[k], acc[0][k], false));
        let rest = acc.drop_first();
        assert(forall|p: int| 0 <= p < rest.len() ==> spec_row_in(src0, #[trigger] rest[p])) by {
            assert forall|p: int| 0 <= p < rest.len() implies spec_row_in(
                src0,
                #[trigger] rest[p],
            ) by {
                assert(rest[p] == acc[p + 1]);
                assert(spec_row_in(src0, acc[p + 1]));
            }
        }
        lemma_insert_mode_eq(rest, r, k, src0);
    }
}

/// One decoded table-backed file, as the container pass sees it.
pub enum TableKind {
    /// A regular table.
    DB(DB),
    /// A localisation table.
    Loc(Loc),
}

/// The well-formedness a decoded table must carry into the container pass.
pub open spec fn spec_kind_wf(tk: TableKind) -> bool {
    match tk {
        TableKind::DB(db) => db.table.wf() && db.table.definition.fields@.len() > 0,
        TableKind::Loc(l) => l.table.wf() && l.table.definition.fields@.len() >= 2,
    }
}

/// How a finished per-file optimization relates the new table to the old.
pub open spec fn spec_kind_optimized(o: TableKind, n: TableKind, deps: Dependencies) -> bool {
    match o {
        TableKind::DB(odb) => match n {
            TableKind::DB(ndb) => spec_db_optimized(odb, ndb, deps),
            TableKind::Loc(_) => false,
        },
        TableKind::Loc(ol) => match n {
            TableKind::Loc(nl) => spec_loc_optimized(ol, nl, deps),
            TableKind::DB(_) => false,
        },
    }
}

/// Whether optimizing a table-backed file leaves it empty.
pub open spec fn spec_kind_empties(o: TableKind, deps: Dependencies) -> bool {
    match o {
        TableKind::DB(db) => spec_db_empties(db, deps),
        TableKind::Loc(l) => spec_loc_empties(l, deps),
    }
}

/// Every removed path is one of the first `upto` table paths.
pub open spec fn spec_removed_from(
    removed: Seq<String>,
    tables: Seq<(String, TableKind)>,
    upto: int,
) -> bool {
    forall|q: int|
        #![trigger removed[q]]
        0 <= q < removed.len() ==> exists|i: int|
            #![auto]
            0 <= i < upto && removed[q]@ == tables[i].0@
}

/// Whether the container pass touches the file at all: its path must be in
/// the Pack, and a path that exists in the reference data is skipped unless
/// the caller asked to optimize such files too.
pub open spec fn spec_processed(
    pack_files: Seq<RFile>,
    path: Seq<char>,
    deps: Dependencies,
    optimize_datacored_tables: bool,
) -> bool {
    Pack::spec_find_file(pack_files, path) != -1 && (optimize_datacored_tables || !spec_name_in(
        deps.existing_paths@,
        path,
    ))
}

/// The files that survive the removal pass: everything whose path is not
/// among the removed ones.
pub open spec fn spec_keep_files(files: Seq<RFile>, removed: Seq<String>) -> Seq<RFile>
    decreases files.len(),
{
    if files.len() == 0 {
        Seq::empty()
    } else if spec_name_in(removed, files[0].path@) {
        spec_keep_files(files.drop_first(), removed)
    } else {
        seq![files[0]] + spec_keep_files(files.drop_first(), removed)
    }
}

/// Tests whether the Pack holds a file under the path.
fn pack_has_path(files: &Vec<RFile>, path: &String) -> (r: bool)
    ensures
        r == (Pack::spec_find_file(files@, path@) != -1),
{
    let mut i: usize = 0;
    while i < files.len()
        invariant
            i <= files@.len(),
            forall|j: int| 0 <= j < i ==> #[trigger] files@[j].path@ != path@,
        decreases files@.len() - i,
    {
        if files[i].path == *path {
            proof {
                crate::pack::lemma_find_file_at(files@, path@, i as int);
            }
            return true;
        }
        i = i + 1;
    }
    proof {
        crate::pack::lemma_find_file_at(files@, path@, files@.len() as int);
    }
    false
}

impl Pack {
    /// Optimizes every decoded table-backed file of the Pack and removes
    /// the files whose tables come out empty, returning the removed paths.
    ///
    /// The caller decodes the table files beforehand and hands them in as
    /// `tables`, one entry per file path; the survivors are optimized in
    /// place there for the caller to re-encode. A file whose path exists in
    /// the reference data is left untouched unless
    /// `optimize_datacored_tables` is set: such files are presumed
    /// intentional overwrites. Without a loaded reference dataset the whole
    /// pass fails and nothing changes.
    #[verifier::loop_isolation(false)]
    #[verifier::rlimit(100)]
    #[verifier::spinoff_prover]
    pub fn optimize(
        &mut self,
        tables: &mut Vec<(String, TableKind)>,
        dependencies: &Dependencies,
        optimize_datacored_tables: bool,
    ) -> (r: Result<Vec<String>, RLibError>)
        requires
            old(self).wf(),
            dependencies.wf(),
            forall|i: int| 0 <= i < old(tables)@.len() ==> spec_kind_wf((#[trigger] old(tables)@[i]).1),
            forall|i: int, j: int|
                0 <= i < j < old(tables)@.len() ==> old(tables)@[i].0@ != old(tables)@[j].0@,
        ensures
            r is Err <==> !dependencies.vanilla_loaded,
            r is Err ==> *final(self) == *old(self) && *final(tables) == *old(tables),
            r matches Err(e) ==> e == RLibError::DependenciesCacheNotGeneratedOrOutOfDate,
            final(self).header == old(self).header,
            final(self).dependencies == old(self).dependencies,
            final(tables)@.len() == old(tables)@.len(),
            (r matches Ok(removed) ==> forall|i: int|
                0 <= i < old(tables)@.len() ==> {
                    let path = (#[trigger] old(tables)@[i]).0;
                    let processed = spec_processed(
                        old(self).files@,
                        path@,
                        *dependencies,
                        optimize_datacored_tables,
                    );
                    &&& final(tables)@[i].0 == path
                    &&& (processed ==> spec_kind_optimized(
                        old(tables)@[i].1,
                        final(tables)@[i].1,
                        *dependencies,
                    ))
                    &&& (!processed ==> final(tables)@[i] == old(tables)@[i])
                    &&& (spec_name_in(removed@, path@) <==> processed && spec_kind_empties(
                        old(tables)@[i].1,
                        *dependencies,
                    ))
                }),
            (r matches Ok(removed) ==> spec_removed_from(
                removed@,
                old(tables)@,
                old(tables)@.len() as int,
            )),
            (r matches Ok(removed) ==> final(self).files@ == spec_keep_files(
                old(self).files@,
                removed@,
            )),
    {
        if !dependencies.is_vanilla_data_loaded(true) {
            return Err(RLibError::DependenciesCacheNotGeneratedOrOutOfDate);
        }
        let mut removed: Vec<String> = Vec::new();
        let n = tables.len();
        let mut idx: usize = 0;
        while idx < n
            invariant
                idx <= n,
                n == tables@.len(),
                tables@.len() == old(tables)@.len(),
                *self == *old(self),
                forall|i: int| idx <= i < n ==> #[trigger] tables@[i] == old(tables)@[i],
                forall|i: int|
                    0 <= i < idx ==> {
                        let path = (#[trigger] old(tables)@[i]).0;
                        let processed = spec_processed(
                            old(self).files@,
                            path@,
                            *dependencies,
                            optimize_datacored_tables,
                        );
                        &&& tables@[i].0 == path
                        &&& (processed ==> spec_kind_optimized(
                            old(tables)@[i].1,
                            tables@[i].1,
                            *dependencies,
                        ))
                        &&& (!processed ==> tables@[i] == old(tables)@[i])
                        &&& (spec_name_in(removed@, path@) <==> processed && spec_kind_empties(
                            old(tables)@[i].1,
                            *dependencies,
                        ))
                    },
                spec_removed_from(removed@, old(tables)@, idx as int),
            decreases n - idx,
        {
            let has = pack_has_path(&self.files, &tables[idx].0);
            let exists_in_ref = dependencies.file_exists(&tables[idx].0, true, true, true);
            let processed = has && (optimize_datacored_tables || !exists_in_ref);
            let ghost removed0 = removed@;
            let ghost tables0 = tables@;
            proof {
                assert(tables@[idx as int] == old(tables)@[idx as int]);
                assert(processed == spec_processed(
                    old(self).files@,
                    old(tables)@[idx as int].0@,
                    *dependencies,
                    optimize_datacored_tables,
                ));
            }
            if processed {
                let mut entry = tables.remove(idx);
                let ghost entry0 = entry;
                let empty = match &mut entry.1 {
                    TableKind::DB(db) => db.optimize(dependencies),
                    TableKind::Loc(loc) => loc.optimize(dependencies),
                };
                proof {
                    assert(entry0 == old(tables)@[idx as int]);
                    assert(entry.0 == entry0.0);
                    assert(spec_kind_optimized(entry0.1, entry.1, *dependencies));
                    assert(empty == spec_kind_empties(entry0.1, *dependencies));
                }
                let path_copy = entry.0.clone();
                tables.insert(idx, entry);
                proof {
                    assert(tables@ =~= tables0.update(idx as int, tables@[idx as int]));
                    assert(tables@[idx as int].0 == old(tables)@[idx as int].0);
                    assert(spec_kind_optimized(
                        old(tables)@[idx as int].1,
                        tables@[idx as int].1,
                        *dependencies,
                    ));
                }
                if empty {
                    removed.push(path_copy);
                    proof {
                        assert(removed@ == removed0.push(path_copy));
                        assert(removed@[removed@.len() - 1]@ == old(tables)@[idx as int].0@);
                        assert(spec_name_in(removed@, old(tables)@[idx as int].0@));
                    }
                } else {
                    proof {
                        assert(removed@ == removed0);
                    }
                }
            } else {
                proof {
                    assert(tables@ == tables0);
                    assert(removed@ == removed0);
                }
            }
            proof {
                assert forall|q: int| #![trigger removed@[q]] 0 <= q < removed@.len() implies exists|
                    i: int,
                |
                    #![auto]
                    0 <= i < idx + 1 && removed@[q]@ == old(tables)@[i].0@ by {
                    if q < removed0.len() {
                        assert(removed@[q] == removed0[q]);
                        assert(spec_removed_from(removed0, old(tables)@, idx as int));
                        let w = choose|w: int| #![auto] 0 <= w < idx && removed0[q]@ == old(tables)@[w].0@;
                        assert(0 <= w < idx + 1 && removed@[q]@ == old(tables)@[w].0@);
                    } else {
                        assert(removed@[q]@ == old(tables)@[idx as int].0@);
                    }
                }
                assert(spec_removed_from(removed@, old(tables)@, idx + 1 as int));
                assert forall|i: int| 0 <= i < idx + 1 implies {
                    let path = (#[trigger] old(tables)@[i]).0;
                    let proc = spec_processed(
                        old(self).files@,
                        path@,
                        *dependencies,
                        optimize_datacored_tables,
                    );
                    &&& tables@[i].0 == path
                    &&& (proc ==> spec_kind_optimized(
                        old(tables)@[i].1,
                        tables@[i].1,
                        *dependencies,
                    ))
                    &&& (!proc ==> tables@[i] == old(tables)@[i])
                    &&& (spec_name_in(removed@, path@) <==> proc && spec_kind_empties(
                        old(tables)@[i].1,
                        *dependencies,
                    ))
                } by {
                    let path = old(tables)@[i].0;
                    if i < idx {
                        assert(tables@[i] == tables0[i]);
                        if removed@.len() > removed0.len() {
                            assert(removed@[removed@.len() - 1]@ == old(tables)@[idx as int].0@);
                            assert(old(tables)@[idx as int].0@ != path@);
                        }
                        assert(spec_name_in(removed@, path@) == spec_name_in(removed0, path@))
                            by {
                            if spec_name_in(removed0, path@) {
                                let w = choose|w: int|
                                    0 <= w < removed0.len() && removed0[w]@ == path@;
                                assert(removed@[w]@ == path@);
                            }
                            if spec_name_in(removed@, path@) {
                                let w = choose|w: int|
                                    0 <= w < removed@.len() && removed@[w]@ == path@;
                                if w < removed0.len() {
                                    assert(removed0[w]@ == path@);
                                }
                            }
                        }
                    } else {
                        if processed {
                            if spec_name_in(removed@, path@) {
                                let w = choose|w: int|
                                    0 <= w < removed@.len() && removed@[w]@ == path@;
                                if w < removed0.len() {
                                    let x = choose|x: int|
                                        0 <= x < idx && removed0[w]@ == old(tables)@[x].0@;
                                    assert(old(tables)@[x].0@ != path@);
                                }
                            }
                        } else {
                            assert(tables@[i] == tables0[i]);
                            if spec_name_in(removed@, path@) {
                                let w = choose|w: int|
                                    0 <= w < removed@.len() && removed@[w]@ == path@;
                                let x = choose|x: int|
                                    0 <= x < idx && removed0[w]@ == old(tables)@[x].0@;
                                assert(old(tables)@[x].0@ != path@);
                            }
                        }
                    }
                }
            }
            idx = idx + 1;
        }

        let ghost old_files = self.files@;
        let mut i: usize = self.files.len();
        while i > 0
            invariant
                i <= old_files.len(),
                self.header == old(self).header,
                self.dependencies == old(self).dependencies,
                self.files@ == old_files.take(i as int) + spec_keep_files(
                    old_files.skip(i as int),
                    removed@,
                ),
            decreases i,
        {
            i = i - 1;
            proof {
                assert(old_files.skip(i as int).drop_first() =~= old_files.skip(i + 1 as int));
                assert(old_files.skip(i as int)[0] == old_files[i as int]);
                assert(self.files@[i as int] == old_files[i as int]);
            }
            if name_in(&removed, &self.files[i].path) {
                self.files.remove(i);
                proof {
                    assert(self.files@ =~= old_files.take(i as int) + spec_keep_files(
                        old_files.skip(i as int),
                        removed@,
                    ));
                }
            } else {
                proof {
                    assert(self.files@ =~= old_files.take(i as int) + spec_keep_files(
                        old_files.skip(i as int),
                        removed@,
                    ));
                }
            }
        }
        proof {
            assert(old_files.skip(0) =~= old_files);
            assert(self.files@ =~= spec_keep_files(old_files, removed@));
            assert(spec_removed_from(removed@, old(tables)@, old(tables)@.len() as int));
        }
        Ok(removed)
    }
}

} // verus!
