//! The catalogue as a FITS binary table: header cards, big-endian rows, and
//! zero padding to whole 2880-byte blocks.
use vstd::prelude::*;
use vstd::string::{StringExecFns, StringSliceAdditionalSpecFns};

use crate::fits_header::{
    append_bytes, decimal, decimal_string, header_block, kv_int, kv_int_text, kv_str, kv_str_text,
    pad_block, pad_to_block, schema, schema_cols, texts_of, write_header_block, Col,
};

verus! {

/// One catalogue row as it is stored: the floating-point columns as their
/// IEEE-754 bit patterns (`f64` columns in `u64`, `f32` columns in `u32`),
/// the pixel count and the flag bits as they are.
#[derive(Clone, Copy)]
pub struct CatalogRow {
    pub ra: u64,
    pub dec: u64,
    pub x_c: u64,
    pub y_c: u64,
    pub flux_iso: u32,
    pub flux_auto: u32,
    pub a: u32,
    pub b: u32,
    pub theta: u32,
    pub ellipticity: u32,
    pub kron_radius: u32,
    pub npix: u32,
    pub flags: u16,
}

/// The 8 bytes of a 64-bit word, most significant first.
pub open spec fn be8(v: u64) -> Seq<u8> {
    seq![
        ((v >> 56u64) & 0xffu64) as u8,
        ((v >> 48u64) & 0xffu64) as u8,
        ((v >> 40u64) & 0xffu64) as u8,
        ((v >> 32u64) & 0xffu64) as u8,
        ((v >> 24u64) & 0xffu64) as u8,
        ((v >> 16u64) & 0xffu64) as u8,
        ((v >> 8u64) & 0xffu64) as u8,
        (v & 0xffu64) as u8,
    ]
}

/// The 4 bytes of a 32-bit word, most significant first.
pub open spec fn be4(v: u32) -> Seq<u8> {
    seq![
        ((v >> 24u32) & 0xffu32) as u8,
        ((v >> 16u32) & 0xffu32) as u8,
        ((v >> 8u32) & 0xffu32) as u8,
        (v & 0xffu32) as u8,
    ]
}

/// The 2 bytes of a 16-bit word, most significant first.
pub open spec fn be2(v: u16) -> Seq<u8> {
    seq![((v >> 8u16) & 0xffu16) as u8, (v & 0xffu16) as u8]
}

/// Reads back a 64-bit word from 8 big-endian bytes.
pub open spec fn read_be8(b: Seq<u8>) -> u64 {
    ((b[0] as u64) << 56u64) | ((b[1] as u64) << 48u64) | ((b[2] as u64) << 40u64) | ((b[3] as u64) << 32u64)
        | ((b[4] as u64) << 24u64) | ((b[5] as u64) << 16u64) | ((b[6] as u64) << 8u64) | (b[7] as u64)
}

/// Reads back a 32-bit word from 4 big-endian bytes.
pub open spec fn read_be4(b: Seq<u8>) -> u32 {
    ((b[0] as u32) << 24u32) | ((b[1] as u32) << 16u32) | ((b[2] as u32) << 8u32) | (b[3] as u32)
}

/// Reads back a 16-bit word from 2 big-endian bytes.
pub open spec fn read_be2(b: Seq<u8>) -> u16 {
    ((b[0] as u16) << 8u16) | (b[1] as u16)
}

/// Big-endian encoding loses nothing: reading the bytes back gives the word.
pub proof fn lemma_be_roundtrip(v8: u64, v4: u32, v2: u16)
    ensures
        read_be8(be8(v8)) == v8,
        read_be4(be4(v4)) == v4,
        read_be2(be2(v2)) == v2,
{
    let b = be8(v8);
    assert(b[0] == ((v8 >> 56u64) & 0xffu64) as u8);
    assert(((((v8 >> 56u64) & 0xffu64) as u8 as u64) << 56u64) | ((((v8 >> 48u64) & 0xffu64) as u8 as u64) << 48u64)
        | ((((v8 >> 40u64) & 0xffu64) as u8 as u64) << 40u64) | ((((v8 >> 32u64) & 0xffu64) as u8 as u64) << 32u64)
        | ((((v8 >> 24u64) & 0xffu64) as u8 as u64) << 24u64) | ((((v8 >> 16u64) & 0xffu64) as u8 as u64) << 16u64)
        | ((((v8 >> 8u64) & 0xffu64) as u8 as u64) << 8u64) | ((v8 & 0xffu64) as u8 as u64) == v8) by (bit_vector);
    assert(((((v4 >> 24u32) & 0xffu32) as u8 as u32) << 24u32) | ((((v4 >> 16u32) & 0xffu32) as u8 as u32) << 16u32)
        | ((((v4 >> 8u32) & 0xffu32) as u8 as u32) << 8u32) | ((v4 & 0xffu32) as u8 as u32) == v4) by (bit_vector);
    assert(((((v2 >> 8u16) & 0xffu16) as u8 as u16) << 8u16) | ((v2 & 0xffu16) as u8 as u16) == v2) by (bit_vector);
}

/// Appends a 64-bit word, most significant byte first.
pub fn push_be8(out: &mut Vec<u8>, v: u64)
    ensures
        final(out)@ == old(out)@ + be8(v),
{
    out.push(((v >> 56u64) & 0xffu64) as u8);
    out.push(((v >> 48u64) & 0xffu64) as u8);
    out.push(((v >> 40u64) & 0xffu64) as u8);
    out.push(((v >> 32u64) & 0xffu64) as u8);
    out.push(((v >> 24u64) & 0xffu64) as u8);
    out.push(((v >> 16u64) & 0xffu64) as u8);
    out.push(((v >> 8u64) & 0xffu64) as u8);
    out.push((v & 0xffu64) as u8);
    proof {
        assert(final(out)@ =~= old(out)@ + be8(v));
    }
}

/// Appends a 32-bit word, most significant byte first.
pub fn push_be4(out: &mut Vec<u8>, v: u32)
    ensures
        final(out)@ == old(out)@ + be4(v),
{
    out.push(((v >> 24u32) & 0xffu32) as u8);
    out.push(((v >> 16u32) & 0xffu32) as u8);
    out.push(((v >> 8u32) & 0xffu32) as u8);
    out.push((v & 0xffu32) as u8);
    proof {
        assert(final(out)@ =~= old(out)@ + be4(v));
    }
}

/// Appends a 16-bit word, most significant byte first.
pub fn push_be2(out: &mut Vec<u8>, v: u16)
    ensures
        final(out)@ == old(out)@ + be2(v),
{
    out.push(((v >> 8u16) & 0xffu16) as u8);
    out.push((v & 0xffu16) as u8);
    proof {
        assert(final(out)@ =~= old(out)@ + be2(v));
    }
}

/// The bytes of one row, column after column in schema order.
pub open spec fn row_bytes(m: CatalogRow) -> Seq<u8> {
    be8(m.ra) + be8(m.dec) + be8(m.x_c) + be8(m.y_c) + be4(m.flux_iso) + be4(m.flux_auto) + be4(m.a) + be4(m.b)
        + be4(m.theta) + be4(m.ellipticity) + be4(m.kron_radius) + be4(m.npix) + be2(m.flags)
}

/// Appends the bytes of one row.
pub fn push_row(out: &mut Vec<u8>, m: &CatalogRow)
    ensures
        final(out)@ == old(out)@ + row_bytes(*m),
{
    push_be8(out, m.ra);
    push_be8(out, m.dec);
    push_be8(out, m.x_c);
    push_be8(out, m.y_c);
    push_be4(out, m.flux_iso);
    push_be4(out, m.flux_auto);
    push_be4(out, m.a);
    push_be4(out, m.b);
    push_be4(out, m.theta);
    push_be4(out, m.ellipticity);
    push_be4(out, m.kron_radius);
    push_be4(out, m.npix);
    push_be2(out, m.flags);
    proof {
        assert(final(out)@ =~= old(out)@ + row_bytes(*m));
    }
}

/// The bytes of all rows, one after the other.
pub open spec fn rows_bytes(rows: Seq<CatalogRow>) -> Seq<u8>
    decreases rows.len(),
{
    if rows.len() == 0 {
        seq![]
    } else {
        rows_bytes(rows.drop_last()) + row_bytes(rows.last())
    }
}

/// The BRICK column: the brick name's first 12 bytes, space-padded.
pub open spec fn brick_field(name: Seq<u8>) -> Seq<u8> {
    Seq::new(12, |i: int| if i < name.len() { name[i] } else { 32u8 })
}

/// The bytes of all rows of a multi-brick table: BRICK, then the row.
pub open spec fn multi_rows_bytes(entries: Seq<(String, CatalogRow)>) -> Seq<u8>
    decreases entries.len(),
{
    if entries.len() == 0 {
        seq![]
    } else {
        multi_rows_bytes(entries.drop_last()) + brick_field(vstd::utf8::encode_utf8(entries.last().0@)) + row_bytes(
            entries.last().1,
        )
    }
}

/// The total width of a list of columns.
pub open spec fn sum_nbytes(cols: Seq<Col>) -> int
    decreases cols.len(),
{
    if cols.len() == 0 {
        0
    } else {
        sum_nbytes(cols.drop_last()) + cols.last().nbytes
    }
}

/// A row occupies exactly the width that the schema declares (`NAXIS1`):
/// 66 bytes, 78 with the BRICK column.
pub proof fn lemma_row_width(m: CatalogRow, name: Seq<u8>)
    ensures
        row_bytes(m).len() == sum_nbytes(schema_cols()),
        sum_nbytes(schema_cols()) == 66,
        brick_field(name).len() + row_bytes(m).len() == 12 + sum_nbytes(schema_cols()),
{
    reveal_with_fuel(sum_nbytes, 14);
    let c = schema_cols();
    assert(c.drop_last().drop_last().drop_last().drop_last().drop_last().drop_last().drop_last().drop_last().drop_last().drop_last().drop_last().drop_last().drop_last().len() == 0);
}

/// The three (or two, when the unit is empty) cards that describe column `n`.
pub open spec fn column_texts(col: Col, n: int) -> Seq<Seq<char>> {
    seq![
        kv_str_text("TTYPE"@ + decimal(n), col.name@, "Column name"@),
        kv_str_text("TFORM"@ + decimal(n), col.tform@, "Data format"@),
    ] + if col.tunit@.len() != 0 {
        seq![kv_str_text("TUNIT"@ + decimal(n), col.tunit@, "Unit"@)]
    } else {
        seq![]
    }
}

/// The cards of all columns, numbered from `first`.
pub open spec fn columns_texts(cols: Seq<Col>, first: int) -> Seq<Seq<char>>
    decreases cols.len(),
{
    if cols.len() == 0 {
        seq![]
    } else {
        columns_texts(cols.drop_last(), first) + column_texts(cols.last(), first + cols.len() - 1)
    }
}

/// `prefix` followed by the decimal number `n` (as in `format!("TTYPE{n}")`).
fn numbered_key(prefix: &str, n: usize) -> (key: String)
    requires
        n <= i64::MAX,
    ensures
        key@ == prefix@ + decimal(n as int),
{
    let mut key = String::from_str(prefix);
    let digits = decimal_string(n as i64);
    key.append(digits.as_str());
    key
}

/// Appends the cards of each column, numbering the columns from `first`.
fn push_column_cards(cards: &mut Vec<String>, cols: &Vec<Col>, first: usize)
    requires
        first + cols@.len() <= i64::MAX,
        first + cols@.len() <= usize::MAX,
    ensures
        texts_of(final(cards)@) == texts_of(old(cards)@) + columns_texts(cols@, first as int),
{
    let mut i: usize = 0;
    while i < cols.len()
        invariant
            first + cols@.len() <= i64::MAX,
            first + cols@.len() <= usize::MAX,
            i <= cols@.len(),
            texts_of(cards@) == texts_of(old(cards)@) + columns_texts(cols@.subrange(0, i as int), first as int),
        decreases cols@.len() - i,
    {
        let n = i + first;
        let col = &cols[i];
        let ghost before = cards@;
        cards.push(kv_str(numbered_key("TTYPE", n).as_str(), col.name, "Column name"));
        cards.push(kv_str(numbered_key("TFORM", n).as_str(), col.tform, "Data format"));
        if !col.tunit.is_empty() {
            cards.push(kv_str(numbered_key("TUNIT", n).as_str(), col.tunit, "Unit"));
        }
        proof {
            let sub = cols@.subrange(0, i + 1);
            assert(sub.drop_last() =~= cols@.subrange(0, i as int));
            assert(sub.last() == cols@[i as int]);
            assert(texts_of(cards@) =~= texts_of(before) + column_texts(cols@[i as int], n as int));
        }
        i += 1;
    }
    proof {
        assert(cols@.subrange(0, cols@.len() as int) =~= cols@);
    }
}

/// The cards of the table header of a single-brick catalogue with `nrows` rows.
pub open spec fn bintable_texts(nrows: int, brick: Seq<char>, band: Seq<char>) -> Seq<Seq<char>> {
    seq![
        kv_str_text("XTENSION"@, "BINTABLE"@, "Binary table extension"@),
        kv_int_text("BITPIX"@, 8, ""@),
        kv_int_text("NAXIS"@, 2, "2-D table"@),
        kv_int_text("NAXIS1"@, sum_nbytes(schema_cols()), "Bytes per row"@),
        kv_int_text("NAXIS2"@, nrows, "Number of rows"@),
        kv_int_text("PCOUNT"@, 0, "No heap"@),
        kv_int_text("GCOUNT"@, 1, ""@),
        kv_int_text("TFIELDS"@, schema_cols().len() as int, "Number of columns"@),
        kv_str_text("OBJECT"@, brick, "Brick identifier"@),
        kv_str_text("FILTER"@, band, "Photometric band"@),
        kv_str_text("AUTHOR"@, "MaxKweeger"@, "Scientific director"@),
        kv_str_text("SOFTWARE"@, "vera"@, "Processing software"@),
        kv_str_text("REFERENC"@, "joss.theoj.org"@, "Target journal: JOSS"@),
    ] + columns_texts(schema_cols(), 1)
}

/// The cards of the table header of a multi-brick catalogue.
pub open spec fn bintable_multi_texts(nrows: int, band: Seq<char>) -> Seq<Seq<char>> {
    seq![
        kv_str_text("XTENSION"@, "BINTABLE"@, "Binary table extension"@),
        kv_int_text("BITPIX"@, 8, ""@),
        kv_int_text("NAXIS"@, 2, "2-D table"@),
        kv_int_text("NAXIS1"@, 12 + sum_nbytes(schema_cols()), "Bytes per row"@),
        kv_int_text("NAXIS2"@, nrows, "Number of rows"@),
        kv_int_text("PCOUNT"@, 0, "No heap"@),
        kv_int_text("GCOUNT"@, 1, ""@),
        kv_int_text("TFIELDS"@, 1 + schema_cols().len() as int, "Number of columns"@),
        kv_str_text("FILTER"@, band, "Photometric band"@),
        kv_str_text("AUTHOR"@, "MaxKweeger"@, "Scientific director"@),
        kv_str_text("SOFTWARE"@, "vera"@, "Processing software"@),
        kv_str_text("REFERENC"@, "joss.theoj.org"@, "Target journal: JOSS"@),
        kv_str_text("TTYPE1"@, "BRICK"@, "Brick identifier"@),
        kv_str_text("TFORM1"@, "12A"@, "12-char ASCII string"@),
    ] + columns_texts(schema_cols(), 2)
}

/// The sum of the column widths.
fn row_width(cols: &Vec<Col>) -> (n: usize)
    requires
        cols@ == schema_cols(),
    ensures
        n as int == sum_nbytes(cols@),
        n == 66,
{
    proof {
        reveal_with_fuel(sum_nbytes, 14);
    }
    let mut n: usize = 0;
    let mut i: usize = 0;
    while i < cols.len()
        invariant
            cols@ == schema_cols(),
            i <= cols@.len(),
            n as int == sum_nbytes(cols@.subrange(0, i as int)),
            n <= 8 * i,
        decreases cols@.len() - i,
    {
        proof {
            let sub = cols@.subrange(0, i + 1);
            assert(sub.drop_last() =~= cols@.subrange(0, i as int));
        }
        n = n + cols[i].nbytes;
        i += 1;
    }
    proof {
        assert(cols@.subrange(0, cols@.len() as int) =~= cols@);
        lemma_row_width(CatalogRow { ra: 0, dec: 0, x_c: 0, y_c: 0, flux_iso: 0, flux_auto: 0, a: 0, b: 0, theta: 0, ellipticity: 0, kron_radius: 0, npix: 0, flags: 0 }, seq![]);
    }
    n
}

/// The header cards of a single-brick table with `naxis2` rows.
fn bintable_cards(naxis2: usize, brick: &str, band: &str) -> (cards: Vec<String>)
    requires
        naxis2 <= i64::MAX,
    ensures
        texts_of(cards@) == bintable_texts(naxis2 as int, brick@, band@),
{
    let cols = schema();
    let naxis1 = row_width(&cols);
    let tfields = cols.len();
    let mut cards = vec![
        kv_str("XTENSION", "BINTABLE", "Binary table extension"),
        kv_int("BITPIX", 8, ""),
        kv_int("NAXIS", 2, "2-D table"),
        kv_int("NAXIS1", naxis1 as i64, "Bytes per row"),
        kv_int("NAXIS2", naxis2 as i64, "Number of rows"),
        kv_int("PCOUNT", 0, "No heap"),
        kv_int("GCOUNT", 1, ""),
        kv_int("TFIELDS", tfields as i64, "Number of columns"),
        kv_str("OBJECT", brick, "Brick identifier"),
        kv_str("FILTER", band, "Photometric band"),
        kv_str("AUTHOR", "MaxKweeger", "Scientific director"),
        kv_str("SOFTWARE", "vera", "Processing software"),
        kv_str("REFERENC", "joss.theoj.org", "Target journal: JOSS"),
    ];
    let ghost fixed = cards@;
    push_column_cards(&mut cards, &cols, 1);
    proof {
        assert(texts_of(fixed) =~= bintable_texts(naxis2 as int, brick@, band@).subrange(0, 13));
        assert(texts_of(cards@) =~= bintable_texts(naxis2 as int, brick@, band@));
    }
    cards
}

/// The data of a single-brick table: the rows, zero-padded to whole blocks.
fn table_data(rows: &[CatalogRow]) -> (data: Vec<u8>)
    ensures
        data@ == pad_to_block(rows_bytes(rows@), 0u8),
{
    let mut data: Vec<u8> = Vec::new();
    let mut i: usize = 0;
    while i < rows.len()
        invariant
            i <= rows@.len(),
            data@ == rows_bytes(rows@.subrange(0, i as int)),
        decreases rows@.len() - i,
    {
        push_row(&mut data, &rows[i]);
        proof {
            let sub = rows@.subrange(0, i + 1);
            assert(sub.drop_last() =~= rows@.subrange(0, i as int));
        }
        i += 1;
    }
    proof {
        assert(rows@.subrange(0, rows@.len() as int) =~= rows@);
    }
    // Pad data to 2880-byte multiple
    pad_block(&mut data, 0u8);
    data
}

/// Writes the table HDU of a single-brick catalogue: its header, then one
/// big-endian row per measurement, zero-padded to whole 2880-byte blocks.
pub fn write_bintable(w: &mut Vec<u8>, rows: &[CatalogRow], brick: &str, band: &str)
    requires
        rows@.len() <= i64::MAX,
    ensures
        final(w)@ == old(w)@ + header_block(bintable_texts(rows@.len() as int, brick@, band@)) + pad_to_block(
            rows_bytes(rows@),
            0u8,
        ),
{
    let cards = bintable_cards(rows.len(), brick, band);
    write_header_block(w, cards.as_slice());
    let data = table_data(rows);
    append_bytes(w, data.as_slice());
}

/// Appends the BRICK column value: the name's first 12 bytes, space-padded.
fn push_brick(out: &mut Vec<u8>, brick: &str)
    ensures
        final(out)@ == old(out)@ + brick_field(brick.spec_bytes()),
{
    let bk = brick.as_bytes();
    let blen = if bk.len() < 12 { bk.len() } else { 12 };
    let mut i: usize = 0;
    while i < 12
        invariant
            bk@ == brick.spec_bytes(),
            blen <= 12,
            blen <= bk@.len(),
            blen == bk@.len() || blen == 12,
            i <= 12,
            out@ == old(out)@ + brick_field(brick.spec_bytes()).subrange(0, i as int),
        decreases 12 - i,
    {
        if i < blen {
            out.push(bk[i]);
        } else {
            out.push(32u8);
        }
        i += 1;
        proof {
            assert(out@ =~= old(out)@ + brick_field(brick.spec_bytes()).subrange(0, i as int));
        }
    }
    proof {
        assert(brick_field(brick.spec_bytes()).subrange(0, 12) =~= brick_field(brick.spec_bytes()));
    }
}

/// Width of the BRICK column of a multi-brick table.
pub const BRICK_BYTES: usize = 12;

/// The header cards of a multi-brick table with `naxis2` rows.
fn bintable_multi_cards(naxis2: usize, band: &str) -> (cards: Vec<String>)
    requires
        naxis2 <= i64::MAX,
    ensures
        texts_of(cards@) == bintable_multi_texts(naxis2 as int, band@),
{
    let cols = schema();
    let per_row = BRICK_BYTES + row_width(&cols);
    let ncols = 1 + cols.len();
    let mut cards = vec![
        kv_str("XTENSION", "BINTABLE", "Binary table extension"),
        kv_int("BITPIX", 8, ""),
        kv_int("NAXIS", 2, "2-D table"),
        kv_int("NAXIS1", per_row as i64, "Bytes per row"),
        kv_int("NAXIS2", naxis2 as i64, "Number of rows"),
        kv_int("PCOUNT", 0, "No heap"),
        kv_int("GCOUNT", 1, ""),
        kv_int("TFIELDS", ncols as i64, "Number of columns"),
        kv_str("FILTER", band, "Photometric band"),
        kv_str("AUTHOR", "MaxKweeger", "Scientific director"),
        kv_str("SOFTWARE", "vera", "Processing software"),
        kv_str("REFERENC", "joss.theoj.org", "Target journal: JOSS"),
        // BRICK column (1)
        kv_str("TTYPE1", "BRICK", "Brick identifier"),
        kv_str("TFORM1", "12A", "12-char ASCII string"),
    ];
    let ghost fixed = cards@;
    push_column_cards(&mut cards, &cols, 2);
    proof {
        assert(texts_of(fixed) =~= bintable_multi_texts(naxis2 as int, band@).subrange(0, 14));
        assert(texts_of(cards@) =~= bintable_multi_texts(naxis2 as int, band@));
    }
    cards
}

/// The data of a multi-brick table: BRICK and row for each entry,
/// zero-padded to whole blocks.
fn table_multi_data(entries: &[(String, CatalogRow)]) -> (data: Vec<u8>)
    ensures
        data@ == pad_to_block(multi_rows_bytes(entries@), 0u8),
{
    let mut data: Vec<u8> = Vec::new();
    let mut i: usize = 0;
    while i < entries.len()
        invariant
            i <= entries@.len(),
            data@ == multi_rows_bytes(entries@.subrange(0, i as int)),
        decreases entries@.len() - i,
    {
        let (brick, m) = &entries[i];
        push_brick(&mut data, brick.as_str());
        push_row(&mut data, m);
        proof {
            let sub = entries@.subrange(0, i + 1);
            assert(sub.drop_last() =~= entries@.subrange(0, i as int));
            assert(sub.last() == entries@[i as int]);
        }
        i += 1;
    }
    proof {
        assert(entries@.subrange(0, entries@.len() as int) =~= entries@);
    }
    pad_block(&mut data, 0u8);
    data
}

/// Writes the table HDU of a multi-brick catalogue: a 12-byte BRICK column
/// in front of the same columns as the single-brick table.
pub fn write_bintable_multi(w: &mut Vec<u8>, entries: &[(String, CatalogRow)], band: &str)
    requires
        entries@.len() <= i64::MAX,
    ensures
        final(w)@ == old(w)@ + header_block(bintable_multi_texts(entries@.len() as int, band@)) + pad_to_block(
            multi_rows_bytes(entries@),
            0u8,
        ),
{
    let cards = bintable_multi_cards(entries.len(), band);
    write_header_block(w, cards.as_slice());
    let data = table_multi_data(entries);
    append_bytes(w, data.as_slice());
}

} // verus!
