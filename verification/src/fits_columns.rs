//! Where each field of a catalogue row lies (the column of each name, its
//! offset and width, and the bytes it holds), and where the cards of each
//! column stand in a table header.
use vstd::prelude::*;

use crate::fits_header::{decimal, kv_str_text, schema_cols, Col};
use crate::fits_table::{
    be2, be4, be8, brick_field, column_texts, columns_texts, lemma_row_width, multi_rows_bytes, row_bytes, rows_bytes,
    sum_nbytes, CatalogRow,
};

verus! {

/// The big-endian bytes of the row field that the column named `name` holds.
pub open spec fn field_bytes(m: CatalogRow, name: Seq<char>) -> Seq<u8> {
    if name == "RA"@ {
        be8(m.ra)
    } else if name == "DEC"@ {
        be8(m.dec)
    } else if name == "X_IMAGE"@ {
        be8(m.x_c)
    } else if name == "Y_IMAGE"@ {
        be8(m.y_c)
    } else if name == "FLUX_ISO"@ {
        be4(m.flux_iso)
    } else if name == "FLUX_AUTO"@ {
        be4(m.flux_auto)
    } else if name == "A_IMAGE"@ {
        be4(m.a)
    } else if name == "B_IMAGE"@ {
        be4(m.b)
    } else if name == "THETA"@ {
        be4(m.theta)
    } else if name == "ELLIP"@ {
        be4(m.ellipticity)
    } else if name == "KRON_RAD"@ {
        be4(m.kron_radius)
    } else if name == "NPIX"@ {
        be4(m.npix)
    } else if name == "FLAGS"@ {
        be2(m.flags)
    } else {
        seq![]
    }
}

/// The byte offset of column `k` in a row: the widths of the columns before it.
pub open spec fn column_offset(k: int) -> int {
    sum_nbytes(schema_cols().take(k))
}

/// The offsets of the columns, column by column, and the row width last.
spec fn offsets() -> Seq<int> {
    seq![0, 8, 16, 24, 32, 36, 40, 44, 48, 52, 56, 60, 64, 66]
}

/// Column `k + 1` starts where column `k` ends.
proof fn lemma_offset_step(k: int)
    requires
        0 <= k < schema_cols().len(),
    ensures
        column_offset(k + 1) == column_offset(k) + schema_cols()[k].nbytes,
{
    let c = schema_cols();
    assert(c.take(k + 1).drop_last() =~= c.take(k));
    assert(c.take(k + 1).last() == c[k]);
}

proof fn lemma_column_offsets()
    ensures
        forall|k: int| 0 <= k <= 13 ==> #[trigger] column_offset(k) == offsets()[k],
{
    assert(schema_cols().take(0).len() == 0);
    lemma_offset_step(0);
    lemma_offset_step(1);
    lemma_offset_step(2);
    lemma_offset_step(3);
    lemma_offset_step(4);
    lemma_offset_step(5);
    lemma_offset_step(6);
    lemma_offset_step(7);
    lemma_offset_step(8);
    lemma_offset_step(9);
    lemma_offset_step(10);
    lemma_offset_step(11);
    lemma_offset_step(12);
    assert forall|k: int| 0 <= k <= 13 implies #[trigger] column_offset(k) == offsets()[k] by {
        if k == 0 {
        } else if k == 1 {
        } else if k == 2 {
        } else if k == 3 {
        } else if k == 4 {
        } else if k == 5 {
        } else if k == 6 {
        } else if k == 7 {
        } else if k == 8 {
        } else if k == 9 {
        } else if k == 10 {
        } else if k == 11 {
        } else if k == 12 {
        } else {
        }
    }
}

/// The column names are told apart by their length and first character.
proof fn lemma_name_chars()
    ensures
        "RA"@.len() == 2 && "RA"@[0] == 'R',
        "DEC"@.len() == 3 && "DEC"@[0] == 'D',
        "X_IMAGE"@.len() == 7 && "X_IMAGE"@[0] == 'X',
        "Y_IMAGE"@.len() == 7 && "Y_IMAGE"@[0] == 'Y',
        "FLUX_ISO"@.len() == 8 && "FLUX_ISO"@[0] == 'F',
        "FLUX_AUTO"@.len() == 9 && "FLUX_AUTO"@[0] == 'F',
        "A_IMAGE"@.len() == 7 && "A_IMAGE"@[0] == 'A',
        "B_IMAGE"@.len() == 7 && "B_IMAGE"@[0] == 'B',
        "THETA"@.len() == 5 && "THETA"@[0] == 'T',
        "ELLIP"@.len() == 5 && "ELLIP"@[0] == 'E',
        "KRON_RAD"@.len() == 8 && "KRON_RAD"@[0] == 'K',
        "NPIX"@.len() == 4 && "NPIX"@[0] == 'N',
        "FLAGS"@.len() == 5 && "FLAGS"@[0] == 'F',
{
    reveal_strlit("RA");
    reveal_strlit("DEC");
    reveal_strlit("X_IMAGE");
    reveal_strlit("Y_IMAGE");
    reveal_strlit("FLUX_ISO");
    reveal_strlit("FLUX_AUTO");
    reveal_strlit("A_IMAGE");
    reveal_strlit("B_IMAGE");
    reveal_strlit("THETA");
    reveal_strlit("ELLIP");
    reveal_strlit("KRON_RAD");
    reveal_strlit("NPIX");
    reveal_strlit("FLAGS");
}

/// Each column of a row holds, at its offset and over its width, the
/// big-endian bytes of the field that the column's name stands for; the
/// columns fill the row.
#[verifier::spinoff_prover]
#[verifier::rlimit(40)]
pub proof fn lemma_row_columns(m: CatalogRow)
    ensures
        forall|k: int|
            0 <= k < schema_cols().len() ==> row_bytes(m).subrange(
                column_offset(k),
                column_offset(k) + schema_cols()[k].nbytes,
            ) == #[trigger] field_bytes(m, schema_cols()[k].name@),
        row_bytes(m).len() == column_offset(schema_cols().len() as int),
{
    lemma_column_offsets();
    lemma_name_chars();
    let b = row_bytes(m);
    let c = schema_cols();
    assert(c[0].name@ == "RA"@ && field_bytes(m, "RA"@) == be8(m.ra));
    assert(b.subrange(0, 8) =~= be8(m.ra));
    assert(c[1].name@ == "DEC"@ && field_bytes(m, "DEC"@) == be8(m.dec));
    assert(b.subrange(8, 16) =~= be8(m.dec));
    assert(c[2].name@ == "X_IMAGE"@ && field_bytes(m, "X_IMAGE"@) == be8(m.x_c));
    assert(b.subrange(16, 24) =~= be8(m.x_c));
    assert(c[3].name@ == "Y_IMAGE"@ && field_bytes(m, "Y_IMAGE"@) == be8(m.y_c));
    assert(b.subrange(24, 32) =~= be8(m.y_c));
    assert(c[4].name@ == "FLUX_ISO"@ && field_bytes(m, "FLUX_ISO"@) == be4(m.flux_iso));
    assert(b.subrange(32, 36) =~= be4(m.flux_iso));
    assert(c[5].name@ == "FLUX_AUTO"@ && field_bytes(m, "FLUX_AUTO"@) == be4(m.flux_auto));
    assert(b.subrange(36, 40) =~= be4(m.flux_auto));
    assert(c[6].name@ == "A_IMAGE"@ && field_bytes(m, "A_IMAGE"@) == be4(m.a));
    assert(b.subrange(40, 44) =~= be4(m.a));
    assert(c[7].name@ == "B_IMAGE"@ && field_bytes(m, "B_IMAGE"@) == be4(m.b));
    assert(b.subrange(44, 48) =~= be4(m.b));
    assert(c[8].name@ == "THETA"@ && field_bytes(m, "THETA"@) == be4(m.theta));
    assert(b.subrange(48, 52) =~= be4(m.theta));
    assert(c[9].name@ == "ELLIP"@ && field_bytes(m, "ELLIP"@) == be4(m.ellipticity));
    assert(b.subrange(52, 56) =~= be4(m.ellipticity));
    assert(c[10].name@ == "KRON_RAD"@ && field_bytes(m, "KRON_RAD"@) == be4(m.kron_radius));
    assert(b.subrange(56, 60) =~= be4(m.kron_radius));
    assert(c[11].name@ == "NPIX"@ && field_bytes(m, "NPIX"@) == be4(m.npix));
    assert(b.subrange(60, 64) =~= be4(m.npix));
    assert(c[12].name@ == "FLAGS"@ && field_bytes(m, "FLAGS"@) == be2(m.flags));
    assert(b.subrange(64, 66) =~= be2(m.flags));
    assert forall|k: int| 0 <= k < schema_cols().len() implies b.subrange(
        column_offset(k),
        column_offset(k) + schema_cols()[k].nbytes,
    ) == #[trigger] field_bytes(m, schema_cols()[k].name@) by {
        assert(column_offset(k) == offsets()[k]);
        assert(column_offset(k + 1) == offsets()[k + 1]);
        lemma_offset_step(k);
    }
    assert(column_offset(13) == offsets()[13]);
}

/// How many header cards the first `k` columns take: two each (name and
/// format), and one more for each column with a unit.
pub open spec fn cards_before(cols: Seq<Col>, k: int) -> int
    decreases k,
{
    if k <= 0 {
        0
    } else {
        cards_before(cols, k - 1) + 2 + if cols[k - 1].tunit@.len() != 0 { 1int } else { 0 }
    }
}

proof fn lemma_cards_before_prefix(cols: Seq<Col>, k: int)
    requires
        0 <= k < cols.len(),
    ensures
        cards_before(cols.drop_last(), k) == cards_before(cols, k),
    decreases k,
{
    if k > 0 {
        lemma_cards_before_prefix(cols, k - 1);
        assert(cols.drop_last()[k - 1] == cols[k - 1]);
    }
}

proof fn lemma_cards_before_grows(cols: Seq<Col>, j: int, k: int)
    requires
        0 <= j <= k,
    ensures
        cards_before(cols, j) + 2 * (k - j) <= cards_before(cols, k),
    decreases k,
{
    if j < k {
        lemma_cards_before_grows(cols, j, k - 1);
    }
}

/// The cards of the columns, numbered from `first`: column `k` starts after
/// the cards of the columns before it, with its name card `TTYPEn`, then its
/// format card `TFORMn`, then (when it has one) its unit card `TUNITn`, all
/// three with the same number `n = first + k`.
pub proof fn lemma_column_cards(cols: Seq<Col>, first: int)
    ensures
        columns_texts(cols, first).len() == cards_before(cols, cols.len() as int),
        forall|k: int|
            #![trigger cards_before(cols, k)]
            0 <= k < cols.len() ==> {
                let t = columns_texts(cols, first);
                let at = cards_before(cols, k);
                let n = first + k;
                &&& t[at] == kv_str_text("TTYPE"@ + decimal(n), cols[k].name@, "Column name"@)
                &&& t[at + 1] == kv_str_text("TFORM"@ + decimal(n), cols[k].tform@, "Data format"@)
                &&& cols[k].tunit@.len() != 0 ==> t[at + 2] == kv_str_text("TUNIT"@ + decimal(n), cols[k].tunit@, "Unit"@)
            },
    decreases cols.len(),
{
    if cols.len() > 0 {
        let init = cols.drop_last();
        let len = cols.len() as int;
        lemma_column_cards(init, first);
        lemma_cards_before_prefix(cols, len - 1);
        let ti = columns_texts(init, first);
        let t = columns_texts(cols, first);
        let last = column_texts(cols.last(), first + len - 1);
        assert(t == ti + last);
        assert forall|k: int|
            #![trigger cards_before(cols, k)]
            0 <= k < cols.len() implies {
                let at = cards_before(cols, k);
                let n = first + k;
                &&& t[at] == kv_str_text("TTYPE"@ + decimal(n), cols[k].name@, "Column name"@)
                &&& t[at + 1] == kv_str_text("TFORM"@ + decimal(n), cols[k].tform@, "Data format"@)
                &&& cols[k].tunit@.len() != 0 ==> t[at + 2] == kv_str_text("TUNIT"@ + decimal(n), cols[k].tunit@, "Unit"@)
            } by {
            if k < len - 1 {
                lemma_cards_before_prefix(cols, k);
                lemma_cards_before_prefix(cols, k + 1);
                lemma_cards_before_grows(init, k + 1, len - 1);
                assert(init[k] == cols[k]);
                let at = cards_before(init, k);
                lemma_cards_before_grows(init, 0, k);
                assert(0 <= at);
                assert(cards_before(init, k + 1) <= ti.len());
                assert(at + 2 <= cards_before(init, k + 1));
                assert(t[at] == ti[at]);
                assert(t[at + 1] == ti[at + 1]);
                if cols[k].tunit@.len() != 0 {
                    assert(at + 3 == cards_before(init, k + 1));
                    assert(t[at + 2] == ti[at + 2]);
                }
            } else {
                assert(cols[k] == cols.last());
                let at = ti.len() as int;
                assert(cards_before(cols, k) == at);
                assert(t[at] == last[0]);
                assert(t[at + 1] == last[1]);
                if cols[k].tunit@.len() != 0 {
                    assert(t[at + 2] == last[2]);
                }
            }
        }
    }
}

/// Row `i` of a single-brick table occupies bytes `66 * i .. 66 * i + 66`
/// of the data, in the order of the list.
pub proof fn lemma_table_rows(rows: Seq<CatalogRow>)
    ensures
        rows_bytes(rows).len() == 66 * rows.len(),
        forall|i: int|
            0 <= i < rows.len() ==> rows_bytes(rows).subrange(66 * i, 66 * i + 66) == #[trigger] row_bytes(rows[i]),
    decreases rows.len(),
{
    if rows.len() > 0 {
        let init = rows.drop_last();
        lemma_table_rows(init);
        lemma_row_width(rows.last(), seq![]);
        let b = rows_bytes(rows);
        let bi = rows_bytes(init);
        assert forall|i: int| 0 <= i < rows.len() implies b.subrange(66 * i, 66 * i + 66) == #[trigger] row_bytes(
            rows[i],
        ) by {
            if i < rows.len() - 1 {
                assert(init[i] == rows[i]);
                assert(b.subrange(66 * i, 66 * i + 66) =~= bi.subrange(66 * i, 66 * i + 66));
            } else {
                assert(b.subrange(66 * i, 66 * i + 66) =~= row_bytes(rows.last()));
            }
        }
    }
}

/// Entry `i` of a multi-brick table occupies bytes `78 * i .. 78 * i + 78`
/// of the data: its brick name in the first 12, then its row.
pub proof fn lemma_multi_table_rows(entries: Seq<(String, CatalogRow)>)
    ensures
        multi_rows_bytes(entries).len() == 78 * entries.len(),
        forall|i: int|
            0 <= i < entries.len() ==> {
                &&& multi_rows_bytes(entries).subrange(78 * i, 78 * i + 12) == brick_field(
                    vstd::utf8::encode_utf8((#[trigger] entries[i]).0@),
                )
                &&& multi_rows_bytes(entries).subrange(78 * i + 12, 78 * i + 78) == row_bytes(entries[i].1)
            },
    decreases entries.len(),
{
    if entries.len() > 0 {
        let init = entries.drop_last();
        lemma_multi_table_rows(init);
        lemma_row_width(entries.last().1, seq![]);
        let b = multi_rows_bytes(entries);
        let bi = multi_rows_bytes(init);
        assert forall|i: int| 0 <= i < entries.len() implies {
            &&& b.subrange(78 * i, 78 * i + 12) == brick_field(vstd::utf8::encode_utf8((#[trigger] entries[i]).0@))
            &&& b.subrange(78 * i + 12, 78 * i + 78) == row_bytes(entries[i].1)
        } by {
            if i < entries.len() - 1 {
                assert(init[i] == entries[i]);
                assert(b.subrange(78 * i, 78 * i + 12) =~= bi.subrange(78 * i, 78 * i + 12));
                assert(b.subrange(78 * i + 12, 78 * i + 78) =~= bi.subrange(78 * i + 12, 78 * i + 78));
            } else {
                let name = brick_field(vstd::utf8::encode_utf8(entries.last().0@));
                assert(b.subrange(78 * i, 78 * i + 12) =~= name);
                assert(b.subrange(78 * i + 12, 78 * i + 78) =~= row_bytes(entries.last().1));
            }
        }
    }
}

} // verus!
