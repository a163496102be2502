use vera::fits_header::{
    append_bytes, card, decimal_string, kv_bool, kv_int, kv_raw, kv_str, pad_block, schema, write_header_block,
    write_primary, write_primary_multi, BLOCK,
};
use vera::fits_table::{push_be2, push_be4, push_be8, push_row, write_bintable, write_bintable_multi, CatalogRow, BRICK_BYTES};

fn card_text(bytes: &[u8], index: usize) -> String {
    String::from_utf8(bytes[index * 80..(index + 1) * 80].to_vec()).unwrap()
}

fn padded(text: &str) -> String {
    format!("{text:<80}")
}

fn sample_row(seed: u32) -> CatalogRow {
    CatalogRow {
        ra: 187.25f64.to_bits(),
        dec: 12.5f64.to_bits(),
        x_c: (100.0f64 + seed as f64).to_bits(),
        y_c: 200.75f64.to_bits(),
        flux_iso: 3.5f32.to_bits(),
        flux_auto: 4.25f32.to_bits(),
        a: 2.0f32.to_bits(),
        b: 1.0f32.to_bits(),
        theta: (-45.0f32).to_bits(),
        ellipticity: 0.5f32.to_bits(),
        kron_radius: 3.5f32.to_bits(),
        npix: 40 + seed,
        flags: 1,
    }
}

#[test]
fn logical_card_text() {
    assert_eq!(kv_bool("SIMPLE", true, "Standard FITS"), "SIMPLE  =                    T / Standard FITS");
    assert_eq!(kv_bool("EXTEND", false, ""), "EXTEND  =                    F");
}

#[test]
fn integer_card_text() {
    assert_eq!(kv_int("BITPIX", 8, ""), "BITPIX  =                    8");
    assert_eq!(kv_int("NAXIS1", 66, "Bytes per row"), "NAXIS1  =                   66 / Bytes per row");
    assert_eq!(kv_int("X", -42, "c"), "X       =                  -42 / c");
    assert_eq!(kv_int("BIG", i64::MIN, ""), "BIG     = -9223372036854775808");
}

#[test]
fn string_card_text() {
    assert_eq!(
        kv_str("ORIGIN", "vera", "github.com/MaxIKweeger/vera"),
        "ORIGIN  = 'vera    '           / github.com/MaxIKweeger/vera"
    );
    assert_eq!(kv_str("XTENSION", "BINTABLE", "Binary table extension"), "XTENSION= 'BINTABLE'           / Binary table extension");
    assert_eq!(
        kv_str("SURVEY", "DESI Legacy Imaging Survey DR10", "Data release"),
        "SURVEY  = 'DESI Legacy Imaging Survey DR10' / Data release"
    );
    assert_eq!(kv_str("TUNIT1", "deg", ""), "TUNIT1  = 'deg     '");
}

#[test]
fn raw_card_text() {
    assert_eq!(kv_raw("KEY", "value", ""), "KEY     = value");
    assert_eq!(kv_raw("KEY", "value", "note"), "KEY     = value                / note");
    assert_eq!(kv_raw("LONGKEYWORD", "v", "n"), "LONGKEYWORD= v                    / n");
}

#[test]
fn decimal_strings() {
    assert_eq!(decimal_string(0), "0");
    assert_eq!(decimal_string(1234567890), "1234567890");
    assert_eq!(decimal_string(-7), "-7");
    assert_eq!(decimal_string(i64::MAX), i64::MAX.to_string());
    assert_eq!(decimal_string(i64::MIN), i64::MIN.to_string());
}

#[test]
fn card_pads_and_cuts_at_80_bytes() {
    let c = card("END");
    assert_eq!(&c[..3], b"END");
    assert!(c[3..].iter().all(|&b| b == b' '));
    let long = "X".repeat(100);
    assert_eq!(card(&long), [b'X'; 80]);
    assert_eq!(card(""), [b' '; 80]);
}

#[test]
fn byte_helpers() {
    let mut out = vec![9u8];
    append_bytes(&mut out, &[1, 2, 3]);
    assert_eq!(out, vec![9, 1, 2, 3]);
    pad_block(&mut out, 0);
    assert_eq!(out.len(), BLOCK);
    assert_eq!(&out[..4], &[9, 1, 2, 3]);
    assert!(out[4..].iter().all(|&b| b == 0));
    pad_block(&mut out, 7);
    assert_eq!(out.len(), BLOCK);
    let mut empty: Vec<u8> = Vec::new();
    pad_block(&mut empty, 32);
    assert!(empty.is_empty());
}

#[test]
fn empty_header_is_one_block_with_end() {
    let mut w = Vec::new();
    write_header_block(&mut w, &[]);
    assert_eq!(w.len(), 2880);
    assert_eq!(card_text(&w, 0), padded("END"));
    assert!(w[80..].iter().all(|&b| b == b' '));
}

#[test]
fn header_block_sizes() {
    // 35 cards + END fill one block exactly; 36 + END need a second block.
    let cards: Vec<String> = (0..35).map(|i| kv_int("N", i, "")).collect();
    let mut w = vec![1u8, 2];
    write_header_block(&mut w, &cards);
    assert_eq!(w.len(), 2 + 2880);
    assert_eq!(&w[..2], &[1, 2]);
    assert_eq!(card_text(&w[2..], 35), padded("END"));

    let cards: Vec<String> = (0..36).map(|i| kv_int("N", i, "")).collect();
    let mut w = Vec::new();
    write_header_block(&mut w, &cards);
    assert_eq!(w.len(), 5760);
    assert_eq!(card_text(&w, 36), padded("END"));
    assert_eq!(card_text(&w, 35), padded(&kv_int("N", 35, "")));
}

#[test]
fn primary_header_cards() {
    let mut w = Vec::new();
    write_primary(&mut w, "1877p122", "r");
    assert_eq!(w.len(), 2880);
    assert_eq!(card_text(&w, 0), padded("SIMPLE  =                    T / Standard FITS"));
    assert_eq!(card_text(&w, 1), padded("BITPIX  =                    8 / Character data"));
    assert_eq!(card_text(&w, 2), padded("NAXIS   =                    0 / No image"));
    assert_eq!(card_text(&w, 6), padded("FILTER  = 'r       '           / Photometric band"));
    assert_eq!(card_text(&w, 7), padded("OBJECT  = '1877p122'           / Brick identifier"));
    assert_eq!(card_text(&w, 9), padded("SOFTWARE= 'vera    '           / Processing software"));
    assert_eq!(card_text(&w, 10), padded("END"));
}

#[test]
fn primary_multi_header_cards() {
    let mut w = Vec::new();
    write_primary_multi(&mut w, "g");
    assert_eq!(w.len(), 2880);
    assert_eq!(card_text(&w, 6), padded("FILTER  = 'g       '           / Photometric band"));
    assert_eq!(card_text(&w, 9), padded("REFERENC= 'joss.theoj.org'     / Target journal: JOSS"));
    assert_eq!(card_text(&w, 10), padded("END"));
}

#[test]
fn schema_columns() {
    let cols = schema();
    assert_eq!(cols.len(), 13);
    assert_eq!(cols.iter().map(|c| c.nbytes).sum::<usize>(), 66);
    assert_eq!(cols[0].name, "RA");
    assert_eq!(cols[12].name, "FLAGS");
    assert_eq!(cols[12].tform, "1I");
    assert_eq!(cols.iter().filter(|c| !c.tunit.is_empty()).count(), 10);
}

#[test]
fn big_endian_words() {
    let mut out = Vec::new();
    push_be8(&mut out, 0x0102_0304_0506_0708);
    push_be4(&mut out, 1.0f32.to_bits());
    push_be2(&mut out, 0xABCD);
    assert_eq!(out, vec![1, 2, 3, 4, 5, 6, 7, 8, 0x3F, 0x80, 0, 0, 0xAB, 0xCD]);
}

#[test]
fn row_is_66_big_endian_bytes() {
    let m = sample_row(0);
    let mut out = Vec::new();
    push_row(&mut out, &m);
    assert_eq!(out.len(), 66);
    assert_eq!(f64::from_be_bytes(out[0..8].try_into().unwrap()), 187.25);
    assert_eq!(f64::from_be_bytes(out[24..32].try_into().unwrap()), 200.75);
    assert_eq!(f32::from_be_bytes(out[32..36].try_into().unwrap()), 3.5);
    assert_eq!(f32::from_be_bytes(out[48..52].try_into().unwrap()), -45.0);
    assert_eq!(i32::from_be_bytes(out[60..64].try_into().unwrap()), 40);
    assert_eq!(i16::from_be_bytes(out[64..66].try_into().unwrap()), 1);
}

#[test]
fn single_brick_table_layout() {
    let rows = vec![sample_row(0), sample_row(1)];
    let mut w = Vec::new();
    write_bintable(&mut w, &rows, "1877p122", "r");
    // 13 fixed cards, 26 name/format cards, 10 unit cards and END: two blocks.
    assert_eq!(w.len(), 5760 + 2880);
    assert_eq!(card_text(&w, 0), padded("XTENSION= 'BINTABLE'           / Binary table extension"));
    assert_eq!(card_text(&w, 3), padded("NAXIS1  =                   66 / Bytes per row"));
    assert_eq!(card_text(&w, 4), padded("NAXIS2  =                    2 / Number of rows"));
    assert_eq!(card_text(&w, 7), padded("TFIELDS =                   13 / Number of columns"));
    assert_eq!(card_text(&w, 13), padded("TTYPE1  = 'RA      '           / Column name"));
    assert_eq!(card_text(&w, 14), padded("TFORM1  = '1D      '           / Data format"));
    assert_eq!(card_text(&w, 15), padded("TUNIT1  = 'deg     '           / Unit"));
    assert_eq!(card_text(&w, 48), padded("TFORM13 = '1I      '           / Data format"));
    assert_eq!(card_text(&w, 49), padded("END"));
    let data = &w[5760..];
    let mut expected = Vec::new();
    push_row(&mut expected, &rows[0]);
    push_row(&mut expected, &rows[1]);
    assert_eq!(&data[..132], &expected[..]);
    assert!(data[132..].iter().all(|&b| b == 0));
}

#[test]
fn empty_table_has_no_data_block() {
    let mut w = Vec::new();
    write_bintable(&mut w, &[], "b", "r");
    assert_eq!(w.len(), 5760);
    assert_eq!(card_text(&w, 4), padded("NAXIS2  =                    0 / Number of rows"));
}

#[test]
fn multi_brick_table_layout() {
    let entries = vec![
        ("1877p122".to_string(), sample_row(0)),
        ("a-very-long-brick-name".to_string(), sample_row(1)),
    ];
    let mut w = Vec::new();
    write_bintable_multi(&mut w, &entries, "r");
    assert_eq!(w.len(), 5760 + 2880);
    assert_eq!(card_text(&w, 3), padded("NAXIS1  =                   78 / Bytes per row"));
    assert_eq!(card_text(&w, 7), padded("TFIELDS =                   14 / Number of columns"));
    assert_eq!(card_text(&w, 12), padded("TTYPE1  = 'BRICK   '           / Brick identifier"));
    assert_eq!(card_text(&w, 13), padded("TFORM1  = '12A     '           / 12-char ASCII string"));
    assert_eq!(card_text(&w, 14), padded("TTYPE2  = 'RA      '           / Column name"));
    assert_eq!(card_text(&w, 50), padded("END"));
    let data = &w[5760..];
    assert_eq!(BRICK_BYTES, 12);
    assert_eq!(&data[..12], b"1877p122    ");
    let mut row0 = Vec::new();
    push_row(&mut row0, &entries[0].1);
    assert_eq!(&data[12..78], &row0[..]);
    assert_eq!(&data[78..90], b"a-very-long-");
    assert!(data[156..].iter().all(|&b| b == 0));
}
