//! FITS header cards: 80-byte records of the form `KEYWORD = value / comment`,
//! grouped in blocks of 2880 bytes.
use vstd::prelude::*;
use vstd::string::{StrSliceExecFns, StringExecFns, StringSliceAdditionalSpecFns};

verus! {

/// `n` space characters.
pub open spec fn spaces(n: int) -> Seq<char> {
    Seq::new(if n > 0 { n as nat } else { 0 }, |i: int| ' ')
}

/// `s` followed by spaces up to `width` characters (Rust's `{:<width}`).
pub open spec fn pad_right(s: Seq<char>, width: int) -> Seq<char> {
    s + spaces(width - s.len())
}

/// Spaces up to `width` characters, followed by `s` (Rust's `{:>width}`).
pub open spec fn pad_left(s: Seq<char>, width: int) -> Seq<char> {
    spaces(width - s.len()) + s
}

/// The character of a decimal digit.
pub open spec fn digit_char(d: int) -> char {
    (48 + d) as char
}

/// The decimal digits of a natural number, most significant first.
pub open spec fn decimal_digits(n: nat) -> Seq<char>
    decreases n,
{
    if n < 10 {
        seq![digit_char(n as int)]
    } else {
        decimal_digits(n / 10).push(digit_char((n % 10) as int))
    }
}

/// An integer written in decimal, with a leading `-` when negative (Rust's `{}`).
pub open spec fn decimal(v: int) -> Seq<char> {
    if v < 0 {
        seq!['-'] + decimal_digits((-v) as nat)
    } else {
        decimal_digits(v as nat)
    }
}

/// Appends `n` spaces.
fn append_spaces(s: &mut String, n: usize)
    ensures
        final(s)@ == old(s)@ + spaces(n as int),
{
    let mut i: usize = 0;
    while i < n
        invariant
            i <= n,
            s@ == old(s)@ + spaces(i as int),
        decreases n - i,
    {
        proof {
            reveal_strlit(" ");
        }
        s.append(" ");
        i += 1;
        proof {
            assert(s@ =~= old(s)@ + spaces(i as int));
        }
    }
}

/// The one-character string of a decimal digit.
fn digit_str(d: u64) -> (s: &'static str)
    requires
        d < 10,
    ensures
        s@ == seq![digit_char(d as int)],
{
    proof {
        reveal_strlit("0");
        reveal_strlit("1");
        reveal_strlit("2");
        reveal_strlit("3");
        reveal_strlit("4");
        reveal_strlit("5");
        reveal_strlit("6");
        reveal_strlit("7");
        reveal_strlit("8");
        reveal_strlit("9");
    }
    match d {
        0 => "0",
        1 => "1",
        2 => "2",
        3 => "3",
        4 => "4",
        5 => "5",
        6 => "6",
        7 => "7",
        8 => "8",
        _ => "9",
    }
}

/// Appends the decimal digits of `n`.
fn append_digits(s: &mut String, n: u64)
    ensures
        final(s)@ == old(s)@ + decimal_digits(n as nat),
    decreases n,
{
    if n >= 10 {
        append_digits(s, n / 10);
    }
    s.append(digit_str(n % 10));
    proof {
        assert(final(s)@ =~= old(s)@ + decimal_digits(n as nat));
    }
}

/// Writes a signed integer in decimal.
pub fn decimal_string(v: i64) -> (s: String)
    ensures
        s@ == decimal(v as int),
{
    let mut s = String::new();
    if v < 0 {
        proof {
            reveal_strlit("-");
        }
        s.append("-");
        let mag: u64 = ((-(v + 1)) as u64) + 1;
        append_digits(&mut s, mag);
        proof {
            assert(s@ =~= decimal(v as int));
        }
    } else {
        append_digits(&mut s, v as u64);
        proof {
            assert(s@ =~= decimal(v as int));
        }
    }
    s
}

/// Text of a card: the keyword padded to 8 characters, `= `, then the value
/// alone when there is no comment, or the value padded to 20 characters,
/// ` / ` and the comment.
pub open spec fn kv_raw_text(key: Seq<char>, value: Seq<char>, comment: Seq<char>) -> Seq<char> {
    pad_right(key, 8) + seq!['=', ' '] + if comment.len() == 0 {
        value
    } else {
        pad_right(value, 20) + seq![' ', '/', ' '] + comment
    }
}

/// Text of a logical card: `T` or `F` right-justified in 20 characters.
pub open spec fn kv_bool_text(key: Seq<char>, val: bool, comment: Seq<char>) -> Seq<char> {
    kv_raw_text(key, pad_left(if val { seq!['T'] } else { seq!['F'] }, 20), comment)
}

/// Text of an integer card: the decimal value right-justified in 20 characters.
pub open spec fn kv_int_text(key: Seq<char>, val: int, comment: Seq<char>) -> Seq<char> {
    kv_raw_text(key, pad_left(decimal(val), 20), comment)
}

/// Text of a string card: the value in single quotes, padded inside the quotes
/// to 8 characters unless its UTF-8 encoding is longer than 8 bytes.
pub open spec fn kv_str_text(key: Seq<char>, val: Seq<char>, comment: Seq<char>) -> Seq<char> {
    let padded = if vstd::utf8::encode_utf8(val).len() > 8 { val } else { pad_right(val, 8) };
    kv_raw_text(key, seq!['\''] + padded + seq!['\''], comment)
}

/// Formats `key = value / comment` (or `key = value` without a comment).
pub fn kv_raw(key: &str, value: &str, comment: &str) -> (s: String)
    ensures
        s@ == kv_raw_text(key@, value@, comment@),
{
    let mut s = String::from_str(key);
    let kl = key.unicode_len();
    if kl < 8 {
        append_spaces(&mut s, 8 - kl);
    }
    proof {
        assert(s@ =~= pad_right(key@, 8));
        reveal_strlit("= ");
        reveal_strlit(" / ");
    }
    s.append("= ");
    if comment.is_empty() {
        s.append(value);
    } else {
        s.append(value);
        let vl = value.unicode_len();
        if vl < 20 {
            append_spaces(&mut s, 20 - vl);
        }
        s.append(" / ");
        s.append(comment);
    }
    proof {
        assert(s@ =~= kv_raw_text(key@, value@, comment@));
    }
    s
}

/// A logical card (`T` or `F`).
pub fn kv_bool(key: &str, val: bool, comment: &str) -> (s: String)
    ensures
        s@ == kv_bool_text(key@, val, comment@),
{
    proof {
        reveal_strlit("T");
        reveal_strlit("F");
    }
    let v = if val { "T" } else { "F" };
    let mut padded = String::new();
    append_spaces(&mut padded, 19);
    padded.append(v);
    proof {
        assert(padded@ =~= pad_left(if val { seq!['T'] } else { seq!['F'] }, 20));
    }
    kv_raw(key, padded.as_str(), comment)
}

/// An integer card.
pub fn kv_int(key: &str, val: i64, comment: &str) -> (s: String)
    ensures
        s@ == kv_int_text(key@, val as int, comment@),
{
    let digits = decimal_string(val);
    let n = digits.as_str().unicode_len();
    let mut padded = String::new();
    if n < 20 {
        append_spaces(&mut padded, 20 - n);
    }
    padded.append(digits.as_str());
    proof {
        assert(padded@ =~= pad_left(decimal(val as int), 20));
    }
    kv_raw(key, padded.as_str(), comment)
}

/// A character-string card: single-quoted, left-justified, at least 8
/// characters wide inside the quotes.
pub fn kv_str(key: &str, val: &str, comment: &str) -> (s: String)
    ensures
        s@ == kv_str_text(key@, val@, comment@),
{
    proof {
        reveal_strlit("'");
    }
    let mut quoted = String::from_str("'");
    quoted.append(val);
    if val.as_bytes().len() <= 8 {
        let n = val.unicode_len();
        if n < 8 {
            append_spaces(&mut quoted, 8 - n);
        }
    }
    quoted.append("'");
    proof {
        let padded = if vstd::utf8::encode_utf8(val@).len() > 8 { val@ } else { pad_right(val@, 8) };
        assert(quoted@ =~= seq!['\''] + padded + seq!['\'']);
    }
    kv_raw(key, quoted.as_str(), comment)
}

/// The number written by a string of decimal digits.
pub open spec fn digits_value(s: Seq<char>) -> int
    decreases s.len(),
{
    if s.len() == 0 {
        0
    } else {
        digits_value(s.drop_last()) * 10 + (s.last() as int - 48)
    }
}

proof fn lemma_digit_char(d: int)
    requires
        0 <= d < 10,
    ensures
        digit_char(d) as int == 48 + d,
        '0' <= digit_char(d) <= '9',
{
}

/// The decimal digits of `n` are digits, with no leading zero, and they
/// read back as `n`.
pub proof fn lemma_decimal_digits(n: nat)
    ensures
        decimal_digits(n).len() >= 1,
        n >= 10 ==> decimal_digits(n).len() >= 2,
        forall|i: int| 0 <= i < decimal_digits(n).len() ==> '0' <= #[trigger] decimal_digits(n)[i] <= '9',
        decimal_digits(n).len() > 1 ==> decimal_digits(n)[0] != '0',
        digits_value(decimal_digits(n)) == n,
    decreases n,
{
    let d = decimal_digits(n);
    if n >= 10 {
        let q = (n / 10) as nat;
        lemma_decimal_digits(q);
        lemma_digit_char((n % 10) as int);
        let dq = decimal_digits(q);
        assert(d == dq.push(digit_char((n % 10) as int)));
        assert(d.drop_last() =~= dq);
        assert(d[0] == dq[0]);
        if dq.len() == 1 {
            assert(q < 10);
            lemma_digit_char(q as int);
            assert(dq[0] == digit_char(q as int));
        }
        assert(digits_value(d) == digits_value(dq) * 10 + (n % 10));
    } else {
        lemma_digit_char(n as int);
        assert(d.drop_last().len() == 0);
        assert(digits_value(d.drop_last()) == 0);
    }
}

/// Where the parts of a card stand: a keyword of at most 8 characters is
/// space-filled to column 8, `=` stands in column 8 and a space in column 9,
/// the value starts in column 10; with a comment, a value of at most 20
/// characters is space-filled to column 30, ` / ` follows, then the comment.
pub proof fn lemma_card_layout(key: Seq<char>, value: Seq<char>, comment: Seq<char>)
    requires
        key.len() <= 8,
    ensures
        ({
            let t = kv_raw_text(key, value, comment);
            &&& t.subrange(0, key.len() as int) == key
            &&& forall|j: int| key.len() <= j < 8 ==> #[trigger] t[j] == ' '
            &&& t[8] == '=' && t[9] == ' '
            &&& t.subrange(10, 10 + (value.len() as int)) == value
            &&& comment.len() == 0 ==> t.len() == 10 + (value.len() as int)
            &&& comment.len() != 0 && (value.len() as int) <= 20 ==> {
                &&& t.len() == 33 + comment.len()
                &&& forall|j: int| 10 + (value.len() as int) <= j < 30 ==> #[trigger] t[j] == ' '
                &&& t.subrange(30, 33) == seq![' ', '/', ' ']
                &&& t.subrange(33, t.len() as int) == comment
            }
        }),
{
    let t = kv_raw_text(key, value, comment);
    assert(t.subrange(0, key.len() as int) =~= key);
    assert(t.subrange(10, 10 + (value.len() as int)) =~= value);
    if comment.len() != 0 && (value.len() as int) <= 20 {
        assert(t.subrange(30, 33) =~= seq![' ', '/', ' ']);
        assert(t.subrange(33, t.len() as int) =~= comment);
    }
}

/// An integer card right-justifies the decimal value so that its last digit
/// stands in column 29, with spaces from column 10 up to it.
pub proof fn lemma_int_card_layout(key: Seq<char>, v: int, comment: Seq<char>)
    requires
        key.len() <= 8,
        decimal(v).len() <= 20,
    ensures
        ({
            let t = kv_int_text(key, v, comment);
            let d = decimal(v);
            &&& t.subrange(30 - (d.len() as int), 30) == d
            &&& forall|j: int| 10 <= j < 30 - (d.len() as int) ==> #[trigger] t[j] == ' '
            &&& t[8] == '='
        }),
{
    let d = decimal(v);
    let value = pad_left(d, 20);
    assert(value.len() == 20);
    lemma_card_layout(key, value, comment);
    let t = kv_int_text(key, v, comment);
    assert(t.subrange(10, 30) == value);
    assert(t.subrange(30 - (d.len() as int), 30) =~= value.subrange(20 - (d.len() as int), 20));
    assert(value.subrange(20 - (d.len() as int), 20) =~= d);
    assert forall|j: int| 10 <= j < 30 - (d.len() as int) implies #[trigger] t[j] == ' ' by {
        assert(t[j] == t.subrange(10, 30)[j - 10]);
    }
}

/// A logical card writes `T` or `F` in column 29, with spaces from column 10.
pub proof fn lemma_bool_card_layout(key: Seq<char>, val: bool, comment: Seq<char>)
    requires
        key.len() <= 8,
    ensures
        ({
            let t = kv_bool_text(key, val, comment);
            &&& t[29] == if val { 'T' } else { 'F' }
            &&& forall|j: int| 10 <= j < 29 ==> #[trigger] t[j] == ' '
            &&& t[8] == '='
        }),
{
    let value = pad_left(if val { seq!['T'] } else { seq!['F'] }, 20);
    lemma_card_layout(key, value, comment);
    let t = kv_bool_text(key, val, comment);
    assert(t.subrange(10, 30) == value);
    assert(t[29] == t.subrange(10, 30)[19]);
    assert forall|j: int| 10 <= j < 29 implies #[trigger] t[j] == ' ' by {
        assert(t[j] == t.subrange(10, 30)[j - 10]);
    }
}

/// A string card quotes the value starting in column 10; a value of at most
/// 8 bytes is space-filled inside the quotes so that the closing quote stands
/// in column 19, and a longer one is closed right after its last character.
#[verifier::spinoff_prover]
pub proof fn lemma_str_card_layout(key: Seq<char>, val: Seq<char>, comment: Seq<char>)
    requires
        key.len() <= 8,
    ensures
        ({
            let t = kv_str_text(key, val, comment);
            &&& t[10] == '\''
            &&& t.subrange(11, 11 + (val.len() as int)) == val
            &&& vstd::utf8::encode_utf8(val).len() <= 8 && (val.len() as int) <= 8 ==> {
                &&& forall|j: int| 11 + (val.len() as int) <= j < 19 ==> #[trigger] t[j] == ' '
                &&& t[19] == '\''
            }
            &&& vstd::utf8::encode_utf8(val).len() > 8 ==> t[11 + (val.len() as int)] == '\''
        }),
{
    let long = vstd::utf8::encode_utf8(val).len() > 8;
    let padded = if long { val } else { pad_right(val, 8) };
    let value = seq!['\''] + padded + seq!['\''];
    let t = kv_str_text(key, val, comment);
    assert(t == kv_raw_text(key, value, comment));
    lemma_card_layout(key, value, comment);
    let n = value.len() as int;
    assert forall|j: int| 0 <= j < n implies #[trigger] t[10 + j] == value[j] by {
        assert(t.subrange(10, 10 + n)[j] == t[10 + j]);
    }
    assert forall|j: int| 0 <= j < val.len() implies #[trigger] value[1 + j] == val[j] by {
        assert(padded[j] == val[j]);
    }
    assert(t.subrange(11, 11 + (val.len() as int)) =~= val) by {
        assert forall|j: int| 0 <= j < val.len() implies t.subrange(11, 11 + (val.len() as int))[j] == val[j] by {
            assert(t[10 + (1 + j)] == value[1 + j]);
        }
    }
    assert(t[10int + 0] == value[0]);
    if !long && (val.len() as int) <= 8 {
        assert(padded.len() == 8);
        assert(t[10int + 9] == value[9]);
        assert forall|j: int| 11 + (val.len() as int) <= j < 19 implies #[trigger] t[j] == ' ' by {
            assert(t[10 + (j - 10)] == value[j - 10]);
            assert(value[j - 10] == padded[j - 11]);
        }
    }
    if long {
        assert(t[10 + (1 + (val.len() as int))] == value[1 + (val.len() as int)]);
    }
}

/// The 80 bytes of a card: the first 80 bytes of the text, space-filled.
pub open spec fn card_bytes(text: Seq<u8>) -> Seq<u8> {
    Seq::new(80, |i: int| if i < text.len() { text[i] } else { 32u8 })
}

/// Lays out a card's text in an 80-byte record (UTF-8 bytes, cut at 80,
/// padded with spaces).
pub fn card(text: &str) -> (c: [u8; 80])
    ensures
        c@ == card_bytes(text.spec_bytes()),
{
    let bytes = text.as_bytes();
    let mut c: [u8; 80] = [32u8; 80];
    let n = if bytes.len() < 80 { bytes.len() } else { 80 };
    let mut i: usize = 0;
    while i < n
        invariant
            n <= 80,
            n <= bytes@.len(),
            bytes@ == text.spec_bytes(),
            i <= n,
            c@.len() == 80,
            forall|k: int| 0 <= k < 80 ==> #[trigger] c@[k] == if k < i { bytes@[k] } else { 32u8 },
        decreases n - i,
    {
        c[i] = bytes[i];
        i += 1;
    }
    proof {
        assert(c@ =~= card_bytes(text.spec_bytes()));
    }
    c
}

/// The size in bytes of a FITS block.
pub const BLOCK: usize = 2880;

/// How many bytes bring a length of `n` up to a whole number of blocks.
pub open spec fn block_pad(n: int) -> int {
    if n % 2880 == 0 { 0 } else { 2880 - n % 2880 }
}

/// `b` followed by `fill` bytes up to a whole number of 2880-byte blocks.
pub open spec fn pad_to_block(b: Seq<u8>, fill: u8) -> Seq<u8> {
    b + Seq::new(block_pad(b.len() as int) as nat, |i: int| fill)
}

/// The records of a list of card texts, one after the other.
pub open spec fn cards_bytes(texts: Seq<Seq<char>>) -> Seq<u8>
    decreases texts.len(),
{
    if texts.len() == 0 {
        seq![]
    } else {
        cards_bytes(texts.drop_last()) + card_bytes(vstd::utf8::encode_utf8(texts.last()))
    }
}

/// A header: the given cards, an `END` card, and space padding to a whole
/// number of blocks.
pub open spec fn header_block(texts: Seq<Seq<char>>) -> Seq<u8> {
    pad_to_block(cards_bytes(texts.push(seq!['E', 'N', 'D'])), 32u8)
}

/// The texts of a list of strings.
pub open spec fn texts_of(cards: Seq<String>) -> Seq<Seq<char>> {
    cards.map_values(|s: String| s@)
}

/// A list of cards takes 80 bytes each.
pub proof fn lemma_cards_bytes_len(texts: Seq<Seq<char>>)
    ensures
        cards_bytes(texts).len() == 80 * texts.len(),
    decreases texts.len(),
{
    if texts.len() > 0 {
        lemma_cards_bytes_len(texts.drop_last());
    }
}

/// A header occupies a whole number of 2880-byte blocks, and holds one
/// 80-byte card per text plus the `END` card before its padding.
pub proof fn lemma_header_block_len(texts: Seq<Seq<char>>)
    ensures
        header_block(texts).len() % 2880 == 0,
        header_block(texts).len() >= 80 * (texts.len() + 1),
        header_block(texts).len() < 80 * (texts.len() + 1) + 2880,
{
    lemma_cards_bytes_len(texts.push(seq!['E', 'N', 'D']));
    let n: int = (80 * (texts.len() + 1)) as int;
    assert(cards_bytes(texts.push(seq!['E', 'N', 'D'])).len() == n);
    assert((n + block_pad(n)) % 2880 == 0) by {
        if n % 2880 != 0 {
            assert((n + (2880 - n % 2880)) % 2880 == 0) by (nonlinear_arith)
                requires n >= 0, n % 2880 != 0;
        }
    }
}

/// Card `i` of a list occupies bytes `80 * i .. 80 * i + 80`.
proof fn lemma_cards_bytes_index(texts: Seq<Seq<char>>)
    ensures
        cards_bytes(texts).len() == 80 * texts.len(),
        forall|i: int|
            0 <= i < texts.len() ==> cards_bytes(texts).subrange(80 * i, 80 * i + 80) == #[trigger] card_bytes(
                vstd::utf8::encode_utf8(texts[i]),
            ),
    decreases texts.len(),
{
    lemma_cards_bytes_len(texts);
    if texts.len() > 0 {
        let init = texts.drop_last();
        lemma_cards_bytes_index(init);
        let b = cards_bytes(texts);
        let bi = cards_bytes(init);
        assert forall|i: int| 0 <= i < texts.len() implies b.subrange(80 * i, 80 * i + 80) == #[trigger] card_bytes(
            vstd::utf8::encode_utf8(texts[i]),
        ) by {
            if i < texts.len() - 1 {
                assert(init[i] == texts[i]);
                assert(b.subrange(80 * i, 80 * i + 80) =~= bi.subrange(80 * i, 80 * i + 80));
            } else {
                assert(b.subrange(80 * i, 80 * i + 80) =~= card_bytes(vstd::utf8::encode_utf8(texts.last())));
            }
        }
    }
}

/// Where the cards stand in a header: card `i` fills bytes `80 * i` to
/// `80 * i + 80` with its text (cut at 80 bytes, space-filled), the `END`
/// card comes right after the last one, and spaces fill the rest.
pub proof fn lemma_header_cards(texts: Seq<Seq<char>>)
    ensures
        forall|i: int|
            0 <= i < texts.len() ==> header_block(texts).subrange(80 * i, 80 * i + 80) == #[trigger] card_bytes(
                vstd::utf8::encode_utf8(texts[i]),
            ),
        header_block(texts).subrange(80 * texts.len() as int, 80 * texts.len() as int + 80) == card_bytes(
            vstd::utf8::encode_utf8(seq!['E', 'N', 'D']),
        ),
        forall|j: int| 80 * (texts.len() + 1) <= j < header_block(texts).len() ==> #[trigger] header_block(texts)[j] == 32u8,
{
    let all = texts.push(seq!['E', 'N', 'D']);
    lemma_cards_bytes_index(all);
    let c = cards_bytes(all);
    let h = header_block(texts);
    assert(h == pad_to_block(c, 32u8));
    assert forall|i: int| 0 <= i < texts.len() implies h.subrange(80 * i, 80 * i + 80) == #[trigger] card_bytes(
        vstd::utf8::encode_utf8(texts[i]),
    ) by {
        assert(all[i] == texts[i]);
        assert(h.subrange(80 * i, 80 * i + 80) =~= c.subrange(80 * i, 80 * i + 80));
    }
    let n = texts.len() as int;
    assert(all[n] == seq!['E', 'N', 'D']);
    assert(h.subrange(80 * n, 80 * n + 80) =~= c.subrange(80 * n, 80 * n + 80));
}

/// Appends bytes one by one.
pub fn append_bytes(out: &mut Vec<u8>, bytes: &[u8])
    ensures
        final(out)@ == old(out)@ + bytes@,
{
    let mut i: usize = 0;
    while i < bytes.len()
        invariant
            i <= bytes@.len(),
            out@ == old(out)@ + bytes@.subrange(0, i as int),
        decreases bytes@.len() - i,
    {
        out.push(bytes[i]);
        i += 1;
        proof {
            assert(out@ =~= old(out)@ + bytes@.subrange(0, i as int));
        }
    }
    proof {
        assert(bytes@.subrange(0, bytes@.len() as int) =~= bytes@);
    }
}

/// Appends `fill` bytes up to a whole number of 2880-byte blocks.
pub fn pad_block(buf: &mut Vec<u8>, fill: u8)
    ensures
        final(buf)@ == pad_to_block(old(buf)@, fill),
{
    let rem = buf.len() % BLOCK;
    if rem != 0 {
        let n = BLOCK - rem;
        let mut i: usize = 0;
        while i < n
            invariant
                n == block_pad(old(buf)@.len() as int),
                i <= n,
                buf@ == old(buf)@ + Seq::new(i as nat, |k: int| fill),
            decreases n - i,
        {
            buf.push(fill);
            i += 1;
            proof {
                assert(buf@ =~= old(buf)@ + Seq::new(i as nat, |k: int| fill));
            }
        }
    }
    proof {
        assert(buf@ =~= pad_to_block(old(buf)@, fill));
    }
}

/// Writes a header: each card, the `END` card, then spaces up to a whole
/// number of 2880-byte blocks.
pub fn write_header_block(w: &mut Vec<u8>, cards: &[String])
    ensures
        final(w)@ == old(w)@ + header_block(texts_of(cards@)),
{
    let mut buf: Vec<u8> = Vec::new();
    let mut i: usize = 0;
    while i < cards.len()
        invariant
            i <= cards@.len(),
            buf@ == cards_bytes(texts_of(cards@).subrange(0, i as int)),
        decreases cards@.len() - i,
    {
        let c = card(cards[i].as_str());
        append_bytes(&mut buf, c.as_slice());
        proof {
            let t = texts_of(cards@).subrange(0, i + 1);
            assert(t.drop_last() =~= texts_of(cards@).subrange(0, i as int));
            assert(t.last() == cards@[i as int]@);
        }
        i += 1;
    }
    // END card
    proof {
        reveal_strlit("END");
    }
    let end = card("END");
    append_bytes(&mut buf, end.as_slice());
    proof {
        let t = texts_of(cards@).push(seq!['E', 'N', 'D']);
        assert(texts_of(cards@).subrange(0, cards@.len() as int) =~= texts_of(cards@));
        assert(t.drop_last() =~= texts_of(cards@));
        assert("END"@ =~= seq!['E', 'N', 'D']);
    }
    // Pad to 2880-byte multiple with spaces
    pad_block(&mut buf, 32u8);
    append_bytes(w, buf.as_slice());
}

/// One column of the catalogue table: its name, FITS format code, unit and
/// width in bytes.
pub struct Col {
    pub name: &'static str,
    pub tform: &'static str,
    pub tunit: &'static str,
    pub nbytes: usize,
}

/// The catalogue columns, in table order.
pub open spec fn schema_cols() -> Seq<Col> {
    seq![
        Col { name: "RA", tform: "1D", tunit: "deg", nbytes: 8 },
        Col { name: "DEC", tform: "1D", tunit: "deg", nbytes: 8 },
        Col { name: "X_IMAGE", tform: "1D", tunit: "pix", nbytes: 8 },
        Col { name: "Y_IMAGE", tform: "1D", tunit: "pix", nbytes: 8 },
        Col { name: "FLUX_ISO", tform: "1E", tunit: "nmg", nbytes: 4 },
        Col { name: "FLUX_AUTO", tform: "1E", tunit: "nmg", nbytes: 4 },
        Col { name: "A_IMAGE", tform: "1E", tunit: "pix", nbytes: 4 },
        Col { name: "B_IMAGE", tform: "1E", tunit: "pix", nbytes: 4 },
        Col { name: "THETA", tform: "1E", tunit: "deg", nbytes: 4 },
        Col { name: "ELLIP", tform: "1E", tunit: "", nbytes: 4 },
        Col { name: "KRON_RAD", tform: "1E", tunit: "", nbytes: 4 },
        Col { name: "NPIX", tform: "1J", tunit: "pix", nbytes: 4 },
        Col { name: "FLAGS", tform: "1I", tunit: "", nbytes: 2 },
    ]
}

/// The catalogue columns.
pub fn schema() -> (cols: Vec<Col>)
    ensures
        cols@ == schema_cols(),
{
    let cols = vec![
        Col { name: "RA", tform: "1D", tunit: "deg", nbytes: 8 },
        Col { name: "DEC", tform: "1D", tunit: "deg", nbytes: 8 },
        Col { name: "X_IMAGE", tform: "1D", tunit: "pix", nbytes: 8 },
        Col { name: "Y_IMAGE", tform: "1D", tunit: "pix", nbytes: 8 },
        Col { name: "FLUX_ISO", tform: "1E", tunit: "nmg", nbytes: 4 },
        Col { name: "FLUX_AUTO", tform: "1E", tunit: "nmg", nbytes: 4 },
        Col { name: "A_IMAGE", tform: "1E", tunit: "pix", nbytes: 4 },
        Col { name: "B_IMAGE", tform: "1E", tunit: "pix", nbytes: 4 },
        Col { name: "THETA", tform: "1E", tunit: "deg", nbytes: 4 },
        Col { name: "ELLIP", tform: "1E", tunit: "", nbytes: 4 },
        Col { name: "KRON_RAD", tform: "1E", tunit: "", nbytes: 4 },
        Col { name: "NPIX", tform: "1J", tunit: "pix", nbytes: 4 },
        Col { name: "FLAGS", tform: "1I", tunit: "", nbytes: 2 },
    ];
    proof {
        assert(cols@ =~= schema_cols());
    }
    cols
}

/// The cards of the primary header of a single-brick catalogue.
pub open spec fn primary_texts(brick: Seq<char>, band: Seq<char>) -> Seq<Seq<char>> {
    seq![
        kv_bool_text("SIMPLE"@, true, "Standard FITS"@),
        kv_int_text("BITPIX"@, 8, "Character data"@),
        kv_int_text("NAXIS"@, 0, "No image"@),
        kv_bool_text("EXTEND"@, true, "Extensions allowed"@),
        kv_str_text("ORIGIN"@, "vera"@, "github.com/MaxIKweeger/vera"@),
        kv_str_text("TELESCOP"@, "DECam"@, "Dark Energy Camera"@),
        kv_str_text("FILTER"@, band, "Photometric band"@),
        kv_str_text("OBJECT"@, brick, "Brick identifier"@),
        kv_str_text("AUTHOR"@, "MaxKweeger"@, "Scientific director"@),
        kv_str_text("SOFTWARE"@, "vera"@, "Processing software"@),
    ]
}

/// The cards of the primary header of a multi-brick catalogue.
pub open spec fn primary_multi_texts(band: Seq<char>) -> Seq<Seq<char>> {
    seq![
        kv_bool_text("SIMPLE"@, true, "Standard FITS"@),
        kv_int_text("BITPIX"@, 8, "Character data"@),
        kv_int_text("NAXIS"@, 0, "No image"@),
        kv_bool_text("EXTEND"@, true, "Extensions allowed"@),
        kv_str_text("ORIGIN"@, "vera"@, "github.com/MaxIKweeger/vera"@),
        kv_str_text("TELESCOP"@, "DECam"@, "Dark Energy Camera"@),
        kv_str_text("FILTER"@, band, "Photometric band"@),
        kv_str_text("AUTHOR"@, "MaxKweeger"@, "Scientific director"@),
        kv_str_text("SOFTWARE"@, "vera"@, "Processing software"@),
        kv_str_text("REFERENC"@, "joss.theoj.org"@, "Target journal: JOSS"@),
    ]
}

/// Writes the primary HDU of a single-brick catalogue: an empty image whose
/// header names the band and the brick.
pub fn write_primary(w: &mut Vec<u8>, brick: &str, band: &str)
    ensures
        final(w)@ == old(w)@ + header_block(primary_texts(brick@, band@)),
{
    let cards = vec![
        kv_bool("SIMPLE", true, "Standard FITS"),
        kv_int("BITPIX", 8, "Character data"),
        kv_int("NAXIS", 0, "No image"),
        kv_bool("EXTEND", true, "Extensions allowed"),
        kv_str("ORIGIN", "vera", "github.com/MaxIKweeger/vera"),
        kv_str("TELESCOP", "DECam", "Dark Energy Camera"),
        kv_str("FILTER", band, "Photometric band"),
        kv_str("OBJECT", brick, "Brick identifier"),
        kv_str("AUTHOR", "MaxKweeger", "Scientific director"),
        kv_str("SOFTWARE", "vera", "Processing software"),
    ];
    proof {
        assert(texts_of(cards@) =~= primary_texts(brick@, band@));
    }
    write_header_block(w, cards.as_slice());
}

/// Writes the primary HDU of a multi-brick catalogue.
pub fn write_primary_multi(w: &mut Vec<u8>, band: &str)
    ensures
        final(w)@ == old(w)@ + header_block(primary_multi_texts(band@)),
{
    let cards = vec![
        kv_bool("SIMPLE", true, "Standard FITS"),
        kv_int("BITPIX", 8, "Character data"),
        kv_int("NAXIS", 0, "No image"),
        kv_bool("EXTEND", true, "Extensions allowed"),
        kv_str("ORIGIN", "vera", "github.com/MaxIKweeger/vera"),
        kv_str("TELESCOP", "DECam", "Dark Energy Camera"),
        kv_str("FILTER", band, "Photometric band"),
        kv_str("AUTHOR", "MaxKweeger", "Scientific director"),
        kv_str("SOFTWARE", "vera", "Processing software"),
        kv_str("REFERENC", "joss.theoj.org", "Target journal: JOSS"),
    ];
    proof {
        assert(texts_of(cards@) =~= primary_multi_texts(band@));
    }
    write_header_block(w, cards.as_slice());
}

} // verus!
