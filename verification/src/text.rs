//! Small tools on bytes and text: searching, hexadecimal and decimal
//! digits, letter case, and the passage between bytes and strings.

use vstd::prelude::*;

use crate::error::Error;

verus! {

/// The text whose characters have the values of `bytes`, one for one.
pub open spec fn as_text(bytes: Seq<u8>) -> Seq<char> {
    Seq::new(bytes.len(), |i: int| bytes[i] as char)
}

/// The bytes whose values are those of the characters of `text`, one for
/// one; meant for ASCII text.
pub open spec fn as_bytes(text: Seq<char>) -> Seq<u8> {
    Seq::new(text.len(), |i: int| text[i] as u8)
}

/// Whether every byte of `bytes` is an ASCII character.
pub open spec fn is_ascii_bytes(bytes: Seq<u8>) -> bool {
    forall|i: int| 0 <= i < bytes.len() ==> #[trigger] bytes[i] < 128
}

/// The position of the first `a` or `b` in `text`, or the length of `text`
/// where it holds neither.
pub open spec fn first_index(text: Seq<u8>, a: u8, b: u8) -> int
    decreases text.len(),
{
    if text.len() == 0 {
        0
    } else if text[0] == a || text[0] == b {
        0
    } else {
        1 + first_index(text.skip(1), a, b)
    }
}

/// The position of the first `b` in `text`, or the length of `text` where
/// it holds none.
pub open spec fn index_of(text: Seq<u8>, b: u8) -> int {
    first_index(text, b, b)
}

/// `first_index` is the one position before which neither byte occurs and
/// at which, unless it is the end, one of them stands.
pub proof fn lemma_first_index(text: Seq<u8>, a: u8, b: u8)
    ensures
        0 <= first_index(text, a, b) <= text.len(),
        forall|j: int|
            0 <= j < first_index(text, a, b) ==> #[trigger] text[j] != a && text[j] != b,
        first_index(text, a, b) < text.len() ==> {
            ||| text[first_index(text, a, b)] == a
            ||| text[first_index(text, a, b)] == b
        },
    decreases text.len(),
{
    if text.len() != 0 && text[0] != a && text[0] != b {
        let rest = text.skip(1);
        lemma_first_index(rest, a, b);
        assert forall|j: int| 0 <= j < first_index(text, a, b) implies #[trigger] text[j] != a
            && text[j] != b by {
            if j > 0 {
                assert(text[j] == rest[j - 1]);
            }
        }
    }
}

/// A position that has what `lemma_first_index` states is `first_index`.
pub proof fn lemma_first_index_unique(text: Seq<u8>, a: u8, b: u8, at: int)
    requires
        0 <= at <= text.len(),
        forall|j: int| 0 <= j < at ==> #[trigger] text[j] != a && text[j] != b,
        at < text.len() ==> text[at] == a || text[at] == b,
    ensures
        first_index(text, a, b) == at,
{
    lemma_first_index(text, a, b);
    let found = first_index(text, a, b);
    if found < at {
        assert(text[found] != a && text[found] != b);
    } else if at < found {
        assert(text[at] != a && text[at] != b);
    }
}

/// Finds the first `a` or `b` in `text`; returns the length of `text` where
/// it holds neither.
pub fn find_first(text: &[u8], a: u8, b: u8) -> (at: usize)
    ensures
        at == first_index(text@, a, b),
        at <= text@.len(),
{
    let mut at: usize = 0;
    while at < text.len() && text[at] != a && text[at] != b
        invariant
            at <= text@.len(),
            forall|j: int| 0 <= j < at ==> #[trigger] text@[j] != a && text@[j] != b,
        decreases text@.len() - at,
    {
        at = at + 1;
    }
    proof {
        lemma_first_index_unique(text@, a, b, at as int);
    }
    at
}

/// The value of a hexadecimal digit, in either case; `None` for any other
/// character.
pub open spec fn hex_digit_value(c: char) -> Option<u8> {
    if '0' <= c <= '9' {
        Some((c as u8 - '0' as u8) as u8)
    } else if 'a' <= c <= 'f' {
        Some((c as u8 - 'a' as u8 + 10) as u8)
    } else if 'A' <= c <= 'F' {
        Some((c as u8 - 'A' as u8 + 10) as u8)
    } else {
        None
    }
}

/// Reads a hexadecimal digit.
pub fn hex_digit(c: char) -> (value: Option<u8>)
    ensures
        value == hex_digit_value(c),
        value matches Some(v) ==> v < 16,
{
    if '0' <= c && c <= '9' {
        Some(c as u8 - '0' as u8)
    } else if 'a' <= c && c <= 'f' {
        Some(c as u8 - 'a' as u8 + 10)
    } else if 'A' <= c && c <= 'F' {
        Some(c as u8 - 'A' as u8 + 10)
    } else {
        None
    }
}

/// The upper-case hexadecimal digit of a value below 16.
pub open spec fn upper_hex_digit(value: u8) -> u8 {
    if value < 10 {
        ('0' as u8 + value) as u8
    } else {
        ('A' as u8 + value - 10) as u8
    }
}

/// Writes a value below 16 as an upper-case hexadecimal digit.
pub fn to_upper_hex_digit(value: u8) -> (digit: u8)
    requires
        value < 16,
    ensures
        digit == upper_hex_digit(value),
        digit < 128,
        hex_digit_value(digit as char) == Some(value),
{
    if value < 10 {
        '0' as u8 + value
    } else {
        'A' as u8 + value - 10
    }
}

/// The lower-case form of an ASCII letter; any other byte as it is.
pub open spec fn lowercase_byte(b: u8) -> u8 {
    if 'A' as u8 <= b && b <= 'Z' as u8 {
        (b + 32) as u8
    } else {
        b
    }
}

/// `bytes` with every upper-case ASCII letter made lower-case.
pub open spec fn lowercase(bytes: Seq<u8>) -> Seq<u8> {
    Seq::new(bytes.len(), |i: int| lowercase_byte(bytes[i]))
}

/// Whether `bytes` holds no upper-case ASCII letter.
pub open spec fn has_no_uppercase(bytes: Seq<u8>) -> bool {
    forall|i: int|
        0 <= i < bytes.len() ==> !('A' as u8 <= #[trigger] bytes[i] && bytes[i] <= 'Z' as u8)
}

/// Whether a text holds no upper-case ASCII letter.
pub open spec fn is_lowercase_text(text: Seq<char>) -> bool {
    forall|i: int| 0 <= i < text.len() ==> !('A' <= #[trigger] text[i] <= 'Z')
}

/// The text of lower-case bytes holds no upper-case letter.
pub proof fn lemma_lowercase_text(bytes: Seq<u8>)
    ensures
        is_lowercase_text(as_text(lowercase(bytes))),
{
    let text = as_text(lowercase(bytes));
    assert forall|i: int| 0 <= i < text.len() implies !('A' <= #[trigger] text[i] <= 'Z') by {
        assert(text[i] == lowercase(bytes)[i] as char);
    }
}

/// Lower-case text holds no upper-case letter, and lower-casing it again
/// changes nothing.
pub proof fn lemma_lowercase(bytes: Seq<u8>)
    ensures
        has_no_uppercase(lowercase(bytes)),
        lowercase(lowercase(bytes)) == lowercase(bytes),
        has_no_uppercase(bytes) ==> lowercase(bytes) == bytes,
{
    assert(lowercase(lowercase(bytes)) =~= lowercase(bytes));
    if has_no_uppercase(bytes) {
        assert(lowercase(bytes) =~= bytes);
    }
}

/// Makes an ASCII letter lower-case.
pub fn to_lowercase_byte(b: u8) -> (lower: u8)
    ensures
        lower == lowercase_byte(b),
{
    if 'A' as u8 <= b && b <= 'Z' as u8 {
        b + 32
    } else {
        b
    }
}

/// A copy of `bytes` with every upper-case ASCII letter made lower-case.
pub fn to_lowercase(bytes: &[u8]) -> (lower: Vec<u8>)
    ensures
        lower@ == lowercase(bytes@),
{
    let mut lower: Vec<u8> = Vec::with_capacity(bytes.len());
    let mut i: usize = 0;
    while i < bytes.len()
        invariant
            i <= bytes@.len(),
            lower@.len() == i,
            forall|j: int| 0 <= j < i ==> #[trigger] lower@[j] == lowercase_byte(bytes@[j]),
        decreases bytes@.len() - i,
    {
        lower.push(to_lowercase_byte(bytes[i]));
        i = i + 1;
    }
    assert(lower@ =~= lowercase(bytes@));
    lower
}

/// The number that a text of decimal digits writes; leading zeros count
/// for nothing.
pub open spec fn decimal_value(digits: Seq<char>) -> nat
    decreases digits.len(),
{
    if digits.len() == 0 {
        0
    } else {
        10 * decimal_value(digits.drop_last()) + (digits.last() as nat - '0' as nat) as nat
    }
}

/// Whether `text` is one decimal digit or more, and nothing else.
pub open spec fn is_decimal(text: Seq<char>) -> bool {
    text.len() > 0 && forall|i: int| 0 <= i < text.len() ==> '0' <= #[trigger] text[i] <= '9'
}

/// The value of a text of digits is at least that of each of its
/// beginnings.
pub proof fn lemma_decimal_value_grows(digits: Seq<char>, n: int)
    requires
        0 <= n <= digits.len(),
    ensures
        decimal_value(digits.take(n)) <= decimal_value(digits),
    decreases digits.len() - n,
{
    if n == digits.len() {
        assert(digits.take(n) =~= digits);
    } else {
        lemma_decimal_value_grows(digits, n + 1);
        assert(digits.take(n + 1).drop_last() =~= digits.take(n));
    }
}

/// The decimal digits of `n`, the most significant first, with no leading
/// zero.
pub open spec fn decimal_digits(n: nat) -> Seq<u8>
    decreases n,
{
    if n < 10 {
        seq![('0' as u8 + n) as u8]
    } else {
        decimal_digits(n / 10).push(('0' as u8 + n % 10) as u8)
    }
}

/// The digits of a number write that number.
pub proof fn lemma_decimal_digits_value(n: nat)
    ensures
        is_decimal(as_text(decimal_digits(n))),
        decimal_value(as_text(decimal_digits(n))) == n,
        is_ascii_bytes(decimal_digits(n)),
    decreases n,
{
    let digits = decimal_digits(n);
    if n < 10 {
        assert(as_text(digits).drop_last() =~= Seq::<char>::empty());
        assert(decimal_value(as_text(digits).drop_last()) == 0);
    } else {
        lemma_decimal_digits_value(n / 10);
        let front = decimal_digits(n / 10);
        assert(as_text(digits).drop_last() =~= as_text(front));
        assert forall|i: int| 0 <= i < digits.len() implies '0' <= #[trigger] as_text(digits)[i]
            <= '9' by {
            if i < front.len() {
                assert(as_text(digits)[i] == as_text(front)[i]);
            }
        }
        assert forall|i: int| 0 <= i < digits.len() implies #[trigger] digits[i] < 128 by {
            if i < front.len() {
                assert(digits[i] == front[i]);
            }
        }
    }
}

/// Appends the decimal digits of `n` to `out`.
pub fn push_decimal(out: &mut Vec<u8>, n: u16)
    ensures
        final(out)@ == old(out)@ + decimal_digits(n as nat),
    decreases n,
{
    if n >= 10 {
        push_decimal(out, n / 10);
    }
    out.push('0' as u8 + (n % 10) as u8);
    assert(out@ =~= old(out)@ + decimal_digits(n as nat));
}

/// `String::push` of std: the character is appended to the end of the
/// string.
pub assume_specification[ String::push ](text: &mut String, c: char)
    ensures
        final(text)@ == old(text)@.push(c),
;

/// Appends to `out` the characters that have the values of `bytes`.
pub fn push_text(out: &mut String, bytes: &[u8])
    ensures
        final(out)@ == old(out)@ + as_text(bytes@),
{
    let mut i: usize = 0;
    while i < bytes.len()
        invariant
            i <= bytes@.len(),
            out@ == old(out)@ + as_text(bytes@.take(i as int)),
        decreases bytes@.len() - i,
    {
        out.push(bytes[i] as char);
        assert(bytes@.take(i + 1) =~= bytes@.take(i as int).push(bytes@[i as int]));
        assert(out@ =~= old(out)@ + as_text(bytes@.take(i + 1)));
        i = i + 1;
    }
    assert(bytes@.take(i as int) =~= bytes@);
}

/// The string whose characters have the values of `bytes`.
pub fn to_text(bytes: &[u8]) -> (text: String)
    ensures
        text@ == as_text(bytes@),
{
    let mut text = String::new();
    push_text(&mut text, bytes);
    assert(text@ =~= as_text(bytes@));
    text
}

/// The error with which `String::from_utf8` refuses `bytes`, where they are
/// not UTF-8.
pub uninterp spec fn utf8_failure(bytes: Seq<u8>) -> std::string::FromUtf8Error;

/// What converting `bytes` to a string gives: the text that they encode,
/// or the error `CannotExpressAsUtf8` where they encode none.
pub open spec fn utf8_text(bytes: Seq<u8>) -> Result<Seq<char>, Error> {
    if vstd::utf8::valid_utf8(bytes) {
        Ok(vstd::utf8::decode_utf8(bytes))
    } else {
        Err(Error::CannotExpressAsUtf8(utf8_failure(bytes)))
    }
}

/// `String::from_utf8` of std.  The call succeeds exactly on the byte
/// sequences that are valid UTF-8, and then gives the string that they
/// encode; otherwise it gives an error that depends on the bytes alone.
#[verifier::external_body]
fn string_from_utf8(bytes: Vec<u8>) -> (converted: Result<String, std::string::FromUtf8Error>)
    ensures
        vstd::utf8::valid_utf8(bytes@) ==> converted is Ok && converted->Ok_0@
            == vstd::utf8::decode_utf8(bytes@),
        !vstd::utf8::valid_utf8(bytes@) ==> converted is Err && converted->Err_0 == utf8_failure(
            bytes@,
        ),
{
    String::from_utf8(bytes)
}

/// The view of the text in a result: the characters of the string.
pub open spec fn text_result_view(r: Result<String, Error>) -> Result<Seq<char>, Error> {
    match r {
        Ok(text) => Ok(text@),
        Err(e) => Err(e),
    }
}

/// Converts bytes to the string that they encode in UTF-8.
pub fn bytes_to_string(bytes: Vec<u8>) -> (text: Result<String, Error>)
    ensures
        text_result_view(text) == utf8_text(bytes@),
{
    match string_from_utf8(bytes) {
        Ok(text) => Ok(text),
        Err(e) => Err(Error::CannotExpressAsUtf8(e)),
    }
}

/// Whether every byte of `bytes` is a decimal digit.
pub open spec fn all_digits(bytes: Seq<u8>) -> bool {
    forall|i: int| 0 <= i < bytes.len() ==> '0' as u8 <= #[trigger] bytes[i] <= '9' as u8
}

/// Tells whether the number that the decimal digits `digits` write is at
/// most `limit`.
pub fn decimal_is_at_most(digits: &[u8], limit: u32) -> (fits: bool)
    requires
        all_digits(digits@),
        limit <= 0xffff,
    ensures
        fits == (decimal_value(as_text(digits@)) <= limit),
{
    let ghost text = as_text(digits@);
    let mut value: u32 = 0;
    let mut i: usize = 0;
    assert(text.take(0) =~= Seq::<char>::empty());
    while i < digits.len()
        invariant
            i <= digits@.len(),
            all_digits(digits@),
            text == as_text(digits@),
            limit <= 0xffff,
            value == decimal_value(text.take(i as int)),
            value <= limit,
        decreases digits@.len() - i,
    {
        let digit = (digits[i] - '0' as u8) as u32;
        proof {
            assert(text.take(i + 1).drop_last() =~= text.take(i as int));
            assert(text.take(i + 1).last() == digits@[i as int] as char);
            lemma_decimal_value_grows(text, i + 1);
        }
        value = 10 * value + digit;
        if value > limit {
            return false;
        }
        i = i + 1;
    }
    assert(text.take(i as int) =~= text);
    true
}

/// A copy of `bytes`.
pub fn copy_bytes(bytes: &Vec<u8>) -> (copy: Vec<u8>)
    ensures
        copy@ == bytes@,
{
    let copy = bytes.clone();
    assert(copy@ =~= bytes@);
    copy
}

/// The view of bytes that may be absent.
pub open spec fn optional_view(bytes: Option<Vec<u8>>) -> Option<Seq<u8>> {
    match bytes {
        Some(bytes) => Some(bytes@),
        None => None,
    }
}

/// A copy of bytes that may be absent.
pub fn copy_optional_bytes(bytes: &Option<Vec<u8>>) -> (copy: Option<Vec<u8>>)
    ensures
        optional_view(copy) == optional_view(*bytes),
{
    match bytes {
        Some(bytes) => Some(copy_bytes(bytes)),
        None => None,
    }
}

/// The pieces of `text` between the occurrences of `separator`; a text
/// without one is a single piece.
pub open spec fn split_spec(text: Seq<u8>, separator: u8) -> Seq<Seq<u8>>
    decreases text.len(),
{
    let at = index_of(text, separator);
    if 0 <= at < text.len() {
        seq![text.take(at)] + split_spec(text.skip(at + 1), separator)
    } else {
        seq![text]
    }
}

/// The pieces joined, with `separator` between each two.
pub open spec fn join_spec(pieces: Seq<Seq<u8>>, separator: u8) -> Seq<u8>
    decreases pieces.len(),
{
    if pieces.len() == 0 {
        Seq::empty()
    } else if pieces.len() == 1 {
        pieces[0]
    } else {
        pieces[0] + seq![separator] + join_spec(pieces.skip(1), separator)
    }
}

/// The joined text of pieces with one more is that of the pieces, the
/// separator if there was a piece before, and the new piece.
pub proof fn lemma_join_push(pieces: Seq<Seq<u8>>, piece: Seq<u8>, separator: u8)
    ensures
        join_spec(pieces.push(piece), separator) == if pieces.len() == 0 {
            piece
        } else {
            join_spec(pieces, separator) + seq![separator] + piece
        },
    decreases pieces.len(),
{
    let longer = pieces.push(piece);
    if pieces.len() == 0 {
    } else if pieces.len() == 1 {
        assert(longer.skip(1) =~= seq![piece]);
        assert(join_spec(longer.skip(1), separator) == piece);
    } else {
        lemma_join_push(pieces.skip(1), piece, separator);
        assert(longer.skip(1) =~= pieces.skip(1).push(piece));
        assert(join_spec(longer, separator) =~= join_spec(pieces, separator) + seq![separator]
            + piece);
    }
}

/// How splitting goes by the first byte of a text: a separator there
/// gives an empty first piece, and any other byte is the first byte of the
/// first piece.
pub proof fn lemma_split_first(text: Seq<u8>, separator: u8)
    requires
        text.len() > 0,
    ensures
        split_spec(text.skip(1), separator).len() >= 1,
        text[0] == separator ==> split_spec(text, separator) == seq![Seq::<u8>::empty()]
            + split_spec(text.skip(1), separator),
        text[0] != separator ==> split_spec(text, separator) == seq![
            seq![text[0]] + split_spec(text.skip(1), separator)[0],
        ] + split_spec(text.skip(1), separator).skip(1),
{
    let rest = text.skip(1);
    let pieces = split_spec(rest, separator);
    let at = index_of(text, separator);
    lemma_first_index(text, separator, separator);
    lemma_first_index(rest, separator, separator);
    if text[0] == separator {
        assert(text.take(0) =~= Seq::<u8>::empty());
    } else {
        let after = index_of(rest, separator);
        assert(at == after + 1);
        if after < rest.len() {
            assert(text.take(at) =~= seq![text[0]] + rest.take(after));
            assert(text.skip(at + 1) =~= rest.skip(after + 1));
            assert(pieces.skip(1) =~= split_spec(rest.skip(after + 1), separator));
        } else {
            assert(text =~= seq![text[0]] + rest);
            assert(pieces.skip(1) =~= Seq::<Seq<u8>>::empty());
            assert(split_spec(text, separator) =~= seq![seq![text[0]] + pieces[0]] + pieces.skip(1));
        }
    }
}

/// The UTF-8 encoding of the text of ASCII bytes is those bytes.
pub proof fn lemma_ascii_text_bytes(bytes: Seq<u8>)
    requires
        is_ascii_bytes(bytes),
    ensures
        vstd::utf8::encode_utf8(as_text(bytes)) == bytes,
{
    let text = as_text(bytes);
    assert(vstd::utf8::is_ascii_chars(text)) by {
        assert forall|i: int| 0 <= i < text.len() implies '\0' <= #[trigger] text[i]
            <= '\u{7f}' by {
            assert(bytes[i] < 128);
        }
    }
    vstd::utf8::is_ascii_chars_encode_utf8(text);
    assert(vstd::utf8::encode_utf8(text) =~= bytes) by {
        assert forall|i: int| 0 <= i < bytes.len() implies vstd::utf8::encode_utf8(text)[i]
            == bytes[i] by {
            assert(text[i] as u8 == vstd::utf8::encode_utf8(text)[i]);
            assert(bytes[i] < 128);
        }
    }
}

} // verus!
