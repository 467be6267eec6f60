//! Percent-encoding: the passage between the bytes of a component and the
//! text that stands for them in a URI.

use vstd::prelude::*;
use vstd::string::StringSliceAdditionalSpecFns;

use crate::character_classes::CharacterSet;
use crate::context::Context;
use crate::error::Error;
use crate::percent_encoded_character_decoder::PercentEncodedCharacterDecoder;
use crate::text::{
    as_text, hex_digit_value, is_ascii_bytes, push_text, to_upper_hex_digit, upper_hex_digit,
};

verus! {

/// The view of the bytes in a result.
pub open spec fn bytes_result_view(r: Result<Vec<u8>, Error>) -> Result<Seq<u8>, Error> {
    match r {
        Ok(bytes) => Ok(bytes@),
        Err(e) => Err(e),
    }
}

/// `front` put before the bytes of `rest`, where there are any.
pub open spec fn put_before(front: Seq<u8>, rest: Result<Seq<u8>, Error>) -> Result<
    Seq<u8>,
    Error,
> {
    match rest {
        Ok(bytes) => Ok(front + bytes),
        Err(e) => Err(e),
    }
}

/// Putting nothing before a result leaves it as it is, and putting two
/// pieces before it one after the other puts their concatenation there.
pub proof fn lemma_put_before(a: Seq<u8>, b: Seq<u8>, rest: Result<Seq<u8>, Error>)
    ensures
        put_before(Seq::empty(), rest) == rest,
        put_before(a, put_before(b, rest)) == put_before(a + b, rest),
{
    match rest {
        Ok(bytes) => {
            assert(Seq::<u8>::empty() + bytes =~= bytes);
            assert(a + (b + bytes) =~= (a + b) + bytes);
        },
        Err(_) => {},
    }
}

/// The bytes for which `text` stands.  A character of `allowed` stands for
/// itself; a percent sign and two hexadecimal digits stand for the byte
/// that the digits write.  The first character that is neither gives
/// `IllegalCharacter`, and the first percent sign that two hexadecimal
/// digits do not follow gives `IllegalPercentEncoding`, whichever comes
/// first in the text.
pub open spec fn decode_spec(text: Seq<u8>, allowed: Set<u8>, context: Context) -> Result<
    Seq<u8>,
    Error,
>
    decreases text.len(),
{
    if text.len() == 0 {
        Ok(Seq::empty())
    } else if text[0] == '%' as u8 {
        if text.len() >= 3 && hex_digit_value(text[1] as char) is Some && hex_digit_value(
            text[2] as char,
        ) is Some {
            put_before(
                seq![
                    (16 * hex_digit_value(text[1] as char)->Some_0 + hex_digit_value(
                        text[2] as char,
                    )->Some_0) as u8,
                ],
                decode_spec(text.skip(3), allowed, context),
            )
        } else {
            Err(Error::IllegalPercentEncoding)
        }
    } else if allowed.contains(text[0]) {
        put_before(seq![text[0]], decode_spec(text.skip(1), allowed, context))
    } else {
        Err(Error::IllegalCharacter(context))
    }
}

/// The text that stands for one byte: the byte itself where it is in
/// `allowed`, else a percent sign and its two upper-case hexadecimal
/// digits.
pub open spec fn encode_byte(b: u8, allowed: Set<u8>) -> Seq<u8> {
    if allowed.contains(b) {
        seq![b]
    } else {
        seq!['%' as u8, upper_hex_digit(b / 16), upper_hex_digit(b % 16)]
    }
}

/// The text that stands for `bytes`, byte by byte.
pub open spec fn encode_spec(bytes: Seq<u8>, allowed: Set<u8>) -> Seq<u8>
    decreases bytes.len(),
{
    if bytes.len() == 0 {
        Seq::empty()
    } else {
        encode_byte(bytes[0], allowed) + encode_spec(bytes.skip(1), allowed)
    }
}

/// The text of a sequence with one more byte is the text of the sequence
/// followed by the text of that byte.
pub proof fn lemma_encode_push(bytes: Seq<u8>, b: u8, allowed: Set<u8>)
    ensures
        encode_spec(bytes.push(b), allowed) == encode_spec(bytes, allowed) + encode_byte(
            b,
            allowed,
        ),
    decreases bytes.len(),
{
    let longer = bytes.push(b);
    assert(encode_spec(Seq::<u8>::empty(), allowed) =~= Seq::<u8>::empty());
    if bytes.len() == 0 {
        assert(bytes =~= Seq::<u8>::empty());
        assert(longer.skip(1) =~= Seq::<u8>::empty());
        assert(encode_spec(longer, allowed) =~= encode_byte(b, allowed));
        assert(encode_spec(bytes, allowed) + encode_byte(b, allowed) =~= encode_byte(b, allowed));
    } else {
        lemma_encode_push(bytes.skip(1), b, allowed);
        assert(longer.skip(1) =~= bytes.skip(1).push(b));
        assert(encode_spec(longer, allowed) =~= encode_spec(bytes, allowed) + encode_byte(
            b,
            allowed,
        ));
    }
}

/// Where every allowed character is ASCII, the encoded text is ASCII.
pub proof fn lemma_encode_is_ascii(bytes: Seq<u8>, allowed: Set<u8>)
    requires
        forall|b: u8| allowed.contains(b) ==> b < 128,
    ensures
        is_ascii_bytes(encode_spec(bytes, allowed)),
    decreases bytes.len(),
{
    if bytes.len() > 0 {
        lemma_encode_is_ascii(bytes.skip(1), allowed);
        let head = encode_byte(bytes[0], allowed);
        let tail = encode_spec(bytes.skip(1), allowed);
        assert forall|i: int| 0 <= i < (head + tail).len() implies #[trigger] (head + tail)[i]
            < 128 by {
            if i >= head.len() {
                assert((head + tail)[i] == tail[i - head.len()]);
            }
        }
    }
}

/// Decoding what was encoded gives the bytes back, whatever the set of
/// allowed characters.  The one exception, which the condition leaves
/// out: a set that allows the percent sign writes it as it is, and the
/// decoder then reads it as the start of an escape.
pub proof fn lemma_decode_encode(bytes: Seq<u8>, allowed: Set<u8>, context: Context)
    requires
        !(allowed.contains('%' as u8) && bytes.contains('%' as u8)),
    ensures
        decode_spec(encode_spec(bytes, allowed), allowed, context) == Ok::<Seq<u8>, Error>(bytes),
    decreases bytes.len(),
{
    if bytes.len() > 0 {
        let b = bytes[0];
        let rest = bytes.skip(1);
        assert forall|x: u8| rest.contains(x) implies bytes.contains(x) by {
            let i = choose|i: int| 0 <= i < rest.len() && rest[i] == x;
            assert(bytes[i + 1] == x);
        }
        lemma_decode_encode(rest, allowed, context);
        let head = encode_byte(b, allowed);
        let tail = encode_spec(rest, allowed);
        let text = head + tail;
        assert(bytes =~= seq![b] + rest);
        if allowed.contains(b) {
            assert(bytes.contains(b));
            assert(text.skip(1) =~= tail);
        } else {
            assert(text.skip(3) =~= tail);
            assert(hex_digit_value(upper_hex_digit(b / 16) as char) == Some((b / 16) as u8));
            assert(hex_digit_value(upper_hex_digit(b % 16) as char) == Some((b % 16) as u8));
        }
    } else {
        assert(bytes =~= Seq::<u8>::empty());
    }
}

/// Decodes the percent-encoded text `text`.
pub fn decode_bytes(text: &[u8], allowed_characters: &CharacterSet, context: Context) -> (decoded:
    Result<Vec<u8>, Error>)
    ensures
        bytes_result_view(decoded) == decode_spec(text@, allowed_characters@, context),
{
    let mut output: Vec<u8> = Vec::new();
    let mut pec_decoder = PercentEncodedCharacterDecoder::new();
    let mut decoding_pec = false;
    let mut i: usize = 0;
    let ghost mut start: int = 0;
    proof {
        assert(text@.skip(0) =~= text@);
        lemma_put_before(output@, output@, decode_spec(text@, allowed_characters@, context));
    }
    while i < text.len()
        invariant
            0 <= start <= i <= text@.len(),
            decode_spec(text@, allowed_characters@, context) == put_before(
                output@,
                decode_spec(text@.skip(start), allowed_characters@, context),
            ),
            !decoding_pec ==> start == i && pec_decoder.pending() is None,
            decoding_pec ==> text@[start] == '%' as u8 && i <= start + 2,
            decoding_pec && pec_decoder.pending() is None ==> start == i - 1,
            decoding_pec && pec_decoder.pending() is Some ==> start == i - 2 && hex_digit_value(
                text@[start + 1] as char,
            ) == pec_decoder.pending(),
        decreases text@.len() - i,
    {
        let c = text[i];
        let ghost unit = text@.skip(start);
        let ghost before = output@;
        proof {
            lemma_put_before(
                before,
                seq![c],
                decode_spec(text@.skip(i + 1), allowed_characters@, context),
            );
        }
        if decoding_pec {
            assert(unit[0] == text@[start]);
            assert(unit.len() >= 2 && unit[1] == text@[start + 1]);
            match pec_decoder.next(c as char) {
                Err(e) => {
                    assert(i >= start + 2 ==> unit[2] == text@[i as int]);
                    return Err(e);
                },
                Ok(Some(byte)) => {
                    assert(unit[2] == text@[i as int]);
                    assert(unit.skip(3) =~= text@.skip(i + 1));
                    proof {
                        lemma_put_before(
                            before,
                            seq![byte],
                            decode_spec(text@.skip(i + 1), allowed_characters@, context),
                        );
                    }
                    output.push(byte);
                    decoding_pec = false;
                    proof {
                        start = i + 1;
                    }
                    assert(output@ =~= before + seq![byte]);
                },
                Ok(None) => {},
            }
        } else if c == '%' as u8 {
            decoding_pec = true;
        } else if allowed_characters.contains(c) {
            assert(unit[0] == c);
            assert(unit.skip(1) =~= text@.skip(i + 1));
            output.push(c);
            proof {
                start = i + 1;
            }
            assert(output@ =~= before + seq![c]);
        } else {
            assert(unit[0] == c);
            return Err(Error::IllegalCharacter(context));
        }
        i = i + 1;
    }
    if decoding_pec {
        assert(text@.skip(start).len() < 3);
        assert(text@.skip(start)[0] == text@[start]);
        Err(Error::IllegalPercentEncoding)
    } else {
        assert(output@ + Seq::<u8>::empty() =~= output@);
        assert(text@.skip(start).len() == 0);
        Ok(output)
    }
}

/// Decodes the percent-encoded text `element`, in which the characters of
/// `allowed_characters` stand for themselves.
pub fn decode_element(element: &str, allowed_characters: &CharacterSet, context: Context) -> (decoded:
    Result<Vec<u8>, Error>)
    ensures
        bytes_result_view(decoded) == decode_spec(
            element.spec_bytes(),
            allowed_characters@,
            context,
        ),
{
    decode_bytes(element.as_bytes(), allowed_characters, context)
}

/// Appends to `out` the text that stands for `element`.
pub fn encode_bytes(out: &mut Vec<u8>, element: &[u8], allowed_characters: &CharacterSet)
    ensures
        final(out)@ == old(out)@ + encode_spec(element@, allowed_characters@),
{
    let mut i: usize = 0;
    while i < element.len()
        invariant
            i <= element@.len(),
            out@ == old(out)@ + encode_spec(element@.take(i as int), allowed_characters@),
        decreases element@.len() - i,
    {
        let b = element[i];
        let ghost before = out@;
        proof {
            lemma_encode_push(element@.take(i as int), b, allowed_characters@);
            assert(element@.take(i + 1) =~= element@.take(i as int).push(b));
        }
        if allowed_characters.contains(b) {
            out.push(b);
            assert(out@ =~= before + encode_byte(b, allowed_characters@));
        } else {
            out.push('%' as u8);
            out.push(to_upper_hex_digit(b / 16));
            out.push(to_upper_hex_digit(b % 16));
            assert(out@ =~= before + encode_byte(b, allowed_characters@));
        }
        assert(out@ =~= old(out)@ + encode_spec(element@.take(i + 1), allowed_characters@));
        i = i + 1;
    }
    assert(element@.take(i as int) =~= element@);
}

/// The text that stands for `element`: the characters of
/// `allowed_characters` as they are, every other byte as a percent sign
/// and two upper-case hexadecimal digits.
pub fn encode_element(element: &[u8], allowed_characters: &CharacterSet) -> (encoding: String)
    ensures
        encoding@ == as_text(encode_spec(element@, allowed_characters@)),
{
    let mut bytes: Vec<u8> = Vec::with_capacity(element.len());
    encode_bytes(&mut bytes, element, allowed_characters);
    let mut encoding = String::new();
    push_text(&mut encoding, bytes.as_slice());
    assert(bytes@ =~= encode_spec(element@, allowed_characters@));
    assert(encoding@ =~= as_text(bytes@));
    encoding
}

} // verus!
