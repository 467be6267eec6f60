use vstd::prelude::*;

use crate::error::Error;
use crate::text::{hex_digit, hex_digit_value};

verus! {

/// Reads the two hexadecimal digits that follow a percent sign, one
/// character at a time, and gives the byte that they encode.  After an
/// error it is ready for the next pair, so one decoder serves a whole
/// scan.
pub struct PercentEncodedCharacterDecoder {
    decoded_character: u8,
    digits_left: usize,
}

impl PercentEncodedCharacterDecoder {
    #[verifier::type_invariant]
    spec fn well_formed(self) -> bool {
        ||| self.digits_left == 2 && self.decoded_character == 0
        ||| self.digits_left == 1 && self.decoded_character < 16
    }

    /// The value of the first digit, where the decoder has read one and
    /// waits for the second.
    pub closed spec fn pending(self) -> Option<u8> {
        if self.digits_left == 1 {
            Some(self.decoded_character)
        } else {
            None
        }
    }

    /// A decoder that waits for the first digit.
    pub fn new() -> (decoder: Self)
        ensures
            decoder.pending() is None,
    {
        Self { decoded_character: 0, digits_left: 2 }
    }

    /// Takes the next character.  A character that is no hexadecimal digit
    /// is an error; a first digit is kept; a second digit completes the
    /// byte, which is returned.
    pub fn next(&mut self, c: char) -> (output: Result<Option<u8>, Error>)
        ensures
            match (hex_digit_value(c), old(self).pending()) {
                (None, _) => {
                    &&& output matches Err(Error::IllegalPercentEncoding)
                    &&& final(self).pending() is None
                },
                (Some(digit), None) => {
                    &&& output matches Ok(None)
                    &&& final(self).pending() == Some(digit)
                },
                (Some(digit), Some(first)) => {
                    &&& output matches Ok(Some(byte))
                    &&& byte == 16 * first + digit
                    &&& final(self).pending() is None
                },
            },
    {
        proof {
            use_type_invariant(&*self);
        }
        match self.shift_in_hex_digit(c) {
            Err(e) => Err(e),
            Ok(shifted) => {
                if self.digits_left == 2 {
                    *self = Self { decoded_character: shifted, digits_left: 1 };
                    Ok(None)
                } else {
                    self.reset();
                    Ok(Some(shifted))
                }
            },
        }
    }

    fn reset(&mut self)
        ensures
            final(self).pending() is None,
    {
        *self = Self { decoded_character: 0, digits_left: 2 };
    }

    /// The byte read so far with the digit `c` put behind it; where `c` is
    /// no digit, the decoder starts over.
    fn shift_in_hex_digit(&mut self, c: char) -> (shifted: Result<u8, Error>)
        ensures
            match hex_digit_value(c) {
                None => {
                    &&& shifted matches Err(Error::IllegalPercentEncoding)
                    &&& final(self).pending() is None
                },
                Some(digit) => {
                    &&& *final(self) == *old(self)
                    &&& shifted matches Ok(byte)
                    &&& old(self).pending() is None ==> byte == digit
                    &&& old(self).pending() matches Some(first) ==> byte == 16 * first + digit
                },
            },
    {
        proof {
            use_type_invariant(&*self);
        }
        match hex_digit(c) {
            Some(digit) => Ok(self.decoded_character * 16 + digit),
            None => {
                self.reset();
                Err(Error::IllegalPercentEncoding)
            },
        }
    }
}

} // verus!
