use vstd::prelude::*;

use crate::context::Context;

verus! {

/// The error of `String::from_utf8`, carried by
/// [`Error::CannotExpressAsUtf8`].  Its contents are not read here.
#[verifier::external_type_specification]
#[verifier::external_body]
pub struct ExFromUtf8Error(std::string::FromUtf8Error);

/// The error of parsing an integer from text, carried by
/// [`Error::IllegalPortNumber`].  Its contents are not read here.
#[verifier::external_type_specification]
#[verifier::external_body]
pub struct ExParseIntError(std::num::ParseIntError);

/// `Clone::clone` of `std::string::FromUtf8Error`, which the derived `Clone`
/// of [`Error`] calls.  Nothing is claimed of the copy.
pub assume_specification[ <std::string::FromUtf8Error as Clone>::clone ](
    e: &std::string::FromUtf8Error,
) -> std::string::FromUtf8Error
;

/// `Clone::clone` of `std::num::ParseIntError`, which the derived `Clone`
/// of [`Error`] calls.  Nothing is claimed of the copy.
pub assume_specification[ <std::num::ParseIntError as Clone>::clone ](
    e: &std::num::ParseIntError,
) -> std::num::ParseIntError
;

/// The kinds of errors that this crate reports.
#[derive(Debug, Clone, PartialEq)]
pub enum Error {
    /// A component of the URI holds a byte sequence that is not UTF-8, and
    /// so cannot be converted to a Rust string.
    CannotExpressAsUtf8(std::string::FromUtf8Error),
    /// The URI begins with an empty scheme, such as `://www.example.com`.
    EmptyScheme,
    /// The URI holds a character that is not permitted in the place where it
    /// stands; for example, a caret (`^`) in a query:
    /// `http://www.example.com?eat_my_^`
    IllegalCharacter(Context),
    /// The URI holds an incorrect percent encoding, such as
    /// `http://www.example.com?foo=%GG`
    IllegalPercentEncoding,
    /// The URI holds an invalid port number, such as
    /// `http://www.example.com:99999` or `http://www.example.com:foo`
    IllegalPortNumber(std::num::ParseIntError),
    /// The URI holds an IPv4 address with a bad part, such as
    /// `http://[::ffff:1.2.3.256]/`
    InvalidDecimalOctet,
    /// The URI holds an IP address with missing parts, such as
    /// `http://[::ffff:1.2.3]/`
    TooFewAddressParts,
    /// The URI holds an IP address with too many parts, such as
    /// `http://[::ffff:1.2.3.4.8]/`
    TooManyAddressParts,
    /// The URI holds an IPv6 address with too many digits in a part, such as
    /// `http://[20001:db8:85a3::1]/`
    TooManyDigits,
    /// The URI holds an IPv6 address with more than one double-colon, such as
    /// `http://[2001:db8:85a3::8a2e::]/`
    TooManyDoubleColons,
    /// The URI holds an IPv6 address that is cut short, such as
    /// `http://[2001:db8:85a3::8a2e:0:]/`
    TruncatedHost,
}

} // verus!
