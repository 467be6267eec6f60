//! A parser and generator for Uniform Resource Identifiers that follows the
//! generic syntax of [IETF RFC 3986](https://tools.ietf.org/html/rfc3986).
//!
//! The [`Uri`] type splits a URI string into scheme, authority, path, query
//! and fragment, decoding percent-encoded bytes on the way in and encoding
//! them again on the way out.  It also normalizes paths and resolves
//! relative references.
//!
//! ```text
//! let uri = Uri::parse("http://www.example.com/foo?bar#baz")?;
//! assert_eq!(Some(&b"www.example.com"[..]), uri.host());
//! assert_eq!("/foo", uri.path_to_string()?);
//! assert_eq!("http://www.example.com/foo?bar#baz", uri.to_string());
//! ```
//!
//! The crate is verified with Verus.  Each function has a contract that
//! says which value it returns for each input, over a mathematical model:
//! the text of a URI is a sequence of bytes, a component a sequence of
//! bytes that may be absent, and each parser a function from text to a
//! result.  The modules [`laws`] and [`round_trip`] hold what is proved of
//! these functions together.
//!
//! Three functions of the standard library are taken on trust, each with a
//! contract that says what its documentation says: `String::push` and
//! `String::from_utf8` in [`text`], and the parsing of a `u16` in
//! [`parse_host_port`].  The errors of the last two are carried in
//! [`Error`] as they are, and nothing is said of what is in them.

pub mod authority;
pub mod character_classes;
pub mod codec;
pub mod context;
pub mod error;
pub mod laws;
pub mod parse_host_port;
pub mod percent_encoded_character_decoder;
pub mod round_trip;
pub mod text;
pub mod uri;
pub mod validate_ipv4_address;
pub mod validate_ipv6_address;

pub use crate::authority::Authority;
pub use crate::context::Context;
pub use crate::error::Error;
pub use crate::uri::Uri;
