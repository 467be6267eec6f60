use vstd::prelude::*;
use vstd::slice::slice_subrange;
use vstd::string::StringSliceAdditionalSpecFns;

use crate::character_classes::{
    reg_name_not_pct_encoded, reg_name_not_pct_encoded_set, user_info_not_pct_encoded,
    user_info_not_pct_encoded_set,
};
use crate::codec::{decode_bytes, decode_spec, encode_bytes, encode_spec};
use crate::context::Context;
use crate::error::Error;
use crate::parse_host_port::{parse_host_port_bytes, parse_host_port_spec};
use crate::text::{
    as_text, copy_bytes, copy_optional_bytes, decimal_digits, find_first, index_of, lowercase,
    optional_view, push_decimal, to_lowercase, to_text,
};
use crate::validate_ipv6_address::{validate_ipv6_bytes, validate_ipv6_spec};

verus! {

/// What an [`Authority`] holds.
pub struct AuthorityView {
    /// The userinfo, percent-decoded; `None` where the authority has none,
    /// which is not the same as an empty one.
    pub userinfo: Option<Seq<u8>>,
    /// The host: a registered name, percent-decoded and in lower case, or
    /// the text of an IP literal without its brackets.
    pub host: Seq<u8>,
    /// The port; `None` where none is written.
    pub port: Option<u16>,
}

/// The authority that `text` writes, or the first error in it: the
/// userinfo is what stands before the first `@`, if there is one, and the
/// host and port are what follows.
pub open spec fn parse_authority_spec(text: Seq<u8>) -> Result<AuthorityView, Error> {
    let delimiter = index_of(text, '@' as u8);
    if delimiter < text.len() {
        match decode_spec(text.take(delimiter), user_info_not_pct_encoded_set(), Context::Userinfo) {
            Err(e) => Err(e),
            Ok(userinfo) => match parse_host_port_spec(text.skip(delimiter + 1)) {
                Err(e) => Err(e),
                Ok((host, port)) => Ok(AuthorityView { userinfo: Some(userinfo), host, port }),
            },
        }
    } else {
        match parse_host_port_spec(text) {
            Err(e) => Err(e),
            Ok((host, port)) => Ok(AuthorityView { userinfo: None, host, port }),
        }
    }
}

/// The text of the userinfo with its `@`, or nothing where there is no
/// userinfo.
pub open spec fn userinfo_text(userinfo: Option<Seq<u8>>) -> Seq<u8> {
    match userinfo {
        Some(userinfo) => encode_spec(userinfo, user_info_not_pct_encoded_set()).push('@' as u8),
        None => Seq::empty(),
    }
}

/// The text of the host: a valid IPv6 address in lower case and in
/// brackets, anything else percent-encoded as a registered name.
pub open spec fn host_text(host: Seq<u8>) -> Seq<u8> {
    if validate_ipv6_spec(host) is Ok {
        seq!['[' as u8] + lowercase(host) + seq![']' as u8]
    } else {
        encode_spec(host, reg_name_not_pct_encoded_set())
    }
}

/// The text of the port with its colon, or nothing where there is no
/// port.
pub open spec fn port_text(port: Option<u16>) -> Seq<u8> {
    match port {
        Some(port) => seq![':' as u8] + decimal_digits(port as nat),
        None => Seq::empty(),
    }
}

/// The text that writes an authority.
pub open spec fn authority_text(authority: AuthorityView) -> Seq<u8> {
    userinfo_text(authority.userinfo) + host_text(authority.host) + port_text(authority.port)
}

/// The view of a parsed authority.
pub open spec fn authority_result_view(parsed: Result<Authority, Error>) -> Result<
    AuthorityView,
    Error,
> {
    match parsed {
        Ok(authority) => Ok(authority@),
        Err(e) => Err(e),
    }
}

/// The view of an authority that may be absent.
pub open spec fn optional_authority_view(authority: Option<Authority>) -> Option<AuthorityView> {
    match authority {
        Some(authority) => Some(authority@),
        None => None,
    }
}

/// The optional part of a URI that names who governs the rest of it: a
/// host name or IP address, and if one likes a port number and a
/// userinfo.
#[derive(Debug, PartialEq)]
pub struct Authority {
    userinfo: Option<Vec<u8>>,
    host: Vec<u8>,
    port: Option<u16>,
}

impl View for Authority {
    type V = AuthorityView;

    closed spec fn view(&self) -> AuthorityView {
        AuthorityView {
            userinfo: optional_view(self.userinfo),
            host: self.host@,
            port: self.port,
        }
    }
}

impl Clone for Authority {
    fn clone(&self) -> (copy: Self)
        ensures
            copy@ == self@,
    {
        Authority {
            userinfo: copy_optional_bytes(&self.userinfo),
            host: copy_bytes(&self.host),
            port: self.port,
        }
    }
}

impl Default for Authority {
    fn default() -> (authority: Self)
        ensures
            authority@ == (AuthorityView { userinfo: None, host: Seq::empty(), port: None }),
    {
        Authority { userinfo: None, host: Vec::new(), port: None }
    }
}

impl Authority {
    /// Borrows the host of the authority.
    pub fn host(&self) -> (host: &[u8])
        ensures
            host@ == self@.host,
    {
        self.host.as_slice()
    }

    /// Returns the port of the authority.
    pub fn port(&self) -> (port: Option<u16>)
        ensures
            port == self@.port,
    {
        self.port
    }

    /// Changes the userinfo of the authority.
    pub fn set_userinfo(&mut self, userinfo: Option<Vec<u8>>)
        ensures
            final(self)@ == (AuthorityView { userinfo: optional_view(userinfo), ..old(self)@ }),
    {
        self.userinfo = userinfo;
    }

    /// Changes the host of the authority.
    pub fn set_host(&mut self, host: Vec<u8>)
        ensures
            final(self)@ == (AuthorityView { host: host@, ..old(self)@ }),
    {
        self.host = host;
    }

    /// Changes the port of the authority.
    pub fn set_port(&mut self, port: Option<u16>)
        ensures
            final(self)@ == (AuthorityView { port: port, ..old(self)@ }),
    {
        self.port = port;
    }

    /// Borrows the userinfo of the authority.
    pub fn userinfo(&self) -> (userinfo: Option<&[u8]>)
        ensures
            userinfo is Some == self@.userinfo is Some,
            userinfo matches Some(bytes) ==> bytes@ == self@.userinfo->Some_0,
    {
        match &self.userinfo {
            Some(userinfo) => Some(userinfo.as_slice()),
            None => None,
        }
    }

    /// Parses the bytes of an authority.
    pub fn parse_bytes(authority_string: &[u8]) -> (parsed: Result<Self, Error>)
        ensures
            authority_result_view(parsed) == parse_authority_spec(authority_string@),
    {
        let (userinfo, host_port_start) = match Self::parse_userinfo(authority_string) {
            Ok(found) => found,
            Err(e) => {
                return Err(e);
            },
        };
        let host_port_string = slice_subrange(
            authority_string,
            host_port_start,
            authority_string.len(),
        );
        assert(host_port_string@ =~= authority_string@.skip(host_port_start as int));
        assert(authority_string@.skip(0) =~= authority_string@);
        match parse_host_port_bytes(host_port_string) {
            Ok((host, port)) => Ok(Self { userinfo, host, port }),
            Err(e) => Err(e),
        }
    }

    /// Parses the authority of a URI: the userinfo, if there is one, the
    /// host and, if there is one, the port.
    pub fn parse(authority_string: &str) -> (parsed: Result<Self, Error>)
        ensures
            authority_result_view(parsed) == parse_authority_spec(authority_string.spec_bytes()),
    {
        Self::parse_bytes(authority_string.as_bytes())
    }

    /// Splits the userinfo from the front of `authority` and decodes it;
    /// returns it with the place where the host begins.
    fn parse_userinfo(authority: &[u8]) -> (found: Result<(Option<Vec<u8>>, usize), Error>)
        ensures
            index_of(authority@, '@' as u8) < authority@.len() ==> {
                let delimiter = index_of(authority@, '@' as u8);
                match decode_spec(
                    authority@.take(delimiter),
                    user_info_not_pct_encoded_set(),
                    Context::Userinfo,
                ) {
                    Ok(userinfo) => found matches Ok((Some(bytes), start)) && bytes@ == userinfo
                        && start == delimiter + 1,
                    Err(e) => found matches Err(error) && error == e,
                }
            },
            index_of(authority@, '@' as u8) >= authority@.len() ==> found matches Ok((None, 0)),
    {
        let delimiter = find_first(authority, '@' as u8, '@' as u8);
        if delimiter < authority.len() {
            let userinfo_string = slice_subrange(authority, 0, delimiter);
            assert(userinfo_string@ =~= authority@.take(delimiter as int));
            let set = user_info_not_pct_encoded();
            match decode_bytes(userinfo_string, &set, Context::Userinfo) {
                Ok(userinfo) => Ok((Some(userinfo), delimiter + 1)),
                Err(e) => Err(e),
            }
        } else {
            Ok((None, 0))
        }
    }

    /// Appends the text of the authority to `out`.
    pub fn write_to(&self, out: &mut Vec<u8>)
        ensures
            final(out)@ == old(out)@ + authority_text(self@),
    {
        let ghost before = out@;
        if let Some(userinfo) = &self.userinfo {
            let set = user_info_not_pct_encoded();
            encode_bytes(out, userinfo.as_slice(), &set);
            out.push('@' as u8);
        }
        assert(out@ =~= before + userinfo_text(self@.userinfo));
        if validate_ipv6_bytes(self.host.as_slice()).is_ok() {
            out.push('[' as u8);
            let mut lower = to_lowercase(self.host.as_slice());
            out.append(&mut lower);
            out.push(']' as u8);
        } else {
            let set = reg_name_not_pct_encoded();
            encode_bytes(out, self.host.as_slice(), &set);
        }
        assert(out@ =~= before + userinfo_text(self@.userinfo) + host_text(self@.host));
        if let Some(port) = self.port {
            out.push(':' as u8);
            push_decimal(out, port);
        }
        assert(out@ =~= before + authority_text(self@));
    }

    /// The text that writes the authority: the userinfo, percent-encoded
    /// and followed by `@`, if there is one; the host; and the port behind
    /// a colon, if there is one.
    pub fn to_string(&self) -> (text: String)
        ensures
            text@ == as_text(authority_text(self@)),
    {
        let mut bytes: Vec<u8> = Vec::new();
        self.write_to(&mut bytes);
        assert(bytes@ =~= authority_text(self@));
        to_text(bytes.as_slice())
    }
}

} // verus!
