use vstd::prelude::*;

verus! {

/// The places in a URI where a parsing error may occur.
#[derive(Debug, Clone, Copy, PartialEq, Eq, Structural)]
pub enum Context {
    /// The fragment of the URI, such as `#baz` in
    /// `http://www.example.com/foo?bar#baz`.
    Fragment,
    /// The host name of the URI, such as `www.example.com` in
    /// `http://www.example.com/foo?bar#baz`.
    Host,
    /// The IPv4 portion of an IPv6 host name, such as `1.2.3.4` in
    /// `http://[::ffff:1.2.3.4]/foo?bar#baz`.
    Ipv4Address,
    /// The IPv6 host name in the URI, such as `::ffff:1.2.3.4` in
    /// `http://[::ffff:1.2.3.4]/foo?bar#baz`.
    Ipv6Address,
    /// The `IPvFuture` host name in the URI, such as `v7.aB` in
    /// `http://[v7.aB]/foo?bar#baz`.
    IpvFuture,
    /// The path of the URI, such as `/foo` in
    /// `http://www.example.com/foo?bar#baz`.
    Path,
    /// The query of the URI, such as `?bar` in
    /// `http://www.example.com/foo?bar#baz`.
    Query,
    /// The scheme of the URI, such as `http` in
    /// `http://www.example.com/foo?bar#baz`.
    Scheme,
    /// The userinfo of the URI, such as `nobody` in
    /// `http://nobody@www.example.com/foo?bar#baz`.
    Userinfo,
}

impl Context {
    /// The words by which this context is named in messages.
    pub open spec fn name(self) -> Seq<char> {
        match self {
            Context::Fragment => "fragment"@,
            Context::Host => "host"@,
            Context::Ipv4Address => "IPv4 address"@,
            Context::Ipv6Address => "IPv6 address"@,
            Context::IpvFuture => "IPvFuture"@,
            Context::Path => "path"@,
            Context::Query => "query"@,
            Context::Scheme => "scheme"@,
            Context::Userinfo => "user info"@,
        }
    }

    /// Returns the name of this context as it appears in messages.
    pub fn to_string(&self) -> (text: String)
        ensures
            text@ == self.name(),
    {
        match self {
            Context::Fragment => "fragment".to_owned(),
            Context::Host => "host".to_owned(),
            Context::Ipv4Address => "IPv4 address".to_owned(),
            Context::Ipv6Address => "IPv6 address".to_owned(),
            Context::IpvFuture => "IPvFuture".to_owned(),
            Context::Path => "path".to_owned(),
            Context::Query => "query".to_owned(),
            Context::Scheme => "scheme".to_owned(),
            Context::Userinfo => "user info".to_owned(),
        }
    }
}

} // verus!
