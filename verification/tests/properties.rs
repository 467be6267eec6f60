use std::convert::TryFrom;

use rhymuri::{Authority, Context, Error, Uri};

#[test]
fn canonical_strings_are_written_as_they_were_parsed() {
    let test_vectors = [
        "http://www.example.com/",
        "http://bob@www.example.com:8080/abc/def?foobar#ch2",
        "http://b%20b@www.e%20ample.com:8080/a%20c/def?foo%20ar#c%202",
        "//example.com/",
        "//[::1]/",
        "//[ffff::1.2.3.4]:80/x",
        "//@h/",
        "//h/?",
        "//h/#",
        "/",
        "/xyz/",
        "xyz",
        "a//b",
        "",
        "?",
        "#",
        "?a?b#c",
        "urn:book:fantasy:Hobbit",
        "x+-.0:",
        "http:?bar",
        "/%00/%FF/%25",
        "/:@!$&'()*+,;=-._~",
        "?/?:@!$&'()*,;=-._~%2B",
        "#/?:@!$&'()*+,;=-._~",
    ];
    for test_vector in &test_vectors {
        let uri = Uri::parse(test_vector).unwrap();
        assert_eq!(*test_vector, uri.to_string(), "{}", test_vector);
        assert_eq!(Ok(uri), Uri::parse(&Uri::parse(test_vector).unwrap().to_string()));
    }
}

#[test]
fn strings_that_are_not_canonical_are_rewritten() {
    let test_vectors = [
        ("HTTP://WWW.EXAMPLE.COM/", "http://www.example.com/"),
        ("http://example.com", "http://example.com/"),
        ("/%7bfoo%7d", "/%7Bfoo%7D"),
        ("/%41", "/A"),
        ("//h:00080/", "//h:80/"),
        ("//h:/", "//h/"),
        ("//[v7.aB]/", "//v7.aB/"),
        ("//[::FFFF]/", "//[::ffff]/"),
        ("?a+b", "?a%2Bb"),
    ];
    for (given, written) in &test_vectors {
        assert_eq!(*written, Uri::parse(given).unwrap().to_string());
    }
}

#[test]
fn normalizing_twice_changes_nothing_more() {
    let test_vectors = [
        "/a/b/c/./../../g",
        "mid/content=5/../6",
        "..",
        "../..",
        "/..",
        "/./c/d",
        "a//b//..//c/",
        "http://example.com//a/..//",
        "./",
        "a/./",
        "a/../",
        "/a/../..",
        "",
        "/",
        "//h",
        ".../....",
        "a/.../b/..",
    ];
    for test_vector in &test_vectors {
        let mut once = Uri::parse(test_vector).unwrap();
        once.normalize();
        let mut twice = once.clone();
        twice.normalize();
        assert_eq!(once, twice, "{}", test_vector);
    }
}

#[test]
fn normalization_scenarios() {
    let test_vectors = [
        ("/a/b/c/./../../g", "/a/g"),
        ("mid/content=5/../6", "mid/6"),
        ("..", ""),
        ("/./c/d", "/c/d"),
        ("a//b", "a//b"),
        ("a/./", "a/"),
        ("/..", "/"),
        ("/../..", "/"),
        ("a/b/../../..", ""),
    ];
    for (given, normalized) in &test_vectors {
        let mut uri = Uri::parse(given).unwrap();
        uri.normalize();
        assert_eq!(*normalized, uri.path_to_string().unwrap(), "{}", given);
    }
}

#[test]
fn parsing_folds_the_case_of_scheme_and_registered_name() {
    let uri = Uri::parse("HTTP://WWW.EXAMPLE.COM/").unwrap();
    assert_eq!(Some("http"), uri.scheme());
    assert_eq!(Some(&b"www.example.com"[..]), uri.host());
    let uri = Uri::parse("hTtP+X-y.Z://bOb@Ex%41mple.%4A.COM/PaTh?QuErY#FrAg").unwrap();
    assert_eq!(Some("http+x-y.z"), uri.scheme());
    assert_eq!(Some(&b"example.j.com"[..]), uri.host());
    assert_eq!(Some(&b"bOb"[..]), uri.userinfo());
    assert_eq!("/PaTh", uri.path_to_string().unwrap());
    assert_eq!(Some(&b"QuErY"[..]), uri.query());
    assert_eq!(Some(&b"FrAg"[..]), uri.fragment());
    // an IP literal is kept as it was written
    let uri = Uri::parse("//[::FFFF:1.2.3.4]/").unwrap();
    assert_eq!(Some(&b"::FFFF:1.2.3.4"[..]), uri.host());
}

#[test]
fn userinfo_absent_is_not_userinfo_empty() {
    assert_eq!(None, Uri::parse("//www.example.com").unwrap().userinfo());
    assert_eq!(
        Some(&b""[..]),
        Uri::parse("//@www.example.com").unwrap().userinfo()
    );
    assert_eq!(
        Ok(None),
        Uri::parse("//www.example.com").unwrap().userinfo_to_string()
    );
    assert_eq!(
        Ok(Some(String::new())),
        Uri::parse("//@www.example.com").unwrap().userinfo_to_string()
    );
    assert_eq!(Ok(None), Uri::parse("/x").unwrap().userinfo_to_string());
}

#[test]
fn path_convention() {
    let empty: Vec<Vec<u8>> = vec![];
    assert_eq!(&vec![b"".to_vec(), b"foo".to_vec()], Uri::parse("/foo").unwrap().path());
    assert_eq!(&vec![b"foo".to_vec(), b"".to_vec()], Uri::parse("foo/").unwrap().path());
    assert_eq!(&empty, Uri::parse("").unwrap().path());
    assert_eq!(&vec![b"".to_vec()], Uri::parse("/").unwrap().path());
    assert_eq!(
        &vec![b"".to_vec(), b"".to_vec(), b"".to_vec()],
        Uri::parse("http://h//").unwrap().path()
    );
    assert_eq!(&vec![b"".to_vec()], Uri::parse("//h").unwrap().path());
}

#[test]
fn resolution_scenarios() {
    let base = Uri::parse("http://a/b/c/d;p?q").unwrap();
    let test_vectors = [
        ("g", "http://a/b/c/g"),
        ("./g", "http://a/b/c/g"),
        ("..", "http://a/b/"),
        ("?y", "http://a/b/c/d;p?y"),
        ("//g", "http://g"),
        ("g;x?y#s", "http://a/b/c/g;x?y#s"),
        ("g:h", "g:h"),
        ("/g/../h", "http://a/g/../h"),
        ("#s", "http://a/b/c/d;p?q#s"),
        ("", "http://a/b/c/d;p?q"),
        ("//x/y/../z?w", "http://x/z?w"),
        ("s://x/y/../z", "s://x/z"),
    ];
    for (relative, target) in &test_vectors {
        let relative = Uri::parse(relative).unwrap();
        let target = Uri::parse(target).unwrap();
        assert_eq!(target, base.resolve(&relative));
    }
    assert_eq!(
        "http://g/",
        base.resolve(&Uri::parse("//g").unwrap()).to_string()
    );
    assert_eq!(
        "http://a/b/",
        base.resolve(&Uri::parse("..").unwrap()).to_string()
    );
    let base = Uri::parse("a").unwrap();
    assert_eq!("a/b", base.resolve(&Uri::parse("b").unwrap()).to_string());
    let base = Uri::parse("").unwrap();
    assert_eq!("b", base.resolve(&Uri::parse("b").unwrap()).to_string());
}

#[test]
fn error_scenarios() {
    assert!(matches!(
        Uri::parse("http://www.example.com:65536/"),
        Err(Error::IllegalPortNumber(_))
    ));
    assert_eq!(
        Err(Error::InvalidDecimalOctet),
        Uri::parse("http://[::ffff:1.2.3.256]/")
    );
    assert_eq!(Err(Error::EmptyScheme), Uri::parse("://x/"));
    assert_eq!(
        Err(Error::IllegalCharacter(Context::Scheme)),
        Uri::parse("1x://x/")
    );
    assert_eq!(
        Err(Error::IllegalCharacter(Context::Scheme)),
        Uri::parse("x_y:z")
    );
    assert_eq!(
        Err(Error::IllegalCharacter(Context::Userinfo)),
        Uri::parse("//a b@h/")
    );
    assert_eq!(
        Err(Error::IllegalCharacter(Context::Host)),
        Uri::parse("//a b/")
    );
    assert_eq!(
        Err(Error::IllegalCharacter(Context::Path)),
        Uri::parse("/a b")
    );
    assert_eq!(
        Err(Error::IllegalCharacter(Context::Query)),
        Uri::parse("?a b")
    );
    assert_eq!(
        Err(Error::IllegalCharacter(Context::Fragment)),
        Uri::parse("#a b")
    );
    assert_eq!(
        Err(Error::IllegalCharacter(Context::Fragment)),
        Uri::parse("#a#b")
    );
    assert_eq!(
        Err(Error::IllegalCharacter(Context::Ipv6Address)),
        Uri::parse("//[::g]/")
    );
    assert_eq!(
        Err(Error::IllegalCharacter(Context::Ipv4Address)),
        Uri::parse("//[::1.2.3.x]/")
    );
    assert_eq!(
        Err(Error::IllegalCharacter(Context::IpvFuture)),
        Uri::parse("//[vg.x]/")
    );
    assert_eq!(Err(Error::IllegalPercentEncoding), Uri::parse("/%zz"));
    assert_eq!(Err(Error::IllegalPercentEncoding), Uri::parse("/a%4"));
    assert_eq!(Err(Error::TooFewAddressParts), Uri::parse("//[1:2]/"));
    assert_eq!(
        Err(Error::TooManyAddressParts),
        Uri::parse("//[1:2:3:4:5:6:7:8:9]/")
    );
    assert_eq!(Err(Error::TooManyDigits), Uri::parse("//[12345::]/"));
    assert_eq!(Err(Error::TooManyDoubleColons), Uri::parse("//[1::2::3]/"));
    assert_eq!(Err(Error::TruncatedHost), Uri::parse("//[::1"));
    assert_eq!(Err(Error::TruncatedHost), Uri::parse("//h%4/"));
}

#[test]
fn errors_are_looked_for_in_the_order_of_the_parts() {
    assert_eq!(Err(Error::EmptyScheme), Uri::parse("://a b/c d?e f#g h"));
    assert_eq!(
        Err(Error::IllegalCharacter(Context::Host)),
        Uri::parse("s://a b/c d?e f#g h")
    );
    assert_eq!(
        Err(Error::IllegalCharacter(Context::Path)),
        Uri::parse("s://a/c d?e f#g h")
    );
    assert_eq!(
        Err(Error::IllegalCharacter(Context::Fragment)),
        Uri::parse("s://a/c?e f#g h")
    );
    assert_eq!(
        Err(Error::IllegalCharacter(Context::Query)),
        Uri::parse("s://a/c?e f#g")
    );
}

#[test]
fn components_that_are_not_utf8_cannot_be_strings() {
    let uri = Uri::parse("//%FF@%FE/%FD?%FC#%FB").unwrap();
    assert_eq!(Some(&b"\xff"[..]), uri.userinfo());
    assert!(matches!(
        uri.userinfo_to_string(),
        Err(Error::CannotExpressAsUtf8(_))
    ));
    assert!(matches!(
        uri.host_to_string(),
        Err(Error::CannotExpressAsUtf8(_))
    ));
    assert!(matches!(
        uri.path_to_string(),
        Err(Error::CannotExpressAsUtf8(_))
    ));
    assert!(matches!(
        uri.query_to_string(),
        Err(Error::CannotExpressAsUtf8(_))
    ));
    assert!(matches!(
        uri.fragment_to_string(),
        Err(Error::CannotExpressAsUtf8(_))
    ));
    assert_eq!("//%FF@%FE/%FD?%FC#%FB", uri.to_string());
    let uri = Uri::parse("/%E1%88%B4").unwrap();
    assert_eq!(Ok(String::from("/\u{1234}")), uri.path_to_string());
}

#[test]
fn setters_and_accessors() {
    let mut uri = Uri::default();
    assert!(uri.is_relative_reference());
    assert!(uri.contains_relative_path());
    assert_eq!(None, uri.authority());
    assert_eq!(None, uri.port());
    assert_eq!(Ok(()), uri.set_scheme(Some(String::from("HTTP"))));
    assert_eq!(Some("http"), uri.scheme());
    assert_eq!(Err(Error::EmptyScheme), uri.set_scheme(Some(String::new())));
    assert_eq!(
        Err(Error::IllegalCharacter(Context::Scheme)),
        uri.set_scheme(Some(String::from("h\u{e9}")))
    );
    assert_eq!(Some("http"), uri.scheme());
    assert!(!uri.is_relative_reference());
    let mut authority = Authority::default();
    authority.set_host(b"h".to_vec());
    authority.set_port(Some(1));
    uri.set_authority(Some(authority.clone()));
    assert_eq!(Some(&authority), uri.authority());
    assert_eq!(Some(1), uri.port());
    uri.set_path(vec![b"".to_vec(), b"a/b".to_vec()]);
    assert!(!uri.contains_relative_path());
    assert_eq!("http://h:1/a%2Fb", uri.to_string());
    assert_eq!("/a/b", uri.path_to_string().unwrap());
    uri.set_path_from_str("x//y/");
    assert_eq!(
        &vec![b"x".to_vec(), b"".to_vec(), b"y".to_vec(), b"".to_vec()],
        uri.path()
    );
    uri.set_path_from_str("/");
    assert_eq!(&vec![b"".to_vec(), b"".to_vec()], uri.path());
    assert_eq!("http://h:1/", uri.to_string());
    assert_eq!(Ok(()), uri.set_scheme(None));
    assert_eq!(None, uri.scheme());
}

#[test]
fn a_scheme_is_kept_in_lower_case() {
    for given in ["http", "HTTP", "hTtP", "Http"] {
        let mut uri = Uri::default();
        assert_eq!(Ok(()), uri.set_scheme(Some(String::from(given))));
        assert_eq!(Some("http"), uri.scheme());
        assert_eq!("http:", uri.to_string());
        assert_eq!(Uri::parse("http:").unwrap(), uri);
    }
    let mut uri = Uri::default();
    assert_eq!(Ok(()), uri.set_scheme(Some(String::from("X+Y-Z.9"))));
    assert_eq!(Some("x+y-z.9"), uri.scheme());
    assert_eq!(Some(String::from("x+y-z.9")), uri.take_scheme());
}

#[test]
fn behind_an_authority_the_empty_path_is_written_as_a_slash() {
    let mut authority = Authority::default();
    authority.set_host(b"example.com".to_vec());
    let mut uri = Uri::default();
    uri.set_authority(Some(authority));
    let empty: Vec<Vec<u8>> = vec![];
    assert_eq!(&empty, uri.path());
    assert_eq!("//example.com/", uri.to_string());
    uri.set_query(Some(b"q".to_vec()));
    uri.set_fragment(Some(b"f".to_vec()));
    assert_eq!("//example.com/?q#f", uri.to_string());
    assert_eq!("", uri.path_to_string().unwrap());
    // without an authority the empty path is written as nothing
    assert_eq!(
        Some(Authority::parse("example.com").unwrap()),
        uri.take_authority()
    );
    assert_eq!("?q#f", uri.to_string());
    // a path that is not empty is written as it is
    let mut authority = Authority::default();
    authority.set_host(b"h".to_vec());
    uri.set_authority(Some(authority));
    uri.set_path_from_str("/x");
    assert_eq!("//h/x?q#f", uri.to_string());
}

#[test]
fn context_names() {
    assert_eq!("fragment", Context::Fragment.to_string());
    assert_eq!("host", Context::Host.to_string());
    assert_eq!("IPv4 address", Context::Ipv4Address.to_string());
    assert_eq!("IPv6 address", Context::Ipv6Address.to_string());
    assert_eq!("IPvFuture", Context::IpvFuture.to_string());
    assert_eq!("path", Context::Path.to_string());
    assert_eq!("query", Context::Query.to_string());
    assert_eq!("scheme", Context::Scheme.to_string());
    assert_eq!("user info", Context::Userinfo.to_string());
}

#[test]
fn a_colon_before_the_first_slash_ends_a_scheme() {
    assert_eq!(
        Err(Error::IllegalCharacter(Context::Scheme)),
        Uri::parse("?a:b")
    );
    let uri = Uri::parse("a:b/c:d").unwrap();
    assert_eq!(Some("a"), uri.scheme());
    assert_eq!(&vec![b"b".to_vec(), b"c:d".to_vec()], uri.path());
    let uri = Uri::parse("a/b:c").unwrap();
    assert_eq!(None, uri.scheme());
    // a first segment with an encoded colon is written with the colon as it is,
    // and is then read as a scheme
    let uri = Uri::parse("a%3Ab").unwrap();
    assert_eq!(None, uri.scheme());
    assert_eq!("a:b", uri.to_string());
}

#[test]
fn query_and_fragment_are_cut_at_the_first_delimiter() {
    let uri = Uri::parse("x://y?z/w").unwrap();
    assert_eq!(Some(&b"y"[..]), uri.host());
    assert_eq!(&vec![b"".to_vec()], uri.path());
    assert_eq!(Some(&b"z/w"[..]), uri.query());
    let uri = Uri::parse("x://y#f?g").unwrap();
    assert_eq!(None, uri.query());
    assert_eq!(Some(&b"f?g"[..]), uri.fragment());
    let uri = Uri::parse("//user@[::1]:80/p?q#f").unwrap();
    assert_eq!(Some(&b"user"[..]), uri.userinfo());
    assert_eq!(Some(&b"::1"[..]), uri.host());
    assert_eq!(Some(80), uri.port());
}

#[test]
fn a_string_is_converted_by_parsing_it() {
    let text = String::from("http://www.example.com/foo?bar#baz");
    assert_eq!(Uri::parse(&text), Uri::try_from(text.clone()));
    assert_eq!(Uri::parse(&text), Uri::try_from(text.as_str()));
    assert_eq!(Err(Error::EmptyScheme), Uri::try_from(String::from(":")));
}

#[test]
fn taking_a_part_leaves_the_others() {
    let mut uri = Uri::parse("s://h/p?q#f").unwrap();
    assert_eq!(Some(String::from("s")), uri.take_scheme());
    assert_eq!(None, uri.take_scheme());
    assert_eq!("//h/p?q#f", uri.to_string());
    assert_eq!(Some(b"f".to_vec()), uri.take_fragment());
    assert_eq!(Some(b"q".to_vec()), uri.take_query());
    assert_eq!(Some(Authority::parse("h").unwrap()), uri.take_authority());
    assert_eq!("/p", uri.to_string());
}
