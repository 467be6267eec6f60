use std::convert::{TryFrom, TryInto};

use rhymuri::{Authority, Error, Uri};

#[test]
fn no_scheme() {
    let uri = Uri::parse("foo/bar");
    assert!(uri.is_ok());
    let uri = uri.unwrap();
    assert_eq!(None, uri.scheme());
    assert_eq!(&[&b"foo"[..], &b"bar"[..]].to_vec(), uri.path());
    assert_eq!("foo/bar", uri.path_to_string().unwrap());
}

#[test]
fn url() {
    let uri: Result<Uri, Error> =
        "http://www.example.com/foo/bar".try_into();
    assert!(uri.is_ok());
    let uri = uri.unwrap();
    assert_eq!(Some("http"), uri.scheme());
    assert_eq!(Some(&b"www.example.com"[..]), uri.host());
    assert_eq!(
        Some("www.example.com"),
        uri.host_to_string().unwrap().as_deref()
    );
    assert_eq!(uri.path_to_string().unwrap(), "/foo/bar");
}

#[test]
fn urn_default_path_delimiter() {
    let uri = Uri::try_from("urn:book:fantasy:Hobbit");
    assert!(uri.is_ok());
    let uri = uri.unwrap();
    assert_eq!(Some("urn"), uri.scheme());
    assert_eq!(None, uri.host());
    assert_eq!(uri.path_to_string().unwrap(), "book:fantasy:Hobbit");
}

#[test]
fn path_corner_cases() {
    let test_vectors: &[(&'static str, Vec<&'static [u8]>)] = &[
        ("", vec![]),
        ("/", vec![&b""[..]]),
        ("/foo", vec![&b""[..], &b"foo"[..]]),
        ("foo/", vec![&b"foo"[..], &b""[..]]),
    ];
    for test_vector in test_vectors {
        let uri = Uri::parse(test_vector.0);
        assert!(uri.is_ok());
        let uri = uri.unwrap();
        assert_eq!(&test_vector.1, uri.path());
    }
}

#[test]
fn uri_ends_after_authority() {
    let uri = Uri::parse("http://www.example.com");
    assert!(uri.is_ok());
}

#[test]
fn relative_vs_non_relative_references() {
    let test_vectors: &[(&'static str, bool)] = &[
        ("http://www.example.com/", false),
        ("http://www.example.com", false),
        ("/", true),
        ("foo", true),
    ];
    for test_vector in test_vectors {
        let uri = Uri::parse(test_vector.0);
        assert!(uri.is_ok());
        let uri = uri.unwrap();
        assert_eq!(
            test_vector.1,
            uri.is_relative_reference()
        );
    }
}

#[test]
fn relative_vs_non_relative_paths() {
    let test_vectors: &[(&'static str, bool)] = &[
        ("http://www.example.com/", false),
        ("http://www.example.com", false),
        ("/", false),
        ("foo", true),
        // This is only a valid test vector if we understand
        // correctly that an empty string IS a valid
        // "relative reference" URI with an empty path.
        ("", true),
    ];
    for (test_index, test_vector) in test_vectors.iter().enumerate() {
        let uri = Uri::parse(test_vector.0);
        assert!(uri.is_ok());
        let uri = uri.unwrap();
        assert_eq!(
            test_vector.1,
            uri.contains_relative_path(),
            "{}",
            test_index
        );
    }
}

#[test]
fn query_and_fragment_elements() {
    let test_vectors: &[(&'static str, &'static str, Option<&'static str>, Option<&'static str>)] = &[
        ("http://www.example.com/", "www.example.com", None, None),
        ("http://example.com?foo", "example.com", Some("foo"), None),
        (
            "http://www.example.com#foo",
            "www.example.com",
            None,
            Some("foo"),
        ),
        (
            "http://www.example.com?foo#bar",
            "www.example.com",
            Some("foo"),
            Some("bar"),
        ),
        (
            "http://www.example.com?earth?day#bar",
            "www.example.com",
            Some("earth?day"),
            Some("bar"),
        ),
        (
            "http://www.example.com/spam?foo#bar",
            "www.example.com",
            Some("foo"),
            Some("bar"),
        ),
        ("http://www.example.com/?", "www.example.com", Some(""), None),
    ];
    for (test_index, test_vector) in test_vectors.iter().enumerate() {
        let uri = Uri::parse(test_vector.0);
        assert!(uri.is_ok());
        let uri = uri.unwrap();
        assert_eq!(
            Some(test_vector.1),
            uri.host_to_string().unwrap().as_deref()
        );
        assert_eq!(
            test_vector.2,
            uri.query_to_string().unwrap().as_deref(),
            "{}",
            test_index
        );
        assert_eq!(
            test_vector.3,
            uri.fragment_to_string().unwrap().as_deref()
        );
    }
}

#[test]
fn scheme_illegal_characters() {
    let test_vectors = [
        "://www.example.com/",
        "0://www.example.com/",
        "+://www.example.com/",
        "@://www.example.com/",
        ".://www.example.com/",
        "h@://www.example.com/",
    ];
    for test_vector in &test_vectors {
        let uri = Uri::parse(*test_vector);
        assert!(uri.is_err());
    }
}

#[test]
fn scheme_barely_legal() {
    let test_vectors: &[(&'static str, &'static str)] = &[
        ("h://www.example.com/", "h"),
        ("x+://www.example.com/", "x+"),
        ("y-://www.example.com/", "y-"),
        ("z.://www.example.com/", "z."),
        ("aa://www.example.com/", "aa"),
        ("a0://www.example.com/", "a0"),
    ];
    for test_vector in test_vectors {
        let uri = Uri::parse(test_vector.0);
        assert!(uri.is_ok());
        let uri = uri.unwrap();
        assert_eq!(Some(test_vector.1), uri.scheme());
    }
}

#[test]
fn scheme_mixed_case() {
    let test_vectors = [
        "http://www.example.com/",
        "hTtp://www.example.com/",
        "HTTP://www.example.com/",
        "Http://www.example.com/",
        "HttP://www.example.com/",
    ];
    for test_vector in &test_vectors {
        let uri = Uri::parse(test_vector);
        assert!(uri.is_ok());
        let uri = uri.unwrap();
        assert_eq!(Some("http"), uri.scheme());
    }
}

#[test]
fn dont_misinterpret_colon_in_other_places_as_scheme_delimiter() {
    let test_vectors = [
        "//foo:bar@www.example.com/",
        "//www.example.com/a:b",
        "//www.example.com/foo?a:b",
        "//www.example.com/foo#a:b",
        "//[v7.:]/",
        "/:/foo",
    ];
    for test_vector in &test_vectors {
        let uri = Uri::parse(test_vector);
        assert!(uri.is_ok());
        let uri = uri.unwrap();
        assert_eq!(None, uri.scheme());
    }
}

#[test]
fn path_illegal_characters() {
    let test_vectors = [
        "http://www.example.com/foo[bar",
        "http://www.example.com/]bar",
        "http://www.example.com/foo]",
        "http://www.example.com/[",
        "http://www.example.com/abc/foo]",
        "http://www.example.com/abc/[",
        "http://www.example.com/foo]/abc",
        "http://www.example.com/[/abc",
        "http://www.example.com/foo]/",
        "http://www.example.com/[/",
        "/foo[bar",
        "/]bar",
        "/foo]",
        "/[",
        "/abc/foo]",
        "/abc/[",
        "/foo]/abc",
        "/[/abc",
        "/foo]/",
        "/[/",
    ];
    for test_vector in &test_vectors {
        let uri = Uri::parse(test_vector);
        assert!(uri.is_err());
    }
}

#[test]
fn path_barely_legal() {
    let test_vectors: &[(&'static str, Vec<&'static [u8]>)] = &[
        ("/:/foo", vec![&b""[..], &b":"[..], &b"foo"[..]]),
        ("bob@/foo", vec![&b"bob@"[..], &b"foo"[..]]),
        ("hello!", vec![&b"hello!"[..]]),
        ("urn:hello,%20w%6Frld", vec![&b"hello, world"[..]]),
        ("//example.com/foo/(bar)/", vec![
            &b""[..],
            &b"foo"[..],
            &b"(bar)"[..],
            &b""[..],
        ]),
    ];
    for test_vector in test_vectors {
        let uri = Uri::parse(test_vector.0);
        assert!(uri.is_ok());
        let uri = uri.unwrap();
        assert_eq!(&test_vector.1, uri.path());
    }
}

#[test]
fn query_illegal_characters() {
    let test_vectors = [
        "http://www.example.com/?foo[bar",
        "http://www.example.com/?]bar",
        "http://www.example.com/?foo]",
        "http://www.example.com/?[",
        "http://www.example.com/?abc/foo]",
        "http://www.example.com/?abc/[",
        "http://www.example.com/?foo]/abc",
        "http://www.example.com/?[/abc",
        "http://www.example.com/?foo]/",
        "http://www.example.com/?[/",
        "?foo[bar",
        "?]bar",
        "?foo]",
        "?[",
        "?abc/foo]",
        "?abc/[",
        "?foo]/abc",
        "?[/abc",
        "?foo]/",
        "?[/",
    ];
    for test_vector in &test_vectors {
        let uri = Uri::parse(test_vector);
        assert!(uri.is_err());
    }
}

#[test]
fn query_barely_legal() {
    let test_vectors: &[(&'static str, &'static str)] = &[
        ("/?:/foo", ":/foo"),
        ("?bob@/foo", "bob@/foo"),
        ("?hello!", "hello!"),
        ("urn:?hello,%20w%6Frld", "hello, world"),
        ("//example.com/foo?(bar)/", "(bar)/"),
        ("http://www.example.com/?foo?bar", "foo?bar"),
    ];
    for (test_index, test_vector) in test_vectors.iter().enumerate() {
        let uri = Uri::parse(test_vector.0);
        assert!(uri.is_ok());
        let uri = uri.unwrap();
        assert_eq!(
            Some(test_vector.1),
            uri.query_to_string().unwrap().as_deref(),
            "{}",
            test_index
        );
    }
}

#[test]
fn fragment_illegal_characters() {
    let test_vectors = [
        "http://www.example.com/#foo[bar",
        "http://www.example.com/#]bar",
        "http://www.example.com/#foo]",
        "http://www.example.com/#[",
        "http://www.example.com/#abc/foo]",
        "http://www.example.com/#abc/[",
        "http://www.example.com/#foo]/abc",
        "http://www.example.com/#[/abc",
        "http://www.example.com/#foo]/",
        "http://www.example.com/#[/",
        "#foo[bar",
        "#]bar",
        "#foo]",
        "#[",
        "#abc/foo]",
        "#abc/[",
        "#foo]/abc",
        "#[/abc",
        "#foo]/",
        "#[/",
    ];
    for test_vector in &test_vectors {
        let uri = Uri::parse(test_vector);
        assert!(uri.is_err());
    }
}

#[test]
fn fragment_barely_legal() {
    let test_vectors: &[(&'static str, &'static str)] = &[
        ("/#:/foo", ":/foo"),
        ("#bob@/foo", "bob@/foo"),
        ("#hello!", "hello!"),
        ("urn:#hello,%20w%6Frld", "hello, world"),
        ("//example.com/foo#(bar)/", "(bar)/"),
        ("http://www.example.com/#foo?bar", "foo?bar"),
    ];
    for test_vector in test_vectors {
        let uri = Uri::parse(test_vector.0);
        assert!(uri.is_ok());
        let uri = uri.unwrap();
        assert_eq!(
            Some(test_vector.1),
            uri.fragment_to_string().unwrap().as_deref()
        );
    }
}

#[test]
fn paths_with_percent_encoded_characters() {
    let test_vectors: &[(&'static str, &'static [u8])] = &[
        ("%41", &b"A"[..]),
        ("%4A", &b"J"[..]),
        ("%4a", &b"J"[..]),
        ("%bc", &b"\xBC"[..]),
        ("%Bc", &b"\xBC"[..]),
        ("%bC", &b"\xBC"[..]),
        ("%BC", &b"\xBC"[..]),
        ("%41%42%43", &b"ABC"[..]),
        ("%41%4A%43%4b", &b"AJCK"[..]),
    ];
    for test_vector in test_vectors {
        let uri = Uri::parse(test_vector.0);
        assert!(uri.is_ok());
        let uri = uri.unwrap();
        assert_eq!(
            test_vector.1,
            uri.path().first().unwrap()
        );
    }
}

#[test]
fn normalize_path() {
    let test_vectors: &[(&'static str, &'static str)] = &[
        ("/a/b/c/./../../g", "/a/g"),
        ("mid/content=5/../6", "mid/6"),
        ("http://example.com/a/../b", "/b"),
        ("http://example.com/../b", "/b"),
        ("http://example.com/a/../b/", "/b/"),
        ("http://example.com/a/../../b", "/b"),
        ("./a/b", "a/b"),
        ("", ""),
        (".", ""),
        ("./", ""),
        ("..", ""),
        ("../", ""),
        ("/", "/"),
        ("a/b/..", "a/"),
        ("a/b/../", "a/"),
        ("a/b/.", "a/b/"),
        ("a/b/./", "a/b/"),
        ("a/b/./c", "a/b/c"),
        ("a/b/./c/", "a/b/c/"),
        ("/a/b/..", "/a/"),
        ("/a/b/.", "/a/b/"),
        ("/a/b/./c", "/a/b/c"),
        ("/a/b/./c/", "/a/b/c/"),
        ("./a/b/..", "a/"),
        ("./a/b/.", "a/b/"),
        ("./a/b/./c", "a/b/c"),
        ("./a/b/./c/", "a/b/c/"),
        ("../a/b/..", "a/"),
        ("../a/b/.", "a/b/"),
        ("../a/b/./c", "a/b/c"),
        ("../a/b/./c/", "a/b/c/"),
        ("../a/b/../c", "a/c"),
        ("../a/b/./../c/", "a/c/"),
        ("../a/b/./../c", "a/c"),
        ("../a/b/./../c/", "a/c/"),
        ("../a/b/.././c/", "a/c/"),
        ("../a/b/.././c", "a/c"),
        ("../a/b/.././c/", "a/c/"),
        ("/./c/d", "/c/d"),
        ("/../c/d", "/c/d"),
    ];
    for test_vector in test_vectors.iter() {
        let uri = Uri::parse(test_vector.0);
        assert!(uri.is_ok());
        let mut uri = uri.unwrap();
        uri.normalize();
        assert_eq!(
            test_vector.1,
            uri.path_to_string().unwrap(),
            "{}",
            test_vector.0
        );
    }
}

#[test]
fn construct_normalize_and_compare_equivalent_uris() {
    // This was inspired by section 6.2.2
    // of RFC 3986 (https://tools.ietf.org/html/rfc3986).
    let uri1 = Uri::parse("example://a/b/c/%7Bfoo%7D");
    assert!(uri1.is_ok());
    let uri1 = uri1.unwrap();
    let uri2 = Uri::parse("eXAMPLE://a/./b/../b/%63/%7bfoo%7d");
    assert!(uri2.is_ok());
    let mut uri2 = uri2.unwrap();
    assert_ne!(uri1, uri2);
    uri2.normalize();
    assert_eq!(uri1, uri2);
}

#[test]
fn reference_resolution() {
    let test_vectors: &[(&'static str, &'static str, &'static str)] = &[
        // These are all taken from section 5.4.1
        // of RFC 3986 (https://tools.ietf.org/html/rfc3986).
        ("http://a/b/c/d;p?q", "g:h", "g:h"),
        ("http://a/b/c/d;p?q", "g", "http://a/b/c/g"),
        ("http://a/b/c/d;p?q", "./g", "http://a/b/c/g"),
        ("http://a/b/c/d;p?q", "g/", "http://a/b/c/g/"),
        ("http://a/b/c/d;p?q", "//g", "http://g"),
        ("http://a/b/c/d;p?q", "?y", "http://a/b/c/d;p?y"),
        ("http://a/b/c/d;p?q", "g?y", "http://a/b/c/g?y"),
        ("http://a/b/c/d;p?q", "#s", "http://a/b/c/d;p?q#s"),
        ("http://a/b/c/d;p?q", "g#s", "http://a/b/c/g#s"),
        ("http://a/b/c/d;p?q", "g?y#s", "http://a/b/c/g?y#s"),
        ("http://a/b/c/d;p?q", ";x", "http://a/b/c/;x"),
        ("http://a/b/c/d;p?q", "g;x", "http://a/b/c/g;x"),
        ("http://a/b/c/d;p?q", "g;x?y#s", "http://a/b/c/g;x?y#s"),
        ("http://a/b/c/d;p?q", "", "http://a/b/c/d;p?q"),
        ("http://a/b/c/d;p?q", ".", "http://a/b/c/"),
        ("http://a/b/c/d;p?q", "./", "http://a/b/c/"),
        ("http://a/b/c/d;p?q", "..", "http://a/b/"),
        ("http://a/b/c/d;p?q", "../", "http://a/b/"),
        ("http://a/b/c/d;p?q", "../g", "http://a/b/g"),
        ("http://a/b/c/d;p?q", "../..", "http://a"),
        ("http://a/b/c/d;p?q", "../../", "http://a"),
        ("http://a/b/c/d;p?q", "../../g", "http://a/g"),
        // Here are some examples of our own.
        ("http://example.com", "foo", "http://example.com/foo"),
        ("http://example.com/", "foo", "http://example.com/foo"),
        ("http://example.com", "foo/", "http://example.com/foo/"),
        ("http://example.com/", "foo/", "http://example.com/foo/"),
        ("http://example.com", "/foo", "http://example.com/foo"),
        ("http://example.com/", "/foo", "http://example.com/foo"),
        ("http://example.com", "/foo/", "http://example.com/foo/"),
        ("http://example.com/", "/foo/", "http://example.com/foo/"),
        ("http://example.com/", "?foo", "http://example.com/?foo"),
        ("http://example.com/", "#foo", "http://example.com/#foo"),
    ];
    for test_vector in test_vectors {
        let base_uri = Uri::parse(test_vector.0).unwrap();
        let relative_reference_uri =
            Uri::parse(test_vector.1).unwrap();
        let expected_target_uri =
            Uri::parse(test_vector.2).unwrap();
        let actual_target_uri =
            base_uri.resolve(&relative_reference_uri);
        assert_eq!(expected_target_uri, actual_target_uri);
    }
}

#[test]
fn empty_path_in_uri_with_authority_is_equivalent_to_slash_only_path() {
    let uri1 = Uri::parse("http://example.com");
    assert!(uri1.is_ok());
    let uri1 = uri1.unwrap();
    let uri2 = Uri::parse("http://example.com/");
    assert!(uri2.is_ok());
    let uri2 = uri2.unwrap();
    assert_eq!(uri1, uri2);
    let uri1 = Uri::parse("//example.com");
    assert!(uri1.is_ok());
    let uri1 = uri1.unwrap();
    let uri2 = Uri::parse("//example.com/");
    assert!(uri2.is_ok());
    let uri2 = uri2.unwrap();
    assert_eq!(uri1, uri2);
}

#[test]
fn generate_string() {
    let test_vectors: &[(Option<&'static str>, Option<&'static str>, Option<&'static str>, Option<u16>, &'static str, Option<&'static str>, Option<&'static str>, &'static str)] = &[
        // general test vectors
        // scheme      userinfo     host                     port        path         query           fragment     expected_uri_string
        (Some("http"), Some("bob"), Some("www.example.com"), Some(8080), "/abc/def",  Some("foobar"), Some("ch2"), "http://bob@www.example.com:8080/abc/def?foobar#ch2"),
        (Some("http"), Some("bob"), Some("www.example.com"), Some(0),    "",          Some("foobar"), Some("ch2"), "http://bob@www.example.com:0/?foobar#ch2"),
        (Some("http"), Some("bob"), Some("www.example.com"), Some(0),    "",          Some("foobar"), Some(""),    "http://bob@www.example.com:0/?foobar#"),
        (None,         None,        Some("example.com"),     None,       "",          Some("bar"),    None,        "//example.com/?bar"),
        (None,         None,        Some("example.com"),     None,       "",          Some(""),       None,        "//example.com/?"),
        (None,         None,        Some("example.com"),     None,       "",          None,           None,        "//example.com/"),
        (None,         None,        Some("example.com"),     None,       "/",         None,           None,        "//example.com/"),
        (None,         None,        Some("example.com"),     None,       "/xyz",      None,           None,        "//example.com/xyz"),
        (None,         None,        Some("example.com"),     None,       "/xyz/",     None,           None,        "//example.com/xyz/"),
        (None,         None,        None,                    None,       "/",         None,           None,        "/"),
        (None,         None,        None,                    None,       "/xyz",      None,           None,        "/xyz"),
        (None,         None,        None,                    None,       "/xyz/",     None,           None,        "/xyz/"),
        (None,         None,        None,                    None,       "",          None,           None,        ""),
        (None,         None,        None,                    None,       "xyz",       None,           None,        "xyz"),
        (None,         None,        None,                    None,       "xyz/",      None,           None,        "xyz/"),
        (None,         None,        None,                    None,       "",          Some("bar"),    None,        "?bar"),
        (Some("http"), None,        None,                    None,       "",          Some("bar"),    None,        "http:?bar"),
        (Some("http"), None,        None,                    None,       "",          None,           None,        "http:"),
        (Some("http"), None,        Some("::1"),             None,       "",          None,           None,        "http://[::1]/"),
        (Some("http"), None,        Some("::1.2.3.4"),       None,       "",          None,           None,        "http://[::1.2.3.4]/"),
        (Some("http"), None,        Some("1.2.3.4"),         None,       "",          None,           None,        "http://1.2.3.4/"),
        (None,         None,        None,                    None,       "",          None,           None,        ""),
        (Some("http"), Some("bob"), None,                    None,       "",          Some("foobar"), None,        "http://bob@/?foobar"),
        (None,         Some("bob"), None,                    None,       "",          Some("foobar"), None,        "//bob@/?foobar"),
        (None,         Some("bob"), None,                    None,       "",          None,           None,        "//bob@/"),

        // percent-encoded character test vectors
        // scheme      userinfo      host                     port        path        query            fragment     expected_uri_string
        (Some("http"), Some("b b"),  Some("www.example.com"), Some(8080), "/abc/def", Some("foobar"),  Some("ch2"), "http://b%20b@www.example.com:8080/abc/def?foobar#ch2"),
        (Some("http"), Some("bob"),  Some("www.e ample.com"), Some(8080), "/abc/def", Some("foobar"),  Some("ch2"), "http://bob@www.e%20ample.com:8080/abc/def?foobar#ch2"),
        (Some("http"), Some("bob"),  Some("www.example.com"), Some(8080), "/a c/def", Some("foobar"),  Some("ch2"), "http://bob@www.example.com:8080/a%20c/def?foobar#ch2"),
        (Some("http"), Some("bob"),  Some("www.example.com"), Some(8080), "/abc/def", Some("foo ar"),  Some("ch2"), "http://bob@www.example.com:8080/abc/def?foo%20ar#ch2"),
        (Some("http"), Some("bob"),  Some("www.example.com"), Some(8080), "/abc/def", Some("foobar"),  Some("c 2"), "http://bob@www.example.com:8080/abc/def?foobar#c%202"),
        (Some("http"), Some("bob"),  Some("\u{1234}.example.com"),   Some(8080), "/abc/def", Some("foobar"),  None,        "http://bob@%E1%88%B4.example.com:8080/abc/def?foobar"),

        // normalization of IPv6 address hex digits
        // scheme      userinfo     host                   port        path        query           fragment     expected_uri_string
        (Some("http"), Some("bob"), Some("fFfF::1"),       Some(8080), "/abc/def", Some("foobar"), Some("c 2"), "http://bob@[ffff::1]:8080/abc/def?foobar#c%202"),
    ];
    for test_vector in test_vectors {
        let mut uri = Uri::default();
        assert!(uri
            .set_scheme(test_vector.0.map(ToString::to_string))
            .is_ok());
        if test_vector.1.is_some()
            || test_vector.2.is_some()
            || test_vector.3.is_some()
        {
            let mut authority = Authority::default();
            authority.set_userinfo(test_vector.1.map(Into::into));
            authority.set_host(test_vector.2.unwrap_or_else(|| "").into());
            authority.set_port(test_vector.3);
            uri.set_authority(Some(authority));
        } else {
            uri.set_authority(None);
        }
        uri.set_path_from_str(test_vector.4);
        uri.set_query(test_vector.5.map(Into::into));
        uri.set_fragment(test_vector.6.map(Into::into));
        assert_eq!(test_vector.7, uri.to_string());
    }
}

#[test]
fn fragment_empty_but_present() {
    let uri = Uri::parse("http://example.com#");
    assert!(uri.is_ok());
    let mut uri = uri.unwrap();
    assert_eq!(Some(&b""[..]), uri.fragment());
    assert_eq!(uri.to_string(), "http://example.com/#");
    uri.set_fragment(None);
    assert_eq!(uri.to_string(), "http://example.com/");
    assert_eq!(None, uri.fragment());

    let uri = Uri::parse("http://example.com");
    assert!(uri.is_ok());
    let mut uri = uri.unwrap();
    assert_eq!(None, uri.fragment());
    uri.set_fragment(Some(vec![]));
    assert_eq!(Some(&b""[..]), uri.fragment());
    assert_eq!(uri.to_string(), "http://example.com/#");
}

#[test]
fn query_empty_but_present() {
    let uri = Uri::parse("http://example.com?");
    assert!(uri.is_ok());
    let mut uri = uri.unwrap();
    assert_eq!(Some(&b""[..]), uri.query());
    assert_eq!(uri.to_string(), "http://example.com/?");
    uri.set_query(None);
    assert_eq!(uri.to_string(), "http://example.com/");
    assert_eq!(None, uri.query());

    let uri = Uri::parse("http://example.com");
    assert!(uri.is_ok());
    let mut uri = uri.unwrap();
    assert_eq!(None, uri.query());
    uri.set_query(Some(vec![]));
    assert_eq!(Some(&b""[..]), uri.query());
    assert_eq!(uri.to_string(), "http://example.com/?");
}

#[test]
fn make_a_copy() {
    let mut uri1 = Uri::parse("http://www.example.com/foo.txt").unwrap();
    let mut uri2 = uri1.clone();
    uri1.set_query(Some(b"bar".to_vec()));
    uri2.set_fragment(Some(b"page2".to_vec()));
    let mut uri2_new_auth = uri2.authority().unwrap().clone();
    uri2_new_auth.set_host("example.com".into());
    uri2.set_authority(Some(uri2_new_auth));
    assert_eq!(uri1.to_string(), "http://www.example.com/foo.txt?bar");
    assert_eq!(uri2.to_string(), "http://example.com/foo.txt#page2");
}

#[test]
fn clear_query() {
    let mut uri = Uri::parse("http://www.example.com/?foo=bar").unwrap();
    uri.set_query(None);
    assert_eq!(uri.to_string(), "http://www.example.com/");
    assert_eq!(None, uri.query());
}

#[test]
fn percent_encode_plus_in_queries() {
    // Although RFC 3986 doesn't say anything about '+', some web services
    // treat it the same as ' ' due to how HTML first defined how
    // to encode the query portion of a URL
    // (see https://stackoverflow.com/questions/2678551/when-to-encode-space-to-plus-or-20).
    //
    // To avoid issues with these web services, make sure '+' is
    // percent-encoded in a URI when the URI is encoded.
    let mut uri = Uri::default();
    uri.set_query(Some(b"foo+bar".to_vec()));
    assert_eq!(uri.to_string(), "?foo%2Bbar");
}

#[test]
fn percent_encode_characters_with_two_digits_always() {
    for ci in 0_u8..31_u8 {
        let mut uri = Uri::default();
        uri.set_query(Some(vec![ci]));
        assert_eq!(uri.to_string(), format!("?%{:02X}", ci));
    }
}

#[test]
fn set_illegal_schemes() {
    let test_vectors = ["ab_de", "ab/de", "ab:de", "", "&", "foo&bar"];
    for test_vector in &test_vectors {
        let mut uri = Uri::default();
        assert!(uri.set_scheme(Some((*test_vector).to_string())).is_err());
    }
}

#[test]
fn take_parts() {
    let mut uri =
        Uri::parse("https://www.example.com/foo?bar#baz").unwrap();
    assert_eq!(Some("https"), uri.take_scheme().as_deref());
    assert_eq!("//www.example.com/foo?bar#baz", uri.to_string());
    assert!(matches!(
        uri.take_authority(),
        Some(authority) if authority.host() == b"www.example.com"
    ));
    assert_eq!("/foo?bar#baz", uri.to_string());
    assert!(matches!(uri.take_authority(), None));
    assert_eq!(Some(&b"bar"[..]), uri.take_query().as_deref());
    assert_eq!("/foo#baz", uri.to_string());
    assert_eq!(None, uri.take_query().as_deref());
    assert_eq!(Some(&b"baz"[..]), uri.take_fragment().as_deref());
    assert_eq!("/foo", uri.to_string());
    assert_eq!(None, uri.take_fragment().as_deref());
}
