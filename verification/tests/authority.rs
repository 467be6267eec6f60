use rhymuri::Authority;

#[test]
fn userinfo() {
    let test_vectors: &[(&str, Option<&str>)] = &[
        ("www.example.com", None),
        ("joe@www.example.com", Some("joe")),
        ("pepe:feelsbadman@www.example.com", Some("pepe:feelsbadman")),
    ];
    for (authority_string, userinfo) in test_vectors {
        let authority = Authority::parse(authority_string);
        assert!(authority.is_ok());
        let authority = authority.unwrap();
        assert_eq!(userinfo.map(str::as_bytes), authority.userinfo());
    }
}

#[test]
fn userinfo_illegal_characters() {
    let test_vectors = ["%X@www.example.com", "{@www.example.com"];
    for test_vector in &test_vectors {
        let authority = Authority::parse(test_vector);
        assert!(authority.is_err());
    }
}

#[test]
fn userinfo_barely_legal() {
    let test_vectors: &[(&str, &str)] = &[
        ("%41@www.example.com", "A"),
        ("@www.example.com", ""),
        ("!@www.example.com", "!"),
        ("'@www.example.com", "'"),
        ("(@www.example.com", "("),
        (";@www.example.com", ";"),
        (":@www.example.com", ":"),
    ];
    for (uri_string, userinfo) in test_vectors {
        let authority = Authority::parse(uri_string);
        assert!(authority.is_ok());
        let authority = authority.unwrap();
        assert_eq!(Some(userinfo.as_bytes()), authority.userinfo());
    }
}

#[test]
fn host_illegal_characters() {
    let test_vectors = ["%X@www.example.com", "@www:example.com", "[vX.:]"];
    for test_vector in &test_vectors {
        let authority = Authority::parse(test_vector);
        assert!(authority.is_err());
    }
}

#[test]
fn host_barely_legal() {
    let test_vectors: &[(&str, &str)] = &[
        ("%41", "a"),
        ("", ""),
        ("!", "!"),
        ("'", "'"),
        ("(", "("),
        (";", ";"),
        ("1.2.3.4", "1.2.3.4"),
        ("[v7.:]", "v7.:"),
        ("[v7.aB]", "v7.aB"),
    ];
    for (authority_string, host) in test_vectors {
        let authority = Authority::parse(authority_string);
        assert!(authority.is_ok());
        let authority = authority.unwrap();
        assert_eq!(host.as_bytes(), authority.host());
    }
}

#[test]
fn host_ends_in_dot() {
    let authority = Authority::parse("example.com.");
    assert!(authority.is_ok());
    let authority = authority.unwrap();
    assert_eq!(b"example.com.", authority.host());
}

#[test]
fn host_mixed_case() {
    let test_vectors = [
        "www.example.com",
        "www.EXAMPLE.com",
        "www.exAMple.com",
        "www.example.cOM",
        "wWw.exampLe.Com",
    ];
    let normalized_host = "www.example.com";
    for test_vector in &test_vectors {
        let authority = Authority::parse(*test_vector);
        assert!(authority.is_ok());
        let authority = authority.unwrap();
        assert_eq!(normalized_host.as_bytes(), authority.host());
    }
}

#[test]
fn authority_parts_of_a_full_authority() {
    let authority = Authority::parse("nobody@www.example.com:8080").unwrap();
    assert_eq!(Some("nobody".as_bytes()), authority.userinfo());
    assert_eq!("www.example.com".as_bytes(), authority.host());
    assert_eq!(Some(8080), authority.port());
}

#[test]
fn authority_generated_from_its_parts() {
    let mut authority = Authority::default();
    authority.set_userinfo(Some(b"nobody".to_vec()));
    authority.set_host(b"www.example.com".to_vec());
    authority.set_port(Some(8080));
    assert_eq!("nobody@www.example.com:8080", authority.to_string());
}

#[test]
fn authority_userinfo_error_comes_before_host_error() {
    assert_eq!(
        Err(rhymuri::Error::IllegalCharacter(rhymuri::Context::Userinfo)),
        Authority::parse("{@[::1")
    );
    assert_eq!(
        Err(rhymuri::Error::IllegalPercentEncoding),
        Authority::parse("%4@www.example.com")
    );
}

#[test]
fn authority_ipv6_host_is_written_in_brackets_and_lower_case() {
    let mut authority = Authority::default();
    authority.set_host(b"2001:DB8::A".to_vec());
    authority.set_port(Some(65535));
    assert_eq!("[2001:db8::a]:65535", authority.to_string());
    let parsed = Authority::parse("[2001:DB8::A]:65535").unwrap();
    assert_eq!(b"2001:DB8::A", parsed.host());
    assert_eq!("[2001:db8::a]:65535", parsed.to_string());
}

#[test]
fn authority_port_is_written_in_decimal() {
    for (port, text) in [(0u16, "h:0"), (7, "h:7"), (10, "h:10"), (443, "h:443"), (65535, "h:65535")] {
        let mut authority = Authority::default();
        authority.set_host(b"h".to_vec());
        authority.set_port(Some(port));
        assert_eq!(text, authority.to_string());
        assert_eq!(Some(port), Authority::parse(text).unwrap().port());
    }
}

#[test]
fn authority_clone_is_equal() {
    let authority = Authority::parse("joe@example.com:99").unwrap();
    let copy = authority.clone();
    assert_eq!(authority, copy);
}
