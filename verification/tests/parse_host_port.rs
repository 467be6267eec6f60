use rhymuri::parse_host_port::parse_host_port;
use rhymuri::{Context, Error};

#[test]
fn non_empty_port_number() {
    let result = parse_host_port("www.example.com:8080");
    assert!(result.is_ok());
    let (host, port) = result.unwrap();
    assert_eq!(b"www.example.com", &host[..]);
    assert_eq!(Some(8080), port);
}

#[test]
fn empty_port_number() {
    let result = parse_host_port("www.example.com:");
    assert!(result.is_ok());
    let (host, port) = result.unwrap();
    assert_eq!(b"www.example.com", &host[..]);
    assert_eq!(None, port);
}

#[test]
fn no_port_number() {
    let result = parse_host_port("www.example.com");
    assert!(result.is_ok());
    let (host, port) = result.unwrap();
    assert_eq!(b"www.example.com", &host[..]);
    assert_eq!(None, port);
}

#[test]
fn bad_port_number_purly_alphabetic() {
    let result = parse_host_port("www.example.com:spam");
    assert!(result.is_err());
}

#[test]
fn bad_port_number_starts_numeric_ends_alphabetic() {
    let result = parse_host_port("www.example.com:8080spam");
    assert!(result.is_err());
}

#[test]
fn largest_valid_port_number() {
    let result = parse_host_port("www.example.com:65535");
    assert!(result.is_ok());
    let (_, port) = result.unwrap();
    assert_eq!(Some(65535), port);
}

#[test]
fn bad_port_number_too_big() {
    let result = parse_host_port("www.example.com:65536");
    assert!(matches!(result, Err(Error::IllegalPortNumber(_))));
}

#[test]
fn bad_port_number_negative() {
    let result = parse_host_port("www.example.com:-1234");
    assert!(result.is_err());
}

#[test]
fn truncated_host() {
    let test_vectors = ["[::ffff:1.2.3.4/", "[:]/", "[v]/"];
    for test_vector in &test_vectors {
        assert_eq!(
            Err(Error::TruncatedHost),
            parse_host_port(test_vector),
            "{}",
            test_vector
        );
    }
}

#[test]
fn ipv6_address_with_ipv4_part_missing_bracket() {
    assert!(matches!(
        parse_host_port("::ffff:1.2.3.4]"),
        Err(Error::IllegalPortNumber(_))
    ));
}

#[test]
fn host_port_percent_encoded_registered_name() {
    assert_eq!(
        Ok((b"a b.example".to_vec(), Some(80))),
        parse_host_port("A%20B.example:80")
    );
    assert_eq!(Ok((b"\xe1".to_vec(), None)), parse_host_port("%E1"));
    assert_eq!(Ok((b"z".to_vec(), None)), parse_host_port("%5A"));
}

#[test]
fn host_port_errors_of_a_registered_name() {
    assert_eq!(
        Err(Error::IllegalCharacter(Context::Host)),
        parse_host_port("www.exa mple.com")
    );
    assert_eq!(Err(Error::IllegalPercentEncoding), parse_host_port("%GG"));
    assert_eq!(Err(Error::IllegalPercentEncoding), parse_host_port("%4:80"));
    assert_eq!(Err(Error::TruncatedHost), parse_host_port("abc%4"));
    assert_eq!(Err(Error::TruncatedHost), parse_host_port("abc%"));
}

#[test]
fn host_port_ip_literals() {
    assert_eq!(
        Ok((b"::FFFF:1.2.3.4".to_vec(), Some(8080))),
        parse_host_port("[::FFFF:1.2.3.4]:8080")
    );
    assert_eq!(Ok((b"v7.aB".to_vec(), None)), parse_host_port("[v7.aB]"));
    assert_eq!(Ok((b"v.".to_vec(), None)), parse_host_port("[v.]"));
    assert_eq!(
        Err(Error::IllegalCharacter(Context::IpvFuture)),
        parse_host_port("[vX.:]")
    );
    assert_eq!(
        Err(Error::IllegalCharacter(Context::IpvFuture)),
        parse_host_port("[v7.a/b]")
    );
    assert_eq!(Err(Error::TruncatedHost), parse_host_port("[v7]"));
    assert_eq!(Err(Error::TruncatedHost), parse_host_port("[v7.a"));
    assert_eq!(
        Err(Error::IllegalCharacter(Context::Host)),
        parse_host_port("[::1]x")
    );
    assert_eq!(
        Err(Error::IllegalCharacter(Context::Host)),
        parse_host_port("[v7.a]8080")
    );
    assert_eq!(
        Err(Error::TooManyDoubleColons),
        parse_host_port("[::1::2]:80")
    );
    assert_eq!(
        Err(Error::InvalidDecimalOctet),
        parse_host_port("[::ffff:1.2.3.256]")
    );
}

#[test]
fn host_port_port_with_a_plus_sign_or_leading_zeros() {
    assert_eq!(Ok((b"h".to_vec(), Some(80))), parse_host_port("h:+80"));
    assert_eq!(Ok((b"h".to_vec(), Some(80))), parse_host_port("h:00080"));
    assert!(matches!(
        parse_host_port("h:+"),
        Err(Error::IllegalPortNumber(_))
    ));
    assert!(matches!(
        parse_host_port("h:80:90"),
        Err(Error::IllegalPortNumber(_))
    ));
    assert!(matches!(
        parse_host_port("h:\u{e9}"),
        Err(Error::IllegalPortNumber(_))
    ));
}

#[test]
fn host_port_characters_that_are_not_ascii() {
    assert_eq!(
        Err(Error::IllegalCharacter(Context::Host)),
        parse_host_port("\u{e9}xample.com")
    );
    assert_eq!(
        Err(Error::IllegalCharacter(Context::Ipv6Address)),
        parse_host_port("[::\u{e9}]")
    );
}
