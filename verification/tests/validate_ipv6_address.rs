use rhymuri::validate_ipv6_address::validate_ipv6_address;
use rhymuri::{Context, Error};

#[test]
fn validate_ipv6_address_good() {
    let test_vectors = [
        "::1",
        "::ffff:1.2.3.4",
        "2001:db8:85a3:8d3:1319:8a2e:370:7348",
        "2001:db8:85a3:8d3:1319:8a2e:370::",
        "2001:db8:85a3:8d3:1319:8a2e::1",
        "fFfF::1",
        "1234::1",
        "fFfF:1:2:3:4:5:6:a",
        "2001:db8:85a3::8a2e:0",
        "2001:db8:85a3:8a2e::",
    ];
    for test_vector in &test_vectors {
        assert!(validate_ipv6_address(*test_vector).is_ok());
    }
}

#[test]
fn validate_ipv6_address_bad() {
    let test_vectors: &[(&str, Error)] = &[
        ("::fFfF::1", Error::TooManyDoubleColons),
        ("::ffff:1.2.x.4", Error::IllegalCharacter(Context::Ipv4Address)),
        ("::ffff:1.2.3.4.8", Error::TooManyAddressParts),
        ("::ffff:1.2.3", Error::TooFewAddressParts),
        ("::ffff:1.2.3.", Error::TruncatedHost),
        ("::ffff:1.2.3.256", Error::InvalidDecimalOctet),
        ("::fxff:1.2.3.4", Error::IllegalCharacter(Context::Ipv6Address)),
        ("::ffff:1.2.3.-4", Error::IllegalCharacter(Context::Ipv4Address)),
        ("::ffff:1.2.3. 4", Error::IllegalCharacter(Context::Ipv4Address)),
        ("::ffff:1.2.3.4 ", Error::IllegalCharacter(Context::Ipv4Address)),
        (
            "2001:db8:85a3:8d3:1319:8a2e:370:7348:0000",
            Error::TooManyAddressParts,
        ),
        (
            "2001:db8:85a3:8d3:1319:8a2e:370:7348::1",
            Error::TooManyAddressParts,
        ),
        ("2001:db8:85a3:8d3:1319:8a2e:370::1", Error::TooManyAddressParts),
        ("2001:db8:85a3::8a2e:0:", Error::TruncatedHost),
        ("2001:db8:85a3::8a2e::", Error::TooManyDoubleColons),
        ("20001:db8:85a3::1", Error::TooManyDigits),
        ("", Error::TooFewAddressParts),
    ];
    for (address_string, expected_error) in test_vectors {
        let result = validate_ipv6_address(address_string);
        assert!(result.is_err(), "{}", address_string);
        assert_eq!(*expected_error, result.unwrap_err(), "{}", address_string);
    }
}

#[test]
fn ipv6_count_of_groups_at_the_end() {
    assert_eq!(Ok(()), validate_ipv6_address("::1"));
    assert_eq!(Ok(()), validate_ipv6_address("1:2:3:4:5:6:7:8"));
    assert_eq!(
        Err(Error::TooManyAddressParts),
        validate_ipv6_address("1:2:3:4:5:6:7:8:9")
    );
    assert_eq!(
        Err(Error::TooFewAddressParts),
        validate_ipv6_address("1:2:3:4:5:6:7")
    );
    assert_eq!(Ok(()), validate_ipv6_address("::"));
    assert_eq!(Ok(()), validate_ipv6_address("1:2:3:4:5:6:7::"));
    assert_eq!(
        Err(Error::TooManyAddressParts),
        validate_ipv6_address("1:2:3:4:5:6:7:8::")
    );
    assert_eq!(Ok(()), validate_ipv6_address("1:2:3:4:5:6:1.2.3.4"));
    assert_eq!(
        Err(Error::TooManyAddressParts),
        validate_ipv6_address("1:2:3:4:5:6:7:1.2.3.4")
    );
    assert_eq!(
        Err(Error::TooFewAddressParts),
        validate_ipv6_address("1:2:3:4:5:1.2.3.4")
    );
    assert_eq!(Ok(()), validate_ipv6_address("1::1.2.3.4"));
}

#[test]
fn ipv6_colons_and_digits() {
    assert_eq!(Err(Error::TruncatedHost), validate_ipv6_address(":"));
    assert_eq!(Err(Error::TruncatedHost), validate_ipv6_address("1:"));
    assert_eq!(
        Err(Error::IllegalCharacter(Context::Ipv6Address)),
        validate_ipv6_address(":1")
    );
    assert_eq!(
        Err(Error::IllegalCharacter(Context::Ipv6Address)),
        validate_ipv6_address(":::")
    );
    assert_eq!(
        Err(Error::TooManyDigits),
        validate_ipv6_address("::12345")
    );
    assert_eq!(
        Err(Error::TooManyDigits),
        validate_ipv6_address("::abcde")
    );
    assert_eq!(
        Err(Error::TooManyDigits),
        validate_ipv6_address("::1234x")
    );
    assert_eq!(
        Err(Error::IllegalCharacter(Context::Ipv6Address)),
        validate_ipv6_address("::abcdx")
    );
    assert_eq!(
        Err(Error::IllegalCharacter(Context::Ipv6Address)),
        validate_ipv6_address("::ab.1.2.3")
    );
    assert_eq!(
        Err(Error::IllegalCharacter(Context::Ipv4Address)),
        validate_ipv6_address("::1.2:3.4")
    );
}
