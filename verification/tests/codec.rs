use rhymuri::character_classes::{
    alpha, digit, hexdig, ipv_future_last_part, pchar_not_pct_encoded,
    query_not_pct_encoded_without_plus, query_or_fragment_not_pct_encoded,
    reg_name_not_pct_encoded, scheme_not_first, sub_delims, unreserved,
    user_info_not_pct_encoded, CharacterSet,
};
use rhymuri::codec::{decode_element, encode_element};
use rhymuri::{Context, Error};

fn members(set: &CharacterSet) -> String {
    let mut found = String::new();
    for b in 0..=255u8 {
        if set.contains(b) {
            found.push(b as char);
        }
    }
    found
}

#[test]
fn character_classes_hold_what_the_grammar_names() {
    let letters = "ABCDEFGHIJKLMNOPQRSTUVWXYZabcdefghijklmnopqrstuvwxyz";
    assert_eq!(letters, members(&alpha()));
    assert_eq!("0123456789", members(&digit()));
    assert_eq!("0123456789ABCDEFabcdef", members(&hexdig()));
    assert_eq!(
        format!("-.0123456789{}_{}~", &letters[..26], &letters[26..]),
        members(&unreserved())
    );
    assert_eq!("!$&'()*+,;=", members(&sub_delims()));
    assert_eq!(
        format!("+-.0123456789{}", letters),
        members(&scheme_not_first())
    );
    assert_eq!(
        format!("!$&'()*+,-.0123456789:;=@{}_{}~", &letters[..26], &letters[26..]),
        members(&pchar_not_pct_encoded())
    );
    assert_eq!(
        format!("!$&'()*+,-./0123456789:;=?@{}_{}~", &letters[..26], &letters[26..]),
        members(&query_or_fragment_not_pct_encoded())
    );
    assert_eq!(
        format!("!$&'()*,-./0123456789:;=?@{}_{}~", &letters[..26], &letters[26..]),
        members(&query_not_pct_encoded_without_plus())
    );
    assert_eq!(
        format!("!$&'()*+,-.0123456789:;={}_{}~", &letters[..26], &letters[26..]),
        members(&user_info_not_pct_encoded())
    );
    assert_eq!(
        format!("!$&'()*+,-.0123456789;={}_{}~", &letters[..26], &letters[26..]),
        members(&reg_name_not_pct_encoded())
    );
    assert_eq!(
        members(&user_info_not_pct_encoded()),
        members(&ipv_future_last_part())
    );
}

#[test]
fn character_set_operations() {
    let empty = CharacterSet::new();
    assert_eq!("", members(&empty));
    let set = empty.with(b'x').with_range(b'a', b'c').with(b'x');
    assert_eq!("abcx", members(&set));
    assert_eq!("acx", members(&set.without(b'b')));
    assert_eq!("abcx", members(&set.without(b'z')));
    assert_eq!("0123456789abcx", members(&set.with_all(digit())));
    assert_eq!("\u{0}\u{7f}", members(&empty.with(0).with(127)));
    assert!(!set.contains(200));
}

#[test]
fn decode_takes_allowed_characters_and_escapes() {
    let set = pchar_not_pct_encoded();
    assert_eq!(
        Ok(b"hello, world".to_vec()),
        decode_element("hello,%20w%6Frld", &set, Context::Path)
    );
    assert_eq!(Ok(Vec::new()), decode_element("", &set, Context::Path));
    assert_eq!(
        Ok(vec![0x00, 0xff, 0xca]),
        decode_element("%00%fF%Ca", &set, Context::Path)
    );
    assert_eq!(Ok(b"%".to_vec()), decode_element("%25", &set, Context::Path));
}

#[test]
fn decode_errors() {
    let set = pchar_not_pct_encoded();
    assert_eq!(
        Err(Error::IllegalCharacter(Context::Path)),
        decode_element("a/b", &set, Context::Path)
    );
    assert_eq!(
        Err(Error::IllegalCharacter(Context::Query)),
        decode_element("a b", &set, Context::Query)
    );
    assert_eq!(
        Err(Error::IllegalCharacter(Context::Fragment)),
        decode_element("caf\u{e9}", &set, Context::Fragment)
    );
    assert_eq!(
        Err(Error::IllegalPercentEncoding),
        decode_element("a%G0", &set, Context::Path)
    );
    assert_eq!(
        Err(Error::IllegalPercentEncoding),
        decode_element("a%0G", &set, Context::Path)
    );
    assert_eq!(
        Err(Error::IllegalPercentEncoding),
        decode_element("%4", &set, Context::Path)
    );
    assert_eq!(
        Err(Error::IllegalPercentEncoding),
        decode_element("abc%", &set, Context::Path)
    );
    assert_eq!(
        Err(Error::IllegalPercentEncoding),
        decode_element("%%41", &set, Context::Path)
    );
    // the first error in the text is the one reported
    assert_eq!(
        Err(Error::IllegalCharacter(Context::Path)),
        decode_element("a b%GG", &set, Context::Path)
    );
    assert_eq!(
        Err(Error::IllegalPercentEncoding),
        decode_element("a%GG b", &set, Context::Path)
    );
}

#[test]
fn encode_escapes_what_is_not_allowed() {
    let set = pchar_not_pct_encoded();
    assert_eq!("hello,%20world", encode_element(b"hello, world", &set));
    assert_eq!("", encode_element(b"", &set));
    assert_eq!("%00%01%0A%7F%80%FF", encode_element(&[0, 1, 10, 127, 128, 255], &set));
    assert_eq!("%25", encode_element(b"%", &set));
    assert_eq!("a%2Fb", encode_element(b"a/b", &set));
    assert_eq!(
        "a/b",
        encode_element(b"a/b", &query_or_fragment_not_pct_encoded())
    );
    assert_eq!("%41", encode_element(b"A", &CharacterSet::new()));
}

#[test]
fn decoding_what_was_encoded_gives_the_bytes_back() {
    let all: Vec<u8> = (0..=255u8).collect();
    let sets = [
        CharacterSet::new(),
        alpha(),
        pchar_not_pct_encoded(),
        query_not_pct_encoded_without_plus(),
        reg_name_not_pct_encoded(),
        CharacterSet::new().with_range(0, 127).without(b'%'),
    ];
    for set in &sets {
        let encoded = encode_element(&all, set);
        assert_eq!(Ok(all.clone()), decode_element(&encoded, set, Context::Path));
        let text = b"100% of it, \xe1\x88\xb4!".to_vec();
        let encoded = encode_element(&text, set);
        assert_eq!(Ok(text), decode_element(&encoded, set, Context::Path));
    }
}

#[test]
fn a_set_that_allows_the_percent_sign_does_not_round_trip_it() {
    let set = CharacterSet::new().with(b'%').with(b'4').with(b'1');
    assert_eq!("%41", encode_element(b"%41", &set));
    assert_eq!(Ok(b"A".to_vec()), decode_element("%41", &set, Context::Path));
}
