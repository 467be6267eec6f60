use rhymuri::percent_encoded_character_decoder::PercentEncodedCharacterDecoder;
use rhymuri::Error;

#[test]
fn good_sequences() {
    let test_vectors: &[([char; 2], u8)] = &[
        (['4', '1'], b'A'),
        (['5', 'A'], b'Z'),
        (['6', 'e'], b'n'),
        (['e', '1'], b'\xe1'),
        (['C', 'A'], b'\xca'),
    ];
    for (sequence, expected_output) in test_vectors {
        let mut pec = PercentEncodedCharacterDecoder::new();
        assert_eq!(Ok(None), pec.next(sequence[0]));
        assert_eq!(Ok(Some(*expected_output)), pec.next(sequence[1]));
    }
}

#[test]
fn bad_sequences() {
    let test_vectors = ['G', 'g', '.', 'z', '-', ' ', 'V'];
    for test_vector in &test_vectors {
        let mut pec = PercentEncodedCharacterDecoder::new();
        assert!(pec.next(*test_vector).is_err());
    }
}

#[test]
fn decoder_starts_over_after_an_error() {
    let mut pec = PercentEncodedCharacterDecoder::new();
    assert_eq!(Ok(None), pec.next('4'));
    assert_eq!(Err(Error::IllegalPercentEncoding), pec.next('x'));
    assert_eq!(Ok(None), pec.next('4'));
    assert_eq!(Ok(Some(b'A')), pec.next('1'));
    assert_eq!(Ok(None), pec.next('0'));
    assert_eq!(Ok(Some(0)), pec.next('0'));
    assert_eq!(Ok(None), pec.next('f'));
    assert_eq!(Ok(Some(255)), pec.next('F'));
}

#[test]
fn decoder_refuses_digits_that_are_not_ascii() {
    let mut pec = PercentEncodedCharacterDecoder::new();
    assert_eq!(Err(Error::IllegalPercentEncoding), pec.next('\u{ff11}'));
    assert_eq!(Err(Error::IllegalPercentEncoding), pec.next('\u{e9}'));
}
