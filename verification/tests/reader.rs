use bloodbath::reader::integer_to_text;
use bloodbath::reader::Reader;
use bloodbath::reader::ReaderError;
use bloodbath::reader::Token;

#[test]
fn test_reader() {
    let tokens = Reader::new("+ + 0.5 -1.0 -1".into()).tokenise().unwrap();

    assert_eq!(tokens.len(), 5);

    assert_eq!(tokens[0], Token::Identifier("+".into()));
    assert_eq!(tokens[1], Token::Identifier("+".into()));

    assert_eq!(tokens[4], Token::IntegerConstant(-1));

    match tokens[2] {
        Token::FloatConstant(value) => assert!((f64::from_bits(value) - 0.5).abs() <= 1e-3),
        _ => unreachable!(),
    }

    match tokens[3] {
        Token::FloatConstant(value) => assert!((f64::from_bits(value) + 1.0).abs() <= 1e-3),
        _ => unreachable!(),
    }

    let tokens = Reader::new("set a noop set b a".into()).tokenise().unwrap();

    assert_eq!(tokens.len(), 6);

    for (index, expected_value) in ["set", "a", "noop", "set", "b", "a"].iter().enumerate() {
        assert_eq!(tokens[index], Token::Identifier(expected_value.to_string()));
    }
}

#[test]
fn test_float_literal_is_bit_exact() {
    // 2.5 is computed as 1 * (2 + 5 / 10), every step exact in IEEE 754,
    // so the token must carry exactly the bits of 2.5.
    let tokens = Reader::new("2.5".into()).tokenise().unwrap();
    assert_eq!(tokens, vec![Token::FloatConstant((2.5f64).to_bits())]);

    let tokens = Reader::new("-0.25".into()).tokenise().unwrap();
    assert_eq!(tokens, vec![Token::FloatConstant((-0.25f64).to_bits())]);
}

#[test]
fn test_braces_are_single_character_identifiers() {
    let tokens = Reader::new("{1 2 3}".into()).tokenise().unwrap();
    assert_eq!(
        tokens,
        vec![
            Token::Identifier("{".into()),
            Token::IntegerConstant(1),
            Token::IntegerConstant(2),
            Token::IntegerConstant(3),
            Token::Identifier("}".into()),
        ]
    );
}

#[test]
fn test_integer_round_trip() {
    for n in [0i64, 7, 10, -1, -42, 1000000007, i64::MAX, i64::MIN] {
        let text = integer_to_text(n);
        let tokens = Reader::new(text).tokenise().unwrap();
        assert_eq!(tokens, vec![Token::IntegerConstant(n)]);
    }
    assert_eq!(integer_to_text(-42).as_str(), "-42");
    assert_eq!(integer_to_text(i64::MIN).as_str(), "-9223372036854775808");
}

#[test]
fn test_reader_errors() {
    assert_eq!(
        Reader::new("[".into()).tokenise(),
        Err(ReaderError::UnexpectedCharacter('['))
    );
    assert_eq!(
        Reader::new("1x".into()).tokenise(),
        Err(ReaderError::ExpectedADigit('x'))
    );
    assert_eq!(Reader::new("-".into()).tokenise(), Err(ReaderError::EoF));
    assert_eq!(Reader::new(" ".into()).tokenise(), Err(ReaderError::EoF));
    assert_eq!(Reader::new("".into()).tokenise(), Ok(vec![]));
}
