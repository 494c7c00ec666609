use gmml::error::LexError;
use gmml::numeral::Numeral;

#[test]
fn numeral_accepts_digits_and_one_point() {
    assert_eq!(Numeral::parse("123.45").unwrap().as_str(), "123.45");
    assert_eq!(Numeral::parse("7.").unwrap().as_str(), "7.");
    assert_eq!(Numeral::parse("0").unwrap().as_str(), "0");
}

#[test]
fn numeral_rejects_everything_else() {
    assert_eq!(Numeral::parse(""), Err(LexError::InvalidNumber));
    assert_eq!(Numeral::parse(".5"), Err(LexError::InvalidNumber));
    assert_eq!(Numeral::parse("1.2.3"), Err(LexError::InvalidNumber));
    assert_eq!(Numeral::parse("12a"), Err(LexError::InvalidNumber));
}
