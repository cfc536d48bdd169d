use num_bigint::BigInt;
use num_rational::BigRational;
use num_traits::{FromPrimitive, ToPrimitive};
use unitdc::parsing::parse_bigrational;
use unitdc::rational::Rational;
use unitdc::tokenizer::{Token, Tokenizer, TokenizerError};

fn big(r: &Rational) -> BigRational {
    let (n, d) = r.to_bytes();
    BigRational::new(BigInt::from_signed_bytes_le(&n), BigInt::from_signed_bytes_le(&d))
}

fn roughly_eq(token: &Token, expected: &BigRational) -> bool {
    match token {
        Token::Number(n) => big(n).to_f64().unwrap() == expected.to_f64().unwrap(),
        _ => false,
    }
}

#[test]
fn test_tokenizer() {
    let input = "1 2e3+ 3.4e5* (g) 4.5(ml) / 6_789 + 3.14";
    let mut tokenizer = Tokenizer::new(input);
    assert!(roughly_eq(
        &tokenizer.parse_next_token().unwrap().unwrap(),
        &BigRational::from_i64(1).expect("Failed to parse number")
    ));
    assert!(roughly_eq(
        &tokenizer.parse_next_token().unwrap().unwrap(),
        &BigRational::from_i64(2e3 as i64).expect("Failed to parse number")
    ));
    assert!(matches!(tokenizer.parse_next_token().unwrap().unwrap(), Token::Add));
    assert!(roughly_eq(
        &tokenizer.parse_next_token().unwrap().unwrap(),
        &BigRational::from_f64(3.4e5).expect("Failed to parse number")
    ));
    assert!(matches!(tokenizer.parse_next_token().unwrap().unwrap(), Token::Mul));
    match tokenizer.parse_next_token().unwrap().unwrap() {
        Token::Unit(u) => assert_eq!(u, "g".to_string()),
        other => panic!("unexpected {:?}", other),
    }
    assert!(roughly_eq(
        &tokenizer.parse_next_token().unwrap().unwrap(),
        &BigRational::from_f64(4.5).expect("Failed to parse number")
    ));
    match tokenizer.parse_next_token().unwrap().unwrap() {
        Token::Unit(u) => assert_eq!(u, "ml".to_string()),
        other => panic!("unexpected {:?}", other),
    }
    assert!(matches!(tokenizer.parse_next_token().unwrap().unwrap(), Token::Div));
    assert!(roughly_eq(
        &tokenizer.parse_next_token().unwrap().unwrap(),
        &BigRational::from_i64(6789).expect("Failed to parse number")
    ));
    assert!(matches!(tokenizer.parse_next_token().unwrap().unwrap(), Token::Add));
    #[allow(clippy::approx_constant)]
    let pi_ish = BigRational::from_f64(3.14).expect("Failed to parse number");
    assert!(roughly_eq(&tokenizer.parse_next_token().unwrap().unwrap(), &pi_ish));
}

fn exact(s: &str, n: i64, d: i64) -> bool {
    big(&parse_bigrational(s).unwrap()) == BigRational::new(BigInt::from(n), BigInt::from(d))
}

#[test]
fn literals_are_exact() {
    assert!(exact("3.14", 157, 50));
    assert!(exact("273.15", 5463, 20));
    assert!(exact("1e3", 1000, 1));
    assert!(exact("25e-1", 5, 2));
    assert!(exact("-1_000.5", -2001, 2));
    assert!(exact("0.000", 0, 1));
    assert!(exact("12E2", 1200, 1));
    assert!(exact("_", 0, 1));
    assert!(exact("0e3000000000", 0, 1));
    assert!(exact("-0.0e-3000000000", 0, 1));
    assert!(exact("5e-18", 1, 200_000_000_000_000_000));
    let big_one = big(&parse_bigrational("1e40").unwrap());
    let ten: BigInt = BigInt::from(10);
    assert_eq!(big_one, BigRational::from_integer(num_traits::Pow::pow(ten, 40u32)));
}

#[test]
fn literal_errors() {
    assert_eq!(parse_bigrational("1.2.3").unwrap_err(), TokenizerError::InvalidCharacter('.'));
    assert_eq!(parse_bigrational("1e2e3").unwrap_err(), TokenizerError::InvalidCharacter('e'));
    assert_eq!(parse_bigrational("1-2").unwrap_err(), TokenizerError::InvalidCharacter('-'));
    assert_eq!(parse_bigrational("1x").unwrap_err(), TokenizerError::InvalidCharacter('x'));
}

#[test]
fn other_tokens() {
    let mut t = Tokenizer::new("@base( m ) >x <y # note\n p U (km");
    match t.parse_next_token().unwrap().unwrap() {
        Token::MacroInvoke((name, arg)) => {
            assert_eq!(name, "base");
            assert_eq!(arg, " m ");
        }
        other => panic!("unexpected {:?}", other),
    }
    match t.parse_next_token().unwrap().unwrap() {
        Token::VarStore(x) => assert_eq!(x, "x"),
        other => panic!("unexpected {:?}", other),
    }
    match t.parse_next_token().unwrap().unwrap() {
        Token::VarRecall(x) => assert_eq!(x, "y"),
        other => panic!("unexpected {:?}", other),
    }
    match t.parse_next_token().unwrap().unwrap() {
        Token::Comment(x) => assert_eq!(x, " note"),
        other => panic!("unexpected {:?}", other),
    }
    assert!(matches!(t.parse_next_token().unwrap().unwrap(), Token::Operator('p')));
    assert!(matches!(t.parse_next_token().unwrap().unwrap(), Token::Operator('U')));
    match t.parse_next_token().unwrap().unwrap() {
        Token::Unit(x) => assert_eq!(x, "km"),
        other => panic!("unexpected {:?}", other),
    }
    assert!(t.parse_next_token().unwrap().is_none());
    let mut bad = Tokenizer::new("(k-m)");
    assert_eq!(bad.parse_next_token().unwrap_err(), TokenizerError::InvalidCharacter('-'));
}
