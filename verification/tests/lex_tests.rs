use calculator::lex::{precedence, shunting_yard, tokenize, Operator, Paren, Token};
use calculator::value::Value;

#[test]
fn test_tokenize() {
    // Basic
    let tokens = vec![
        Token::new("(").unwrap(),
        Token::new("10").unwrap(),
        Token::new("+").unwrap(),
        Token::new("5").unwrap(),
        Token::new(")").unwrap(),
    ];
    assert!(tokens == tokenize("(10+5)").unwrap());

    // Complex
    let tokens = vec![
        Token::new("(").unwrap(),
        Token::new("(").unwrap(),
        Token::new("10").unwrap(),
        Token::new("*").unwrap(),
        Token::new("2").unwrap(),
        Token::new(")").unwrap(),
        Token::new("/").unwrap(),
        Token::new("4").unwrap(),
        Token::new("+").unwrap(),
        Token::new("(").unwrap(),
        Token::new("2").unwrap(),
        Token::new("*").unwrap(),
        Token::new("4").unwrap(),
        Token::new(")").unwrap(),
        Token::new("*").unwrap(),
        Token::new("2").unwrap(),
        Token::new(")").unwrap(),
    ];
    assert!(tokens == tokenize("((10 * 2) / 4 + (2 * 4) * 2)").unwrap());

    // No parens
    let tokens = vec![
        Token::new("10").unwrap(),
        Token::new("+").unwrap(),
        Token::new("5").unwrap(),
    ];
    assert!(tokens == tokenize("10 + 5").unwrap());

    // Unary minus
    let tokens = vec![
        Token::new("u").unwrap(),
        Token::new("10").unwrap(),
        Token::new("+").unwrap(),
        Token::new("u").unwrap(),
        Token::new("5").unwrap(),
    ];
    assert!(tokens == tokenize("-10 + -5").unwrap());
}

#[test]
fn test_shunting_yard() {
    let tokens = tokenize("((15 / (7 -(1 + 1))) * 3) - (2 + (1 + 1))").unwrap();
    let expected = vec![
        Token::new("15").unwrap(),
        Token::new("7").unwrap(),
        Token::new("1").unwrap(),
        Token::new("1").unwrap(),
        Token::new("+").unwrap(),
        Token::new("-").unwrap(),
        Token::new("/").unwrap(),
        Token::new("3").unwrap(),
        Token::new("*").unwrap(),
        Token::new("2").unwrap(),
        Token::new("1").unwrap(),
        Token::new("1").unwrap(),
        Token::new("+").unwrap(),
        Token::new("+").unwrap(),
        Token::new("-").unwrap(),
    ];

    assert_eq!(shunting_yard(tokens).unwrap(), expected);

    // unary minus
    let tokens = tokenize("-10 + 5").unwrap();
    let expected = vec![
        Token::new("10").unwrap(),
        Token::new("u").unwrap(),
        Token::new("5").unwrap(),
        Token::new("+").unwrap(),
    ];
    assert_eq!(shunting_yard(tokens).unwrap(), expected);
}

#[test]
fn test_operator_evaluate() {
    assert_eq!(
        Operator::Add.evaluate(1.into(), 10.into()).unwrap(),
        Value::from(1 + 10)
    );
    assert_eq!(
        Operator::Add.evaluate(15.into(), 15.into()).unwrap(),
        Value::from(15 + 15)
    );
    assert_eq!(
        Operator::Add.evaluate(10.into(), 20.into()).unwrap(),
        Value::from(10 + 20)
    );

    assert_eq!(
        Operator::Sub.evaluate(1.into(), 10.into()).unwrap(),
        Value::from(1 - 10)
    );
    assert_eq!(
        Operator::Sub.evaluate(15.into(), 15.into()).unwrap(),
        Value::from(15 - 15)
    );
    assert_eq!(
        Operator::Sub.evaluate(10.into(), 20.into()).unwrap(),
        Value::from(10 - 20)
    );

    assert_eq!(
        Operator::Mul.evaluate(1.into(), 10.into()).unwrap(),
        Value::from(1 * 10)
    );
    assert_eq!(
        Operator::Mul.evaluate(15.into(), 15.into()).unwrap(),
        Value::from(15 * 15)
    );
    assert_eq!(
        Operator::Mul.evaluate(10.into(), 20.into()).unwrap(),
        Value::from(10 * 20)
    );

    // 1 / 10 is the exact tenth.
    assert_eq!(
        Operator::Div.evaluate(1.into(), 10.into()).unwrap(),
        Value::Rational {
            quotient: 0,
            remainder: 1,
            divisor: 10
        }
    );
    assert_eq!(
        Operator::Div.evaluate(15.into(), 15.into()).unwrap(),
        Value::from(1)
    );
    // 10 / 20 simplifies to one half.
    assert_eq!(
        Operator::Div.evaluate(10.into(), 20.into()).unwrap(),
        Value::Rational {
            quotient: 0,
            remainder: 1,
            divisor: 2
        }
    );

    assert_eq!(
        Operator::USub.evaluate(0.into(), 10.into()).unwrap(),
        Value::from(-10)
    );
    assert_eq!(
        Operator::USub.evaluate(0.into(), 15.into()).unwrap(),
        Value::from(-15)
    );
    assert_eq!(
        Operator::USub.evaluate(0.into(), 10.into()).unwrap(),
        Value::from(-10)
    );
}

#[test]
fn operator_chars_round_trip() {
    for op in [
        Operator::Add,
        Operator::Sub,
        Operator::Mul,
        Operator::Div,
        Operator::USub,
    ] {
        assert_eq!(Operator::from_char(op.to_char()), Some(op));
    }
    assert_eq!(Operator::from_char('%'), None);
}

#[test]
fn paren_chars_round_trip() {
    assert_eq!(Paren::from_char('('), Some(Paren::Left));
    assert_eq!(Paren::from_char(')'), Some(Paren::Right));
    assert_eq!(Paren::from_char('x'), None);
    assert_eq!(Paren::Left.to_char(), '(');
    assert_eq!(Paren::Right.to_char(), ')');
}

#[test]
fn precedence_ranks() {
    assert_eq!(precedence(&Token::new("+").unwrap()), 2);
    assert_eq!(precedence(&Token::new("-").unwrap()), 2);
    assert_eq!(precedence(&Token::new("*").unwrap()), 3);
    assert_eq!(precedence(&Token::new("/").unwrap()), 3);
    assert_eq!(precedence(&Token::new("u").unwrap()), 5);
    assert_eq!(precedence(&Token::new("(").unwrap()), 0);
}
