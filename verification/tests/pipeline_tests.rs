use calculator::evaluate;
use calculator::lex::{shunting_yard, tokenize};
use calculator::tree::build_tree;
use calculator::value::Value;
use calculator::EvalError;

#[test]
fn evaluates_parenthesized_sum() {
    assert_eq!(evaluate("(10+5)").unwrap(), Value::Integer(15));
}

#[test]
fn evaluates_mixed_precedence() {
    assert_eq!(
        evaluate("((10 * 2) / 4 + (2 * 4) * 2)").unwrap(),
        Value::Integer(21)
    );
}

#[test]
fn evaluates_unary_minus_operands() {
    assert_eq!(evaluate("-10 + -5").unwrap(), Value::Integer(-15));
    assert_eq!(evaluate("- -5").unwrap(), Value::Integer(5));
}

#[test]
fn division_by_zero_is_reported() {
    assert_eq!(evaluate("1/0").unwrap_err(), EvalError::DivisionByZero);
}

#[test]
fn unmatched_paren_is_reported() {
    assert_eq!(evaluate("(1+2").unwrap_err(), EvalError::ParseError);
    assert_eq!(evaluate("1+2)").unwrap_err(), EvalError::ParseError);
}

#[test]
fn renders_thirds_and_whole() {
    assert_eq!(evaluate("1/3").unwrap().to_display_string(), "0 (1 / 3)");
    assert_eq!(evaluate("3/3").unwrap().to_display_string(), "1");
}

#[test]
fn renders_signs_and_mixed_numbers() {
    assert_eq!(evaluate("0 - 1/2").unwrap().to_display_string(), "0 (-1 / 2)");
    assert_eq!(evaluate("7/2").unwrap().to_display_string(), "3 (1 / 2)");
    assert_eq!(evaluate("0-7/2").unwrap().to_display_string(), "-3 (-1 / 2)");
    assert_eq!(evaluate("0-12").unwrap().to_display_string(), "-12");
}

#[test]
fn postfix_reevaluates_to_same_result() {
    let source = "((15 / (7 -(1 + 1))) * 3) - (2 + (1 + 1))";
    let postfix = shunting_yard(tokenize(source).unwrap()).unwrap();
    let rebuilt = build_tree(postfix).unwrap();
    assert_eq!(rebuilt.evaluate().unwrap(), Value::Integer(5));
    assert_eq!(evaluate(source).unwrap(), Value::Integer(5));
}

#[test]
fn malformed_literal_is_lex_error() {
    assert_eq!(evaluate("1.2.3").unwrap_err(), EvalError::LexError);
    assert_eq!(evaluate(".").unwrap_err(), EvalError::LexError);
}

#[test]
fn empty_input_is_lex_error() {
    assert_eq!(evaluate("").unwrap_err(), EvalError::LexError);
    assert_eq!(evaluate("   ").unwrap_err(), EvalError::LexError);
    assert_eq!(evaluate("hello").unwrap_err(), EvalError::LexError);
}

#[test]
fn unrecognized_characters_are_dropped() {
    assert_eq!(evaluate("1a0 x+ 5y").unwrap(), Value::Integer(15));
}

#[test]
fn integer_overflow_is_reported() {
    assert_eq!(
        evaluate("9223372036854775807 + 1").unwrap_err(),
        EvalError::ArithmeticOverflow
    );
    assert_eq!(
        evaluate("99999999999999999999999999999999999999999").unwrap_err(),
        EvalError::ArithmeticOverflow
    );
    assert_eq!(evaluate("9223372036854775807").unwrap(), Value::Integer(i64::MAX));
}

#[test]
fn exact_decimal_literals() {
    assert_eq!(
        evaluate("13.5").unwrap(),
        Value::Rational {
            quotient: 13,
            remainder: 1,
            divisor: 2
        }
    );
    assert_eq!(
        evaluate("0.1").unwrap(),
        Value::Rational {
            quotient: 0,
            remainder: 1,
            divisor: 10
        }
    );
    assert_eq!(evaluate(".5 + .5").unwrap(), Value::Integer(1));
    assert_eq!(evaluate("2.").unwrap(), Value::Integer(2));
}

#[test]
fn division_reduces_to_lowest_terms() {
    assert_eq!(
        evaluate("2/4").unwrap(),
        Value::Rational {
            quotient: 0,
            remainder: 1,
            divisor: 2
        }
    );
    assert_eq!(
        evaluate("25/10").unwrap(),
        Value::Rational {
            quotient: 2,
            remainder: 1,
            divisor: 2
        }
    );
    assert_eq!(evaluate("1/3 + 1/3 + 1/3").unwrap(), Value::Integer(1));
    assert_eq!(
        evaluate("1/3 * 3/5").unwrap(),
        Value::Rational {
            quotient: 0,
            remainder: 1,
            divisor: 5
        }
    );
}

#[test]
fn simplify_normalizes_fractions() {
    let v = Value::Rational {
        quotient: 0,
        remainder: 4,
        divisor: 8,
    };
    assert_eq!(
        v.simplify().unwrap(),
        Value::Rational {
            quotient: 0,
            remainder: 1,
            divisor: 2
        }
    );

    let v = Value::Rational {
        quotient: 0,
        remainder: 5,
        divisor: 5,
    };
    assert_eq!(v.simplify().unwrap(), Value::Integer(1));

    let v = Value::Rational {
        quotient: 1,
        remainder: 7,
        divisor: 2,
    };
    assert_eq!(
        v.simplify().unwrap(),
        Value::Rational {
            quotient: 4,
            remainder: 1,
            divisor: 2
        }
    );

    // A negative divisor is normalized away.
    let v = Value::Rational {
        quotient: 0,
        remainder: 1,
        divisor: -2,
    };
    assert_eq!(
        v.simplify().unwrap(),
        Value::Rational {
            quotient: 0,
            remainder: -1,
            divisor: 2
        }
    );

    assert_eq!(Value::Integer(42).simplify().unwrap(), Value::Integer(42));
}

#[test]
fn simplify_is_idempotent_on_samples() {
    let samples = [
        Value::Rational {
            quotient: 0,
            remainder: 4,
            divisor: 8,
        },
        Value::Rational {
            quotient: 3,
            remainder: 14,
            divisor: 4,
        },
        Value::Rational {
            quotient: -2,
            remainder: -6,
            divisor: 9,
        },
        Value::Integer(-7),
    ];
    for v in samples {
        let once = v.simplify().unwrap();
        assert_eq!(once.simplify().unwrap(), once);
    }
}

#[test]
fn add_and_mul_commute_on_integers() {
    let pairs = [(3i64, 5i64), (-4, 9), (0, 7), (i64::MAX, 1)];
    for (x, y) in pairs {
        let a = Value::Integer(x);
        let b = Value::Integer(y);
        assert_eq!(a.plus(b), b.plus(a));
        assert_eq!(a.times(b), b.times(a));
    }
}

#[test]
fn add_and_mul_associate_on_integers() {
    let triples = [(2i64, 3i64, 4i64), (-10, 25, 7)];
    for (x, y, z) in triples {
        let xy = Value::Integer(x).plus(Value::Integer(y)).unwrap();
        let yz = Value::Integer(y).plus(Value::Integer(z)).unwrap();
        assert_eq!(
            xy.plus(Value::Integer(z)).unwrap(),
            Value::Integer(x).plus(yz).unwrap()
        );
        let xy = Value::Integer(x).times(Value::Integer(y)).unwrap();
        let yz = Value::Integer(y).times(Value::Integer(z)).unwrap();
        assert_eq!(
            xy.times(Value::Integer(z)).unwrap(),
            Value::Integer(x).times(yz).unwrap()
        );
    }
}

#[test]
fn integer_division_law_on_samples() {
    // Divisible: the exact integer comes back.
    assert_eq!(evaluate("84/7").unwrap(), Value::Integer(12));
    // Not divisible: a proper reduced fraction comes back.
    match evaluate("17/6").unwrap() {
        Value::Rational {
            quotient,
            remainder,
            divisor,
        } => {
            assert_eq!(quotient, 2);
            assert_eq!(remainder, 5);
            assert_eq!(divisor, 6);
        }
        other => panic!("expected a fraction, got {:?}", other),
    }
}

#[test]
fn negation_at_the_64_bit_edge() {
    // The most negative integer is representable ...
    assert_eq!(
        evaluate("0 - 9223372036854775807 - 1").unwrap(),
        Value::Integer(i64::MIN)
    );
    // ... but its opposite is not.
    assert_eq!(
        evaluate("0 - (0 - 9223372036854775807 - 1)").unwrap_err(),
        EvalError::ArithmeticOverflow
    );
    // A literal one past i64::MAX overflows before unary minus applies.
    assert_eq!(
        evaluate("-9223372036854775808").unwrap_err(),
        EvalError::ArithmeticOverflow
    );
}

#[test]
fn oversized_expressions_are_rejected() {
    let mut big = String::from("1");
    for _ in 0..4100 {
        big.push_str("+1");
    }
    assert_eq!(evaluate(&big).unwrap_err(), EvalError::ParseError);
    assert_eq!(evaluate("1+1+1+1").unwrap(), Value::Integer(4));
}

#[test]
fn fractions_carry_through_mixed_arithmetic() {
    // 1/2 + 1/3 == 5/6
    assert_eq!(
        evaluate("1/2 + 1/3").unwrap(),
        Value::Rational {
            quotient: 0,
            remainder: 5,
            divisor: 6
        }
    );
    // 7/3 - 1/6 == 13/6 == 2 + 1/6
    assert_eq!(
        evaluate("7/3 - 1/6").unwrap(),
        Value::Rational {
            quotient: 2,
            remainder: 1,
            divisor: 6
        }
    );
    // (2 + 1/2) * (1 + 1/3) == 10/3
    assert_eq!(
        evaluate("(5/2) * (4/3)").unwrap(),
        Value::Rational {
            quotient: 3,
            remainder: 1,
            divisor: 3
        }
    );
    // (1/2) / (1/3) == 3/2
    assert_eq!(
        evaluate("(1/2) / (1/3)").unwrap(),
        Value::Rational {
            quotient: 1,
            remainder: 1,
            divisor: 2
        }
    );
}
