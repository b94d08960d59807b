use bloodbath::interpreter::Bloodbath;
use bloodbath::interpreter::ParserError;
use bloodbath::object::FunctionImplementation;
use bloodbath::object::Object;
use bloodbath::reader::ReaderError;

#[test]
fn test_noop_absorbs_arithmetic() {
    let noop = Object::Noop;
    let values = [
        Object::Noop,
        Object::Integer(0),
        Object::Integer(-7),
        Object::Float((1.5f64).to_bits()),
        Object::Function {
            argument_count: 2,
            implementation: FunctionImplementation::Division,
        },
    ];
    for value in values {
        assert_eq!(bloodbath::builtins::add(vec![noop, value]), Object::Noop);
        assert_eq!(bloodbath::builtins::add(vec![value, noop]), Object::Noop);
        assert_eq!(bloodbath::builtins::sub(vec![noop, value]), Object::Noop);
        assert_eq!(bloodbath::builtins::sub(vec![value, noop]), Object::Noop);
        assert_eq!(bloodbath::builtins::mul(vec![noop, value]), Object::Noop);
        assert_eq!(bloodbath::builtins::mul(vec![value, noop]), Object::Noop);
        assert_eq!(bloodbath::builtins::div(vec![noop, value]), Object::Noop);
        assert_eq!(bloodbath::builtins::div(vec![value, noop]), Object::Noop);
    }
}

#[test]
fn test_division_coercion() {
    assert_eq!(
        bloodbath::builtins::div(vec![Object::Integer(6), Object::Integer(3)]),
        Object::Integer(2)
    );
    assert_eq!(
        bloodbath::builtins::div(vec![Object::Integer(7), Object::Integer(2)]),
        Object::Float((3.5f64).to_bits())
    );

    let mut bloodbath = Bloodbath::new();
    assert_eq!(bloodbath.eval_str("/ 6 3"), Ok(Object::Integer(2)));
    assert_eq!(
        bloodbath.eval_str("/ 7 2"),
        Ok(Object::Float((3.5f64).to_bits()))
    );
    assert_eq!(bloodbath.eval_str("/ -6 3"), Ok(Object::Integer(-2)));
    assert_eq!(bloodbath.eval_str("/ -6 -3"), Ok(Object::Integer(2)));
}

#[test]
fn test_division_by_zero_yields_noop() {
    let mut bloodbath = Bloodbath::new();
    assert_eq!(bloodbath.eval_str("/ 1 0"), Ok(Object::Noop));
    assert_eq!(bloodbath.eval_str("/ 0 0"), Ok(Object::Noop));
}

#[test]
fn test_overflowing_quotient_wraps() {
    assert_eq!(
        bloodbath::builtins::div(vec![Object::Integer(i64::MIN), Object::Integer(-1)]),
        Object::Integer(i64::MIN)
    );
}

#[test]
fn test_integer_arithmetic_wraps() {
    let mut bloodbath = Bloodbath::new();
    assert_eq!(
        bloodbath.eval_str("+ 9223372036854775807 1"),
        Ok(Object::Integer(i64::MIN))
    );
    assert_eq!(
        bloodbath.eval_str("- -9223372036854775808 1"),
        Ok(Object::Integer(i64::MAX))
    );
}

#[test]
fn test_float_coercion_through_eval() {
    let mut bloodbath = Bloodbath::new();
    assert_eq!(
        bloodbath.eval_str("+ 0.5 0.25"),
        Ok(Object::Float((0.75f64).to_bits()))
    );
    assert_eq!(
        bloodbath.eval_str("- 1 0.5"),
        Ok(Object::Float((0.5f64).to_bits()))
    );
    assert_eq!(
        bloodbath.eval_str("* 0.5 4"),
        Ok(Object::Float((2.0f64).to_bits()))
    );
    assert_eq!(
        bloodbath.eval_str("/ 1 4"),
        Ok(Object::Float((0.25f64).to_bits()))
    );
}

#[test]
fn test_zero_is_truthy() {
    let mut bloodbath = Bloodbath::new();
    assert_eq!(
        bloodbath.eval_str("if 0 then 1 else 2"),
        Ok(Object::Integer(1))
    );
    assert_eq!(
        bloodbath.eval_str("if 0.0 then 1 else 2"),
        Ok(Object::Integer(1))
    );
    assert_eq!(
        bloodbath.eval_str("if noop then 1 else 2"),
        Ok(Object::Integer(2))
    );
}

#[test]
fn test_arity_directed_parsing() {
    let mut bloodbath = Bloodbath::new();

    // A one-argument verb consumes one following expression: the second
    // literal is a separate top-level expression and becomes the result.
    bloodbath.register(&"f".to_string(), 1, FunctionImplementation::Addition);
    assert_eq!(bloodbath.eval_str("f 5 7"), Ok(Object::Integer(7)));

    // Rebinding the same name to a two-argument verb makes the very same
    // tokens parse as one call.
    assert_eq!(
        bloodbath.eval_str("set f identity +"),
        bloodbath.eval_str("identity f")
    );
    assert_eq!(bloodbath.eval_str("f 5 7"), Ok(Object::Integer(12)));
}

#[test]
fn test_auto_vivification() {
    let mut bloodbath = Bloodbath::new();
    assert_eq!(bloodbath.eval_str("never_set"), Ok(Object::Noop));
    assert_eq!(bloodbath.eval_str("never_set"), Ok(Object::Noop));
    assert_eq!(
        bloodbath.eval_str("if never_set then 1 else 2"),
        Ok(Object::Integer(2))
    );
}

#[test]
fn test_sequencing() {
    let mut bloodbath = Bloodbath::new();
    assert_eq!(bloodbath.eval_str("{1 2 3}"), Ok(Object::Integer(3)));
    assert_eq!(bloodbath.eval_str("{}"), Ok(Object::Noop));
    assert_eq!(bloodbath.eval_str(""), Ok(Object::Noop));
    assert_eq!(bloodbath.eval_str("1 + 1 1"), Ok(Object::Integer(2)));
}

#[test]
fn test_end_to_end_scenarios() {
    let mut bloodbath = Bloodbath::new();
    assert_eq!(bloodbath.eval_str("+ 1 2"), Ok(Object::Integer(3)));
    assert_eq!(bloodbath.eval_str("set a 10"), Ok(Object::Integer(10)));
    assert_eq!(bloodbath.eval_str("+ a a"), Ok(Object::Integer(20)));
    assert_eq!(bloodbath.eval_str("if noop then 42"), Ok(Object::Noop));
    assert_eq!(
        bloodbath.eval_str("identity +"),
        Ok(Object::Function {
            argument_count: 2,
            implementation: FunctionImplementation::Addition,
        })
    );
}

#[test]
fn test_parse_errors() {
    let mut bloodbath = Bloodbath::new();
    assert_eq!(
        bloodbath.eval_str("["),
        Err(ParserError::ReadingFailed(ReaderError::UnexpectedCharacter(
            '['
        )))
    );
    assert_eq!(
        bloodbath.eval_str("1x"),
        Err(ParserError::ReadingFailed(ReaderError::ExpectedADigit('x')))
    );
    assert_eq!(
        bloodbath.eval_str("+ 1"),
        Err(ParserError::ExpectedAnExpression(
            "Expected 2 arguments after `+`, got 1".to_string()
        ))
    );
    assert_eq!(
        bloodbath.eval_str("set 5 3"),
        Err(ParserError::ExpectedAnIdentifier(
            "`set` must be followed by a variable name and the variable's new value".to_string()
        ))
    );
    assert_eq!(
        bloodbath.eval_str("set a"),
        Err(ParserError::ExpectedAnExpression(
            "`set` must be followed by a variable name and the variable's new value".to_string()
        ))
    );
    assert_eq!(
        bloodbath.eval_str("if 1 2"),
        Err(ParserError::ExpectedAnIdentifier("Keyword `then`".to_string()))
    );
    assert_eq!(
        bloodbath.eval_str("identity"),
        Err(ParserError::ExpectedAnExpression(
            "`identity` must be followed by a constant or a variable name".to_string()
        ))
    );
    assert_eq!(
        bloodbath.eval_str("identity {"),
        Err(ParserError::UnexpectedBrace)
    );
    assert_eq!(
        bloodbath.eval_str("{1 2"),
        Err(ParserError::UnterminatedCompoundExpression)
    );
    assert_eq!(bloodbath.eval_str("}"), Err(ParserError::UnexpectedBrace));
}

#[test]
fn test_partial_effects_survive_an_error() {
    let mut bloodbath = Bloodbath::new();
    assert!(bloodbath.eval_str("set a 1 + a").is_err());
    assert_eq!(bloodbath.eval_str("a"), Ok(Object::Integer(1)));
}
