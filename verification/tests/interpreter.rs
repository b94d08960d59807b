use bloodbath::interpreter::Bloodbath;
use bloodbath::object::Object;

#[test]
fn test_eval() {
    let mut bloodbath = Bloodbath::new();

    assert_eq!(bloodbath.eval_str("noop"), Ok(Object::Noop),);
    assert_eq!(bloodbath.eval_str("identity 1"), Ok(Object::Integer(1)));
    assert_eq!(bloodbath.eval_str("+ 1 2"), Ok(Object::Integer(3)));
    assert_eq!(bloodbath.eval_str("+ 1 + 1 1"), Ok(Object::Integer(3)));
    assert_eq!(bloodbath.eval_str("+ + 1 1 1"), Ok(Object::Integer(3)));

    assert_eq!(
        bloodbath.eval_str("if 0 then 42 else 0"),
        Ok(Object::Integer(42))
    );

    assert_eq!(
        bloodbath.eval_str("if noop then 42 else 0"),
        Ok(Object::Integer(0))
    );

    assert_eq!(bloodbath.eval_str("if noop then 42"), Ok(Object::Noop));

    assert_eq!(
        bloodbath.eval_str("if noop then 1 else if noop then 2 else 3"),
        Ok(Object::Integer(3))
    );
}

#[test]
fn test_variables() {
    let mut bloodbath = Bloodbath::new();

    assert_eq!(bloodbath.eval_str("set a 10"), Ok(Object::Integer(10)));
    assert_eq!(bloodbath.eval_str("set b 20"), Ok(Object::Integer(20)));
    assert_eq!(bloodbath.eval_str("set c + a b"), Ok(Object::Integer(30)));
    assert_eq!(bloodbath.eval_str("set + c"), Ok(Object::Integer(30)));
    assert_eq!(bloodbath.eval_str("+"), Ok(Object::Integer(30)));
    assert_eq!(bloodbath.eval_str("identity +"), Ok(Object::Integer(30)));
}

#[test]
fn test_compound() {
    let mut bloodbath = Bloodbath::new();

    assert_eq!(bloodbath.eval_str("{1 2 3}"), Ok(Object::Integer(3)));
    assert_eq!(bloodbath.eval_str("{set a 5}"), Ok(Object::Integer(5)));
    assert_eq!(bloodbath.eval_str("{set b + 5 a}"), Ok(Object::Integer(10)));

    assert_eq!(
        bloodbath.eval_str("if {a noop} then 1 else 0"),
        Ok(Object::Integer(0))
    );
}
