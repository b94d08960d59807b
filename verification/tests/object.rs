use bloodbath::object::FunctionImplementation;
use bloodbath::object::Object;

#[test]
fn test_integer() {
    let a = Object::Integer(1);
    let b = Object::Integer(2);

    let a_value = a.get_integer().unwrap();
    let b_value = b.get_integer().unwrap();

    assert_eq!(a_value + b_value, 3);
}

#[test]
fn test_float() {
    let a = Object::Float((1.0f64).to_bits());
    let b = Object::Float((2.0f64).to_bits());

    let a_value = f64::from_bits(a.get_float().unwrap());
    let b_value = f64::from_bits(b.get_float().unwrap());

    assert!((a_value + b_value - 3.0).abs() <= 1e-3);
}

#[test]
fn test_builtin_function() {
    let function = Object::Function {
        argument_count: 2,
        implementation: FunctionImplementation::Addition,
    };

    match function {
        Object::Function {
            argument_count,
            implementation,
        } => {
            let sixty_eight = Object::Integer(68);
            let one = Object::Integer(1);
            let sixty_nine = Object::Integer(69);

            assert_eq!(argument_count, 2);
            assert_eq!(implementation.call(vec![sixty_eight, one]), sixty_nine);
        }
        _ => unreachable!(),
    }
}

#[test]
fn test_getters_reject_other_variants() {
    assert_eq!(Object::Noop.get_integer(), None);
    assert_eq!(Object::Noop.get_float(), None);
    assert_eq!(Object::Integer(7).get_float(), None);
    assert_eq!(Object::Float((0.5f64).to_bits()).get_integer(), None);
}
