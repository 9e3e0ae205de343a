use burn::builtin::burn::errors::{create_type_error, is_type_error, type_error};
use burn::builtin::burn::implicit::{integer, is_type, number, string};
use burn::builtin::burn::types::is_throwable;
use burn::builtin::intrinsic::operations::{
    add, divide, eq, format_integer, is, is_truthy, multiply, repr, subtract, to_string, union,
};
use burn::lang::special::{RcSpecial, Special, StaticSpecial};
use burn::lang::string::String as BurnString;
use burn::lang::value::Value;

fn text(s: &str) -> Value {
    Value::String(BurnString::new(s.to_string()))
}

fn error_message(v: &Value) -> String {
    match v {
        Value::RcSpecial(r) => r.to_string(),
        _ => panic!("not an error"),
    }
}

#[test]
fn truthiness() {
    assert!(!is_truthy(&Value::Nothing));
    assert!(!is_truthy(&Value::Boolean(false)));
    assert!(is_truthy(&Value::Boolean(true)));
    assert!(!is_truthy(&Value::Integer(0)));
    assert!(is_truthy(&Value::Integer(-3)));
    assert!(!is_truthy(&Value::Float(0.0f64.to_bits())));
    assert!(!is_truthy(&Value::Float((-0.0f64).to_bits())));
    assert!(is_truthy(&Value::Float(0.5f64.to_bits())));
    assert!(is_truthy(&Value::Float(f64::NAN.to_bits())));
    assert!(!is_truthy(&text("")));
    assert!(is_truthy(&text("x")));
    assert!(is_truthy(&Value::StaticSpecial(StaticSpecial::new(integer()))));
    assert!(is_truthy(&create_type_error("oops".to_string())));
}

#[test]
fn representations() {
    assert_eq!(repr(&Value::Nothing), "<Nothing>");
    assert_eq!(repr(&Value::Integer(4)), "<Integer>");
    assert_eq!(repr(&Value::Float(1.5f64.to_bits())), "<Float>");
    assert_eq!(repr(&text("a")), "<String>");
    assert_eq!(repr(&Value::Function(0)), "<Function>");
    assert_eq!(repr(&Value::Module(0)), "<Module>");
    assert_eq!(repr(&Value::StaticSpecial(StaticSpecial::new(number()))), "Number");
    assert_eq!(repr(&create_type_error("m".to_string())), "<TypeError>");
}

#[test]
fn texts() {
    assert_eq!(to_string(&Value::Nothing), "nothing");
    assert_eq!(to_string(&Value::Boolean(true)), "true");
    assert_eq!(to_string(&Value::Boolean(false)), "false");
    assert_eq!(to_string(&Value::Integer(0)), "0");
    assert_eq!(to_string(&Value::Integer(1234)), "1234");
    assert_eq!(to_string(&Value::Integer(-56)), "-56");
    assert_eq!(to_string(&text("héllo")), "héllo");
    assert_eq!(to_string(&Value::StaticSpecial(StaticSpecial::new(string()))), "String");
    assert_eq!(to_string(&create_type_error("bad".to_string())), "TypeError: bad");
    assert_eq!(to_string(&Value::Function(3)), "<Function>");
}

#[test]
fn integer_notation() {
    assert_eq!(format_integer(i64::MIN), i64::MIN.to_string());
    assert_eq!(format_integer(i64::MAX), i64::MAX.to_string());
    assert_eq!(format_integer(-1), "-1");
    assert_eq!(format_integer(10), "10");
}

#[test]
fn integer_arithmetic() {
    assert!(matches!(add(Value::Integer(2), Value::Integer(3)), Ok(Value::Integer(5))));
    assert!(matches!(subtract(&Value::Integer(2), &Value::Integer(3)), Ok(Value::Integer(-1))));
    assert!(matches!(add(Value::Integer(i64::MAX), Value::Integer(1)), Ok(Value::Integer(i64::MIN))));
    assert!(matches!(subtract(&Value::Integer(i64::MIN), &Value::Integer(1)), Ok(Value::Integer(i64::MAX))));
}

#[test]
fn arithmetic_type_errors() {
    let e = add(text("a"), Value::Integer(1)).err().unwrap();
    assert!(is_type_error(&e));
    assert!(is_throwable(&e));
    assert_eq!(error_message(&e), "TypeError: Can't add <String> and <Integer>");
    let e = subtract(&Value::Nothing, &Value::Boolean(true)).err().unwrap();
    assert_eq!(error_message(&e), "TypeError: Can't subtract <Nothing> and <Boolean>");
    let e = multiply(&Value::Integer(2), &Value::Integer(3)).err().unwrap();
    assert_eq!(error_message(&e), "TypeError: Can't multiply <Integer> and <Integer>");
    let e = divide(&Value::Integer(2), &Value::Integer(3)).err().unwrap();
    assert_eq!(error_message(&e), "TypeError: Can't divide <Integer> and <Integer>");
    let e = eq(&Value::Integer(2), &Value::Integer(2)).err().unwrap();
    assert_eq!(error_message(&e), "TypeError: Can't compare <Integer> and <Integer>");
}

#[test]
fn types_and_unions() {
    let int_type = Value::StaticSpecial(StaticSpecial::new(integer()));
    let string_type = Value::StaticSpecial(StaticSpecial::new(string()));
    assert!(is_type(&int_type));
    assert!(!is_type(&Value::Integer(1)));
    assert!(is_type(&Value::StaticSpecial(StaticSpecial::new(type_error()))));
    assert!(matches!(is(&Value::Integer(1), &int_type), Ok(Value::Boolean(true))));
    assert!(matches!(is(&text("s"), &int_type), Ok(Value::Boolean(false))));
    let either = union(
        Value::StaticSpecial(StaticSpecial::new(integer())),
        Value::StaticSpecial(StaticSpecial::new(string())),
    )
    .ok()
    .unwrap();
    assert!(is_type(&either));
    assert!(matches!(is(&text("s"), &either), Ok(Value::Boolean(true))));
    assert!(matches!(is(&Value::Nothing, &either), Ok(Value::Boolean(false))));
    let e = union(Value::Integer(1), string_type).err().unwrap();
    assert_eq!(error_message(&e), "TypeError: Can't create type union: <Integer> is not a type");
    let e = is(&Value::Integer(1), &Value::Integer(2)).err().unwrap();
    assert_eq!(error_message(&e), "TypeError: <Integer> is not a type");
}

#[test]
fn errors_are_typed() {
    let error_type = Value::StaticSpecial(StaticSpecial::new(type_error()));
    let e = create_type_error("x".to_string());
    assert!(matches!(is(&e, &error_type), Ok(Value::Boolean(true))));
    assert!(matches!(is(&Value::Integer(1), &error_type), Ok(Value::Boolean(false))));
    match &e {
        Value::RcSpecial(r) => {
            assert!(matches!(**r, RcSpecial::TypeError { .. }));
            assert_eq!(r.repr(), "<TypeError>");
            assert!(r.is_throwable());
            assert!(!r.is_type());
        },
        _ => panic!("not an error"),
    }
}

#[test]
fn adding_strings_concatenates_them() {
    match add(text("ab"), text("cd")) {
        Ok(Value::String(s)) => assert_eq!(s.get_value(), "abcd"),
        _ => panic!(),
    }
}

#[test]
fn adding_types_intersects_them() {
    let int_type = Value::StaticSpecial(StaticSpecial::new(integer()));
    let string_type = Value::StaticSpecial(StaticSpecial::new(string()));
    match add(int_type, string_type) {
        Ok(Value::TypeIntersection(t)) => {
            assert!(matches!(t.left, Value::StaticSpecial(_)));
            assert!(matches!(t.right, Value::StaticSpecial(_)));
        },
        _ => panic!(),
    }
    let e = add(Value::StaticSpecial(StaticSpecial::new(integer())), Value::Integer(1)).err().unwrap();
    assert_eq!(error_message(&e), "TypeError: Can't add Integer and <Integer>");
}
