use burn::builtin::burn::implicit::create_module;
use burn::lang::identifier::IdentifierTable;
use burn::lang::module::Module;
use burn::lang::value::Value;

#[test]
fn a_module_finds_what_was_added_and_the_last_addition_wins() {
    let mut names = IdentifierTable::new();
    let mut m = Module::new();
    let x = m.add(&mut names, "x", Value::Integer(1));
    assert!(m.has_id(x));
    assert!(matches!(m.find_id(x), Ok(Value::Integer(1))));
    m.add_with_id(x, Value::Integer(2));
    assert!(matches!(m.get_id(x), Value::Integer(2)));
    let y = names.find_or_create("y");
    assert!(!m.has_id(y));
    assert!(matches!(m.find_id(y), Err(Value::Nothing)));
    assert!(m.has(&mut names, "x"));
    assert!(matches!(m.get(&mut names, "z"), None));
}

#[test]
fn a_nested_module_is_named_in_the_contents() {
    let mut names = IdentifierTable::new();
    let mut inner = Module::new();
    inner.add(&mut names, "a", Value::Boolean(true));
    let mut outer = Module::new();
    let id = outer.add_module(&mut names, "inner", inner);
    assert!(matches!(outer.find_id(id), Ok(Value::Module(0))));
    let a = names.find_or_create("a");
    assert!(matches!(outer.get_module_id(id).find_id(a), Ok(Value::Boolean(true))));
}

#[test]
fn the_implicit_module_names_the_basic_types() {
    let mut names = IdentifierTable::new();
    let implicit = create_module(&mut names);
    for name in ["Boolean", "Integer", "Float", "Number", "String", "Type"] {
        match implicit.get(&mut names, name) {
            Some(Value::StaticSpecial(s)) => assert_eq!(s.repr(), name),
            _ => panic!("{} is missing", name),
        }
    }
    assert!(!implicit.has(&mut names, "Nothing"));
}

#[test]
fn an_identifier_gives_its_text() {
    let mut names = IdentifierTable::new();
    let x = names.find_or_create("hello");
    assert_eq!(x.get_value(&names), "hello");
}

#[test]
fn the_errors_and_types_modules_name_their_types() {
    let mut names = IdentifierTable::new();
    let errors = burn::builtin::burn::errors::create_module(&mut names);
    let types = burn::builtin::burn::types::create_module(&mut names);
    for name in ["TypeError", "ArgumentError"] {
        match errors.get(&mut names, name) {
            Some(Value::StaticSpecial(s)) => assert_eq!(s.repr(), name),
            _ => panic!("{} is missing", name),
        }
    }
    match types.get(&mut names, "Throwable") {
        Some(Value::StaticSpecial(s)) => assert_eq!(s.repr(), "Throwable"),
        _ => panic!("Throwable is missing"),
    }
}

#[test]
fn the_burn_module_nests_its_modules() {
    let mut names = IdentifierTable::new();
    let burn_module = burn::builtin::burn::create_module(&mut names);
    let implicit = names.find_or_create("implicit");
    let integer = names.find_or_create("Integer");
    assert!(matches!(burn_module.find_id(implicit), Ok(Value::Module(2))));
    assert!(matches!(burn_module.get_module_id(implicit).find_id(integer), Ok(Value::StaticSpecial(_))));
    let errors = names.find_or_create("errors");
    let type_error = names.find_or_create("TypeError");
    assert!(matches!(burn_module.get_module_id(errors).find_id(type_error), Ok(Value::StaticSpecial(_))));
}

#[test]
fn the_implicit_module_of_burn_holds_the_types_and_the_errors() {
    let mut names = IdentifierTable::new();
    let burn_module = burn::builtin::burn::create_module(&mut names);
    let implicit = names.find_or_create("implicit");
    let inner = burn_module.get_module_id(implicit);
    for name in ["Boolean", "Integer", "Float", "Number", "String", "Type", "ArgumentError", "TypeError"] {
        match inner.get(&mut names, name) {
            Some(Value::StaticSpecial(s)) => assert_eq!(s.repr(), name),
            _ => panic!("{} is missing", name),
        }
    }
    let types = names.find_or_create("types");
    match burn_module.get_module_id(types).get(&mut names, "Throwable") {
        Some(Value::StaticSpecial(s)) => assert_eq!(s.repr(), "Throwable"),
        _ => panic!("Throwable is missing"),
    }
}
