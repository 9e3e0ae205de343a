use burn::lang::identifier::IdentifierTable;

#[test]
fn identifier_test() {
    let mut table = IdentifierTable::new();
    let id = table.find_or_create("test");
    let id2 = table.find_or_create("test");
    assert!(id == id2);
}

#[test]
fn different_names_are_different_identifiers() {
    let mut table = IdentifierTable::new();
    let a = table.find_or_create("a");
    let b = table.find_or_create("b");
    assert!(a != b);
    assert_eq!(table.len(), 2);
    assert_eq!(table.get_value(a), "a");
    assert_eq!(table.get_value(b), "b");
    assert_eq!(table.find_or_create("a"), a);
    assert_eq!(table.len(), 2);
}
