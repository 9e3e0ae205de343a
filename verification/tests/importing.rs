use burn::lang::identifier::IdentifierTable;
use burn::lang::value::Value;
use burn::vm::virtual_machine::importing::{ImportCache, ImportCacheEntry};

#[test]
fn each_import_asked_for_gets_an_entry_of_its_own() {
    let mut names = IdentifierTable::new();
    let a = names.find_or_create("a");
    let b = names.find_or_create("b");
    let mut cache = ImportCache::new();
    assert_eq!(cache.find_import(vec![a, b]), (0, false));
    assert_eq!(cache.find_import(vec![a, b]), (1, false));
    assert!(matches!(cache.entry(1), ImportCacheEntry::NotLoaded(path) if path.len() == 2 && path[1] == b));
}

#[test]
fn a_loaded_import_keeps_its_value() {
    let mut names = IdentifierTable::new();
    let a = names.find_or_create("a");
    let mut cache = ImportCache::new();
    let (id, loaded) = cache.find_import(vec![a]);
    assert!(!loaded);
    cache.set_loaded(id, Value::Integer(7));
    assert!(cache.entry(id).is_loaded());
    assert!(matches!(cache.entry(id), ImportCacheEntry::Loaded(Value::Integer(7))));
}
