use lambda_rs::sym_tab::{Scope, SymbolTable};

#[test]
fn new_table_binds_nothing() {
    let table: SymbolTable<u32> = SymbolTable::new();
    assert_eq!(table.lookup("x"), None);
}

#[test]
fn scope_gives_its_value_under_its_name_only() {
    let scope = Scope::new("x".to_string(), 7u32);
    assert_eq!(scope.get("x"), Some(&7));
    assert_eq!(scope.get("y"), None);
    assert_eq!(scope.get(""), None);
    assert_eq!(scope.get("xx"), None);
}

#[test]
fn lookup_finds_the_innermost_binding() {
    let mut table = SymbolTable::new();
    table.push(Scope::new("x".to_string(), 1u32));
    table.push(Scope::new("y".to_string(), 2u32));
    table.push(Scope::new("x".to_string(), 3u32));
    assert_eq!(table.lookup("x"), Some(&3));
    assert_eq!(table.lookup("y"), Some(&2));
    assert_eq!(table.lookup("z"), None);
}

#[test]
fn remove_takes_out_the_outermost_binding() {
    let mut table = SymbolTable::new();
    table.push(Scope::new("x".to_string(), 1u32));
    table.push(Scope::new("y".to_string(), 2u32));
    table.push(Scope::new("x".to_string(), 3u32));
    table.remove("x");
    assert_eq!(table.table.len(), 2);
    assert_eq!(table.lookup("x"), Some(&3));
    assert_eq!(table.lookup("y"), Some(&2));
    table.remove("x");
    assert_eq!(table.lookup("x"), None);
    assert_eq!(table.lookup("y"), Some(&2));
}

#[test]
fn remove_of_unbound_name_changes_nothing() {
    let mut table = SymbolTable::new();
    table.push(Scope::new("x".to_string(), 1u32));
    table.remove("y");
    assert_eq!(table.table.len(), 1);
    assert_eq!(table.lookup("x"), Some(&1));
}

#[test]
fn copy_of_table_is_independent() {
    let mut table = SymbolTable::new();
    table.push(Scope::new("x".to_string(), 1u32));
    let mut copy = table.clone();
    copy.push(Scope::new("x".to_string(), 2u32));
    assert_eq!(table.lookup("x"), Some(&1));
    assert_eq!(copy.lookup("x"), Some(&2));
    assert!(table != copy);
    assert!(table == table.clone());
}
