use ahola::{Symbol, SymbolTable};

#[test]
fn a_new_table_is_empty() {
    let table = SymbolTable::new();
    assert_eq!(table.next_slot, 0);
    assert!(table.symbols.is_empty());
    assert!(table.get(&"x".to_string()).is_none());
}

#[test]
fn register_hands_out_consecutive_slots() {
    let mut table = SymbolTable::new();
    assert_eq!(table.register("a", "i4M".to_string(), false, false), 0);
    assert_eq!(table.register("b", "string".to_string(), true, true), 1);
    assert_eq!(table.next_slot, 2);
    assert_eq!(
        table.get(&"b".to_string()),
        Some(&Symbol { slot: 1, var_type: "string".to_string(), changeable: true, is_private: true })
    );
    assert_eq!(table.get(&"a".to_string()).unwrap().slot, 0);
}

#[test]
fn registering_a_name_again_replaces_it_with_a_fresh_slot() {
    let mut table = SymbolTable::new();
    table.register("a", "i4M".to_string(), false, false);
    table.register("b", "i4M".to_string(), false, false);
    assert_eq!(table.register("a", "card".to_string(), true, false), 2);
    assert_eq!(table.next_slot, 3);
    let a = table.get(&"a".to_string()).unwrap();
    assert_eq!(a.slot, 2);
    assert_eq!(a.var_type, "card");
    assert!(a.changeable);
    assert_eq!(table.get(&"b".to_string()).unwrap().slot, 1);
    assert_eq!(table.symbols.len(), 2);
}
