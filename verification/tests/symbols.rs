use symbol_table::symbol_table::SymbolTable;

#[test]
fn positions_follow_first_seen_order() {
    let mut st = SymbolTable::new();
    st.insert_symbol("alex".to_string());
    assert_eq!(st.len(), 1);
    st.insert_symbol("alexutz".to_string());
    assert_eq!(st.get_position_of_symbol("alex".to_string()), Some(&0));
    assert_eq!(st.get_position_of_symbol("alexutz".to_string()), Some(&1));
    assert_eq!(st.get_position_of_symbol("missing".to_string()), None);
    assert_eq!(st.get_symbol_at_position(&0), Some(&"alex".to_string()));
    assert_eq!(st.get_symbol_at_position(&1), Some(&"alexutz".to_string()));
    assert_eq!(st.get_symbol_at_position(&2), None);
}

#[test]
fn remove_of_unknown_token_is_noop() {
    let mut st = SymbolTable::new();
    st.insert_symbol("alex".to_string());
    let len_before: usize = st.len();
    st.remove("never inserted".to_string());
    assert_eq!(st.get_position_of_symbol("never inserted".to_string()), None);
    assert_eq!(st.len(), len_before);
    assert_eq!(st.get_position_of_symbol("alex".to_string()), Some(&0));
}

#[test]
fn reinsert_keeps_position_and_len() {
    let mut st = SymbolTable::new();
    st.insert_symbol("alex".to_string());
    st.insert_symbol("alexutz".to_string());
    st.insert_symbol("alex".to_string());
    assert_eq!(st.len(), 2);
    assert_eq!(st.get_position_of_symbol("alex".to_string()), Some(&0));
    st.insert_symbol("third".to_string());
    assert_eq!(st.get_position_of_symbol("third".to_string()), Some(&2));
}

#[test]
fn removal_leaves_identifier_gap() {
    let mut st = SymbolTable::new();
    st.insert_symbol("a".to_string());
    st.insert_symbol("b".to_string());
    st.remove("a".to_string());
    assert_eq!(st.len(), 1);
    assert!(!st.contains_token("a".to_string()));
    // The removed token's identifier is not reclaimed: the next token takes
    // a fresh one, and position 0 stays unoccupied forever.
    st.insert_symbol("c".to_string());
    assert_eq!(st.get_position_of_symbol("c".to_string()), Some(&2));
    assert_eq!(st.get_symbol_at_position(&0), None);
    assert_eq!(st.get_symbol_at_position(&1), Some(&"b".to_string()));
    // Re-inserting the removed token also takes a fresh identifier.
    st.insert_symbol("a".to_string());
    assert_eq!(st.get_position_of_symbol("a".to_string()), Some(&3));
}

#[test]
fn contains_token_tracks_inserts() {
    let mut st = SymbolTable::new();
    assert!(!st.contains_token("x".to_string()));
    st.insert_symbol("x".to_string());
    assert!(st.contains_token("x".to_string()));
    st.remove("x".to_string());
    assert!(!st.contains_token("x".to_string()));
}

#[test]
fn many_tokens_survive_growth() {
    let mut st = SymbolTable::new();
    let mut i: i32 = 0;
    while i < 100 {
        st.insert_symbol(format!("token{}", i));
        i += 1;
    }
    assert_eq!(st.len(), 100);
    let mut i: i32 = 0;
    while i < 100 {
        assert_eq!(st.get_position_of_symbol(format!("token{}", i)), Some(&i));
        i += 1;
    }
}
