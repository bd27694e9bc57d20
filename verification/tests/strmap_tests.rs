use r18::strmap::{str_eq, StrMap, StrSet};

#[test]
fn map_insert_overrides_and_keeps_order() {
    let mut m = StrMap::new();
    m.insert("a".to_string(), "1".to_string());
    m.insert("b".to_string(), "2".to_string());
    m.insert("a".to_string(), "3".to_string());
    assert_eq!(m.len(), 2);
    assert_eq!(m.get(&"a".to_string()).unwrap(), "3");
    assert_eq!(m.get(&"b".to_string()).unwrap(), "2");
    // the overridden key keeps its original position
    assert_eq!(m.pairs[0].0, "a");
    assert_eq!(m.pairs[1].0, "b");
}

#[test]
fn map_remove_drops_the_binding() {
    let mut m = StrMap::new();
    m.insert("a".to_string(), "1".to_string());
    m.insert("b".to_string(), "2".to_string());
    m.remove(&"a".to_string());
    assert_eq!(m.len(), 1);
    assert!(m.get(&"a".to_string()).is_none());
    assert!(m.contains_key(&"b".to_string()));
    m.remove(&"missing".to_string());
    assert_eq!(m.len(), 1);
}

#[test]
fn set_holds_each_key_once() {
    let mut s = StrSet::new();
    s.insert("x".to_string());
    s.insert("y".to_string());
    s.insert("x".to_string());
    assert_eq!(s.len(), 2);
    assert!(s.contains(&"x".to_string()));
    assert!(!s.contains(&"z".to_string()));
}

#[test]
fn str_eq_compares_by_characters() {
    assert!(str_eq("你好，{}", "你好，{}"));
    assert!(!str_eq("你好", "你好 "));
    assert!(!str_eq("a", "b"));
    assert!(str_eq("", ""));
}
