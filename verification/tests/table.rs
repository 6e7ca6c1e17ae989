use librarian::table::Table;

#[test]
fn table_keeps_the_order_of_insertion() {
    let mut t: Table<u32> = Table::new();
    assert_eq!(t.len(), 0);
    t.insert(String::from("pear"), 1);
    t.insert(String::from("apple"), 2);
    t.insert(String::from("fig"), 3);
    assert_eq!(t.len(), 3);
    assert_eq!(t.key_at(0), "pear");
    assert_eq!(t.key_at(1), "apple");
    assert_eq!(t.key_at(2), "fig");
    assert_eq!(*t.value_at(1), 2);
    assert_eq!(t.position("fig"), Some(2));
    assert_eq!(t.position("plum"), None);
    assert!(t.contains_key("apple"));
    assert!(!t.contains_key("Apple"));
    assert_eq!(t.get("pear"), Some(&1));
    assert_eq!(t.get("plum"), None);
}

#[test]
fn insert_under_a_known_key_keeps_its_place() {
    let mut t: Table<u32> = Table::new();
    t.insert(String::from("a"), 1);
    t.insert(String::from("b"), 2);
    t.insert(String::from("a"), 3);
    assert_eq!(t.len(), 2);
    assert_eq!(t.key_at(0), "a");
    assert_eq!(*t.value_at(0), 3);
    assert_eq!(*t.value_at(1), 2);
    t.set_value_at(1, 9);
    assert_eq!(t.get("b"), Some(&9));
    assert_eq!(t.get("a"), Some(&3));
}

#[test]
fn sort_keys_takes_the_values_along() {
    let mut t: Table<String> = Table::new();
    for key in ["pear", "Zebra", "apple", "fig", "apples", ""] {
        t.insert(String::from(key), key.to_uppercase());
    }
    t.sort_keys();
    let want = ["", "Zebra", "apple", "apples", "fig", "pear"];
    assert_eq!(t.len(), want.len());
    for (i, key) in want.iter().enumerate() {
        assert_eq!(t.key_at(i), *key);
        assert_eq!(*t.value_at(i), key.to_uppercase());
        assert_eq!(t.position(key), Some(i));
    }
    t.sort_keys();
    for (i, key) in want.iter().enumerate() {
        assert_eq!(t.key_at(i), *key);
    }
    t.insert(String::from("banana"), String::from("B"));
    assert_eq!(t.position("banana"), Some(6));
    assert_eq!(t.get("fig"), Some(&String::from("FIG")));
}
