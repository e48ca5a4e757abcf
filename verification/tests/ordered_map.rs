use graphlib::ordered_map::OrderedMap;

fn s(x: &str) -> String {
    x.to_string()
}

#[test]
fn new_map_is_empty() {
    let m: OrderedMap<u32> = OrderedMap::new();
    assert_eq!(m.len(), 0);
    assert_eq!(m.keys(), Vec::<String>::new());
    assert_eq!(m.get(&s("a")), None);
    assert!(!m.contains_key(&s("a")));
}

#[test]
fn keys_come_in_insertion_order() {
    let mut m = OrderedMap::new();
    m.insert(s("c"), 3);
    m.insert(s("a"), 1);
    m.insert(s("b"), 2);
    assert_eq!(m.keys(), vec![s("c"), s("a"), s("b")]);
    assert_eq!(m.len(), 3);
    assert_eq!(m.position(&s("a")), Some(1));
    assert_eq!(m.get(&s("b")), Some(&2));
    assert_eq!(*m.value_at(0), 3);
}

#[test]
fn insert_on_a_present_key_keeps_its_place() {
    let mut m = OrderedMap::new();
    m.insert(s("x"), 1);
    m.insert(s("y"), 2);
    m.insert(s("x"), 10);
    assert_eq!(m.keys(), vec![s("x"), s("y")]);
    assert_eq!(m.get(&s("x")), Some(&10));
    assert_eq!(m.len(), 2);
}

#[test]
fn remove_moves_the_later_keys_up() {
    let mut m = OrderedMap::new();
    for (i, k) in ["a", "b", "c", "d"].iter().enumerate() {
        m.insert(s(k), i);
    }
    assert_eq!(m.remove(&s("b")), Some(1));
    assert_eq!(m.remove(&s("b")), None);
    assert_eq!(m.keys(), vec![s("a"), s("c"), s("d")]);
    assert_eq!(m.position(&s("c")), Some(1));
    assert_eq!(m.position(&s("d")), Some(2));
    assert_eq!(m.get(&s("c")), Some(&2));
    assert_eq!(m.get(&s("d")), Some(&3));
    assert_eq!(m.remove(&s("a")), Some(0));
    assert_eq!(m.get(&s("d")), Some(&3));
    assert_eq!(m.remove(&s("d")), Some(3));
    assert_eq!(m.keys(), vec![s("c")]);
    m.insert(s("b"), 7);
    assert_eq!(m.keys(), vec![s("c"), s("b")]);
    assert_eq!(m.get(&s("b")), Some(&7));
}

#[test]
fn values_can_be_changed_in_place() {
    let mut m = OrderedMap::new();
    m.insert(s("k"), 5);
    *m.value_at_mut(0) += 1;
    assert_eq!(m.get(&s("k")), Some(&6));
}
