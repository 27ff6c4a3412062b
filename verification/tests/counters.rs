use bcachefs_top::counters::{lex_le_exec, Counters};

fn s(x: &str) -> String {
    x.to_string()
}

fn counters(entries: &[(&str, u64)]) -> Counters {
    let mut c = Counters::new();
    for (k, v) in entries {
        c.insert(s(k), *v);
    }
    c
}

#[test]
fn insert_then_get_gives_back_the_value() {
    let mut c = Counters::new();
    assert_eq!(c.get(&s("io_read")), None);
    c.insert(s("io_read"), 7);
    assert_eq!(c.get(&s("io_read")), Some(7));
    assert_eq!(c.get(&s("io_write")), None);
}

#[test]
fn insert_replaces_earlier_value() {
    let mut c = counters(&[("a", 1), ("b", 2)]);
    c.insert(s("a"), 10);
    assert_eq!(c.get(&s("a")), Some(10));
    assert_eq!(c.get(&s("b")), Some(2));
    assert_eq!(c.to_vec().len(), 2);
}

#[test]
fn clone_keeps_every_entry() {
    let c = counters(&[("x", 3), ("y", 4)]);
    let d = c.clone();
    assert_eq!(d.get(&s("x")), Some(3));
    assert_eq!(d.get(&s("y")), Some(4));
    assert_eq!(d.to_vec().len(), 2);
}

#[test]
fn string_order_matches_std() {
    let words = ["", "a", "ab", "b", "B", "é", "z", "io_read", "io_write", "ab\u{1F600}"];
    for x in words.iter() {
        for y in words.iter() {
            assert_eq!(lex_le_exec(&s(x), &s(y)), s(x) <= s(y), "{:?} {:?}", x, y);
        }
    }
}

#[test]
fn sorted_keys_are_alphabetical() {
    let c = counters(&[("io_write", 1), ("btree_node_read", 2), ("io_read", 3), ("io", 4)]);
    assert_eq!(c.sorted_keys(), vec![s("btree_node_read"), s("io"), s("io_read"), s("io_write")]);
}

#[test]
fn sorted_keys_of_empty_map() {
    assert!(Counters::new().sorted_keys().is_empty());
}

#[test]
fn sorted_by_value_ascending_keeps_ties_in_order() {
    let c = counters(&[("a", 5), ("b", 1), ("c", 5), ("d", 0)]);
    let r = c.sorted_by_value(false);
    assert_eq!(r, vec![(s("d"), 0), (s("b"), 1), (s("a"), 5), (s("c"), 5)]);
}

#[test]
fn sorted_by_value_descending() {
    let c = counters(&[("a", 5), ("b", 1), ("c", 5), ("d", 9)]);
    let r = c.sorted_by_value(true);
    assert_eq!(r, vec![(s("d"), 9), (s("a"), 5), (s("c"), 5), (s("b"), 1)]);
}

#[test]
fn storage_order_keeps_place_and_appends_new_names() {
    let mut c = counters(&[("b", 1), ("a", 2)]);
    c.insert(s("b"), 5);
    c.insert(s("c"), 3);
    assert_eq!(c.to_vec(), vec![(s("b"), 5), (s("a"), 2), (s("c"), 3)]);
}
