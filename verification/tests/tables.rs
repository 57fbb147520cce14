use std::collections::HashMap;

use handoff_counter::keys::keys_of;
use handoff_counter::tokens::Tokens;

#[test]
fn keys_of_gives_each_key_once() {
    let mut m: HashMap<u64, u64> = HashMap::new();
    m.insert(3, 30);
    m.insert(1, 10);
    m.insert(2, 20);
    m.insert(3, 31);
    let mut ks = keys_of(&m);
    ks.sort();
    assert_eq!(ks, vec![1, 2, 3]);
    let empty: HashMap<u64, u64> = HashMap::new();
    assert!(keys_of(&empty).is_empty());
}

#[test]
fn tokens_put_and_get() {
    let mut t: Tokens<u64> = Tokens::new();
    assert_eq!(t.get(1, 2), None);
    t.put(1, 2, (0, 0, 5));
    t.put(3, 2, (1, 4, 7));
    t.put(1, 9, (2, 2, 8));
    assert_eq!(t.get(1, 2), Some((0, 0, 5)));
    assert_eq!(t.get(3, 2), Some((1, 4, 7)));
    assert_eq!(t.get(1, 9), Some((2, 2, 8)));
    assert_eq!(t.get(2, 1), None);
    t.put(1, 2, (1, 1, 6));
    assert_eq!(t.get(1, 2), Some((1, 1, 6)));
}

#[test]
fn tokens_take_out() {
    let mut t: Tokens<u64> = Tokens::new();
    t.put(1, 2, (0, 0, 5));
    t.put(3, 2, (1, 4, 7));
    t.take_out(1, 2);
    assert_eq!(t.get(1, 2), None);
    assert_eq!(t.get(3, 2), Some((1, 4, 7)));
    t.take_out(1, 2);
    t.take_out(8, 8);
    assert_eq!(t.get(3, 2), Some((1, 4, 7)));
}

#[test]
fn tokens_sources_to() {
    let mut t: Tokens<u64> = Tokens::new();
    t.put(1, 2, (0, 0, 5));
    t.put(3, 2, (1, 4, 7));
    t.put(1, 9, (2, 2, 8));
    let mut s = t.sources_to(2);
    s.sort();
    assert_eq!(s, vec![1, 3]);
    assert_eq!(t.sources_to(9), vec![1]);
    assert!(t.sources_to(1).is_empty());
    t.take_out(1, 9);
    assert!(t.sources_to(9).is_empty());
}

#[test]
fn tokens_copy_is_independent() {
    let mut t: Tokens<u64> = Tokens::new();
    t.put(1, 2, (0, 0, 5));
    let c = t.copy();
    t.take_out(1, 2);
    assert_eq!(c.get(1, 2), Some((0, 0, 5)));
    assert_eq!(t.get(1, 2), None);
}
