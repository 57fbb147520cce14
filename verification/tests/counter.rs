use handoff_counter::Counter;

type Cnt = Counter<&'static str>;

/// One full exchange between a parent and a child: the parent opens a slot,
/// the child packs its count, the parent takes it in.
fn exchange(parent: &mut Cnt, child: &mut Cnt) {
    parent.merge(child);
    child.merge(parent);
    parent.merge(child);
}

#[test]
fn create_counter() {
    let mut c = Cnt::new("aa", 0);
    c.incr();
    assert!(c.value() == 1);
}

#[test]
fn new_counter_is_empty() {
    let c = Cnt::new("x", 3);
    assert_eq!(c.id(), "x");
    assert_eq!(c.tier(), 3);
    assert_eq!(c.value(), 0);
    assert!(c.slots().is_empty());
}

#[test]
fn incr_adds_one_each_time() {
    let mut c = Cnt::new("x", 2);
    for k in 1..=5u64 {
        c.incr();
        assert_eq!(c.value(), k);
    }
}

#[test]
fn one_way_merge_into_parent_only_opens_a_slot() {
    let mut a = Cnt::new("a", 2);
    let mut s = Cnt::new("s", 1);
    a.incr();
    a.incr();
    a.incr();
    s.merge(&a);
    assert_eq!(s.value(), 0);
    assert_eq!(s.slots().len(), 1);
    assert_eq!(s.slots().get("a"), Some(&(0, 0)));
}

#[test]
fn no_slot_for_a_child_with_nothing_pending() {
    let a = Cnt::new("a", 2);
    let mut s = Cnt::new("s", 1);
    s.merge(&a);
    assert!(s.slots().is_empty());
}

#[test]
fn no_slot_for_a_higher_replica() {
    let mut a = Cnt::new("a", 2);
    let mut s = Cnt::new("s", 1);
    s.incr();
    a.merge(&s);
    assert!(a.slots().is_empty());
    assert_eq!(a.value(), 1);
}

#[test]
fn handoff_fills_and_closes_the_slot() {
    let mut a = Cnt::new("a", 2);
    let mut s = Cnt::new("s", 1);
    a.incr();
    a.incr();
    a.incr();
    s.merge(&a);
    a.merge(&s);
    assert_eq!(a.value(), 3);
    s.merge(&a);
    assert_eq!(s.value(), 3);
    assert!(s.slots().is_empty());
    // the token is taken in once only
    s.merge(&a);
    assert_eq!(s.value(), 3);
    a.merge(&s);
    assert_eq!(a.value(), 3);
}

#[test]
fn three_tiers_reach_the_root() {
    let mut a = Cnt::new("a", 2);
    let mut s = Cnt::new("s", 1);
    let mut root = Cnt::new("root", 0);
    a.incr();
    a.incr();
    a.incr();
    assert_eq!(a.value(), 3);
    exchange(&mut s, &mut a);
    assert_eq!(s.value(), 3);
    exchange(&mut root, &mut s);
    assert_eq!(root.value(), 3);
    for _ in 0..5 {
        root.merge(&s);
        assert_eq!(root.value(), 3);
        s.merge(&root);
        assert_eq!(s.value(), 3);
        s.merge(&a);
        a.merge(&s);
        assert_eq!(a.value(), 3);
    }
    assert_eq!(root.value(), 3);
}

#[test]
fn siblings_sum_at_the_parent_a_first() {
    let mut a = Cnt::new("a", 2);
    let mut b = Cnt::new("b", 2);
    let mut s = Cnt::new("s", 1);
    a.incr();
    a.incr();
    b.incr();
    b.incr();
    exchange(&mut s, &mut a);
    exchange(&mut s, &mut b);
    assert_eq!(s.value(), 4);
}

#[test]
fn siblings_sum_at_the_parent_b_first() {
    let mut a = Cnt::new("a", 2);
    let mut b = Cnt::new("b", 2);
    let mut s = Cnt::new("s", 1);
    a.incr();
    a.incr();
    b.incr();
    b.incr();
    exchange(&mut s, &mut b);
    exchange(&mut s, &mut a);
    assert_eq!(s.value(), 4);
}

#[test]
fn siblings_sum_at_the_parent_interleaved() {
    let mut a = Cnt::new("a", 2);
    let mut b = Cnt::new("b", 2);
    let mut s = Cnt::new("s", 1);
    a.incr();
    a.incr();
    b.incr();
    b.incr();
    s.merge(&a);
    s.merge(&b);
    assert_eq!(s.slots().len(), 2);
    assert_eq!(s.slots().get("a"), Some(&(0, 0)));
    assert_eq!(s.slots().get("b"), Some(&(0, 1)));
    b.merge(&s);
    a.merge(&s);
    s.merge(&b);
    assert_eq!(s.value(), 2);
    s.merge(&a);
    assert_eq!(s.value(), 4);
    assert!(s.slots().is_empty());
}

#[test]
fn top_replicas_join_their_vectors() {
    let mut r1 = Cnt::new("r1", 0);
    let mut r2 = Cnt::new("r2", 0);
    r1.incr();
    r1.incr();
    r2.incr();
    r2.incr();
    r2.incr();
    r1.merge(&r2);
    assert_eq!(r1.value(), 5);
    r1.merge(&r2);
    assert_eq!(r1.value(), 5);
    r2.merge(&r1);
    assert_eq!(r2.value(), 5);
    r2.incr();
    r1.merge(&r2);
    assert_eq!(r1.value(), 6);
}

#[test]
fn equal_lower_tiers_add_their_pending_counts() {
    let mut a = Cnt::new("a", 1);
    let mut b = Cnt::new("b", 1);
    a.incr();
    a.incr();
    b.incr();
    b.incr();
    b.incr();
    a.merge(&b);
    assert_eq!(a.value(), 5);
    b.merge(&a);
    assert_eq!(b.value(), 5);
}

#[test]
fn lower_replica_learns_the_value_above() {
    let mut a = Cnt::new("a", 2);
    let mut s = Cnt::new("s", 1);
    s.incr();
    s.incr();
    a.incr();
    a.merge(&s);
    // the watermark becomes 2, the own pending count 1 is added
    assert_eq!(a.value(), 3);
}

#[test]
fn value_never_goes_down() {
    let mut a = Cnt::new("a", 2);
    let mut b = Cnt::new("b", 2);
    let mut s = Cnt::new("s", 1);
    let mut root = Cnt::new("root", 0);
    let mut last = [0u64; 4];
    for round in 0..6 {
        if round < 3 {
            a.incr();
            b.incr();
        }
        s.merge(&a);
        a.merge(&s);
        s.merge(&b);
        b.merge(&s);
        root.merge(&s);
        s.merge(&root);
        let now = [a.value(), b.value(), s.value(), root.value()];
        for k in 0..4 {
            assert!(now[k] >= last[k]);
        }
        last = now;
    }
    for _ in 0..4 {
        s.merge(&a);
        a.merge(&s);
        s.merge(&b);
        b.merge(&s);
        root.merge(&s);
        s.merge(&root);
    }
    assert_eq!(root.value(), 6);
    assert_eq!(s.value(), 6);
    assert_eq!(a.value(), 6);
    assert_eq!(b.value(), 6);
}

#[test]
fn outdated_slot_is_closed() {
    let mut a = Cnt::new("a", 2);
    let mut s1 = Cnt::new("s1", 1);
    let mut s2 = Cnt::new("s2", 1);
    a.incr();
    s1.merge(&a);
    s2.merge(&a);
    assert_eq!(s2.slots().get("a"), Some(&(0, 0)));
    // the child hands off to the first parent and counts on
    a.merge(&s1);
    s1.merge(&a);
    assert_eq!(s1.value(), 1);
    a.incr();
    // the second parent's slot is of an older generation: closed, and a new one opened
    s2.merge(&a);
    assert_eq!(s2.slots().get("a"), Some(&(1, 1)));
}

#[test]
fn view_towards_a_lower_replica_shows_its_slot_only() {
    let mut a = Cnt::new("a", 2);
    let mut b = Cnt::new("b", 2);
    let mut s = Cnt::new("s", 1);
    a.incr();
    b.incr();
    s.merge(&a);
    s.merge(&b);
    let v = s.view("a", 2);
    assert_eq!(v.id(), "s");
    assert_eq!(v.tier(), 1);
    assert_eq!(v.value(), s.value());
    assert_eq!(v.slots().len(), 1);
    assert_eq!(v.slots().get("a"), Some(&(0, 0)));
    let none = s.view("c", 2);
    assert!(none.slots().is_empty());
}

#[test]
fn view_between_equals_shows_all_slots() {
    let mut a = Cnt::new("a", 2);
    let mut b = Cnt::new("b", 2);
    let mut s = Cnt::new("s", 1);
    a.incr();
    b.incr();
    s.merge(&a);
    s.merge(&b);
    let v = s.view("t", 1);
    assert_eq!(v.slots().len(), 2);
    assert_eq!(v.slots(), s.slots());
}

#[test]
fn view_towards_a_higher_replica_shows_no_slot() {
    let mut a = Cnt::new("a", 2);
    let mut s = Cnt::new("s", 1);
    a.incr();
    s.merge(&a);
    let v = s.view("root", 0);
    assert!(v.slots().is_empty());
    assert_eq!(s.slots().len(), 1);
}

#[test]
fn handoff_through_a_view() {
    let mut a = Cnt::new("a", 2);
    let mut s = Cnt::new("s", 1);
    a.incr();
    a.incr();
    s.merge(&a.view("s", 1));
    a.merge(&s.view("a", 2));
    s.merge(&a.view("s", 1));
    assert_eq!(s.value(), 2);
}

#[test]
fn token_is_relayed_by_another_parent() {
    let mut a = Cnt::new("a", 2);
    let mut s = Cnt::new("s", 1);
    let mut root = Cnt::new("root", 0);
    a.incr();
    a.incr();
    // the root opens a slot for the leaf, and the leaf packs its count for the root
    root.merge(&a);
    a.merge(&root);
    // the middle replica keeps the token and the root takes it from there
    s.merge(&a);
    root.merge(&s);
    assert_eq!(root.value(), 2);
    assert!(root.slots().is_empty());
    root.merge(&a);
    assert_eq!(root.value(), 2);
}

#[test]
fn merging_an_own_copy_below_the_top_counts_twice() {
    let mut a = Cnt::new("a", 2);
    a.incr();
    a.incr();
    a.incr();
    let copy = a.view("a", 2);
    a.merge(&copy);
    assert_eq!(a.value(), 6);
}

#[test]
fn merging_an_own_copy_at_the_top_changes_nothing() {
    let mut r = Cnt::new("r", 0);
    r.incr();
    r.incr();
    let copy = r.clone();
    r.merge(&copy);
    assert_eq!(r.value(), 2);
}

#[test]
fn fits_on_small_counts() {
    let mut a = Cnt::new("a", 2);
    let mut s = Cnt::new("s", 1);
    assert!(a.incr_fits());
    a.incr();
    assert!(s.merge_fits(&a));
    s.merge(&a);
    assert!(a.merge_fits(&s));
    a.merge(&s);
    assert!(s.merge_fits(&a));
    s.merge(&a);
    assert_eq!(s.value(), 1);
    // asking does not change the replica
    assert!(s.merge_fits(&a));
    assert_eq!(s.value(), 1);
    assert!(s.slots().is_empty());
}

#[test]
fn merge_fits_leaves_the_replica_as_it_is() {
    let mut a = Cnt::new("a", 2);
    let s = Cnt::new("s", 1);
    a.incr();
    assert!(s.merge_fits(&a));
    assert!(s.slots().is_empty());
    assert_eq!(s.value(), 0);
}

#[test]
fn identity_used_at_two_tiers_lowers_the_top_value() {
    let mut top = Cnt::new("x", 0);
    let mut leaf = Cnt::new("x", 2);
    let mut s = Cnt::new("s", 1);
    top.incr();
    top.incr();
    leaf.incr();
    // the slot is opened for the leaf, and the top replica of the same name packs its count
    s.merge(&leaf);
    top.merge(&s);
    assert_eq!(top.value(), 2);
    top.merge(&s);
    assert_eq!(top.value(), 0);
}
