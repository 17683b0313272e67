use omnix::crdt::{CausalOrder, GCounter, LWWMap, ORSet, PNCounter, Timestamp, VectorClock};

#[test]
fn test_g_counter() {
    let mut counter1 = GCounter::new("node1".to_string());
    let mut counter2 = GCounter::new("node2".to_string());

    counter1.increment();
    counter1.increment();
    counter2.increment();

    assert_eq!(counter1.value(), 2);
    assert_eq!(counter2.value(), 1);

    counter1.merge(&counter2);
    assert_eq!(counter1.value(), 3);

    counter2.merge(&counter1);
    assert_eq!(counter2.value(), 3);
}

#[test]
fn test_or_set() {
    let mut set1 = ORSet::new("node1".to_string());
    let mut set2 = ORSet::new("node2".to_string());

    set1.add("apple".to_string());
    set1.add("banana".to_string());
    set2.add("banana".to_string());
    set2.add("cherry".to_string());

    set1.merge(&set2);

    assert!(set1.contains(&"apple".to_string()));
    assert!(set1.contains(&"banana".to_string()));
    assert!(set1.contains(&"cherry".to_string()));

    let elements = set1.elements();
    assert_eq!(elements.len(), 3);
}

#[test]
fn test_g_counter_three_replicas_converge() {
    // three replicas, 3 + 5 + 1 increments, merged pairwise until quiescent
    let mut r1 = GCounter::new("r1".to_string());
    let mut r2 = GCounter::new("r2".to_string());
    let mut r3 = GCounter::new("r3".to_string());
    for _ in 0..3 {
        r1.increment();
    }
    for _ in 0..5 {
        r2.increment();
    }
    r3.increment();

    r1.merge(&r2);
    r2.merge(&r3);
    r3.merge(&r1);
    r1.merge(&r3);
    r2.merge(&r1);

    assert_eq!(r1.value(), 9);
    assert_eq!(r2.value(), 9);
    assert_eq!(r3.value(), 9);
}

#[test]
fn test_g_counter_merge_commutes_on_values() {
    let mut a1 = GCounter::new("a".to_string());
    let mut b1 = GCounter::new("b".to_string());
    a1.increment();
    a1.increment();
    b1.increment();

    let mut a2 = GCounter::new("a".to_string());
    let mut b2 = GCounter::new("b".to_string());
    a2.increment();
    a2.increment();
    b2.increment();

    a1.merge(&b1);
    b2.merge(&a2);
    assert_eq!(a1.value(), b2.value());
}

#[test]
fn test_g_counter_merge_idempotent() {
    let mut a = GCounter::new("a".to_string());
    a.increment();
    a.increment();
    let b = GCounter::new("a".to_string());
    let mut c = GCounter::new("b".to_string());
    c.merge(&a);
    c.merge(&a);
    let _ = b;
    assert_eq!(c.value(), 2);
}

#[test]
fn test_pn_counter() {
    let mut c1 = PNCounter::new("n1".to_string());
    let mut c2 = PNCounter::new("n2".to_string());
    c1.increment();
    c1.increment();
    c1.decrement();
    c2.increment();
    c2.decrement();
    c2.decrement();

    assert_eq!(c1.value(), 1);
    assert_eq!(c2.value(), -1);

    c1.merge(&c2);
    c2.merge(&c1);
    assert_eq!(c1.value(), 0);
    assert_eq!(c2.value(), 0);
}

#[test]
fn test_lww_map_set_get() {
    let mut m = LWWMap::new("n1".to_string());
    m.set("color".to_string(), "red".to_string());
    assert_eq!(m.get(&"color".to_string()), Some(&"red".to_string()));
    m.set("color".to_string(), "blue".to_string());
    assert_eq!(m.get(&"color".to_string()), Some(&"blue".to_string()));
    assert_eq!(m.get(&"shape".to_string()), None);
}

#[test]
fn test_lww_map_merge_keeps_newer_tag() {
    let mut a = LWWMap::new("a".to_string());
    let mut b = LWWMap::new("b".to_string());
    a.set_at(
        "k".to_string(),
        "old".to_string(),
        Timestamp { time: 100, node_id_hash: 1 },
    );
    b.set_at(
        "k".to_string(),
        "new".to_string(),
        Timestamp { time: 200, node_id_hash: 1 },
    );
    a.merge(&b);
    assert_eq!(a.get(&"k".to_string()), Some(&"new".to_string()));
}

#[test]
fn test_lww_map_merge_tie_keeps_existing() {
    let mut a = LWWMap::new("a".to_string());
    let mut b = LWWMap::new("b".to_string());
    let t = Timestamp { time: 100, node_id_hash: 7 };
    a.set_at("k".to_string(), "mine".to_string(), t);
    b.set_at("k".to_string(), "theirs".to_string(), t);
    a.merge(&b);
    assert_eq!(a.get(&"k".to_string()), Some(&"mine".to_string()));
}

#[test]
fn test_lww_map_merge_tiebreak_by_node_hash() {
    let mut a = LWWMap::new("a".to_string());
    let mut b = LWWMap::new("b".to_string());
    a.set_at(
        "k".to_string(),
        "low".to_string(),
        Timestamp { time: 100, node_id_hash: 1 },
    );
    b.set_at(
        "k".to_string(),
        "high".to_string(),
        Timestamp { time: 100, node_id_hash: 9 },
    );
    a.merge(&b);
    assert_eq!(a.get(&"k".to_string()), Some(&"high".to_string()));
}

#[test]
fn test_lww_hash_node_id_differs_per_node() {
    // the tiebreaking hash folds the node name's bytes, so distinct names
    // give distinct tags here
    let a = LWWMap::new("node-a".to_string());
    let b = LWWMap::new("node-b".to_string());
    assert_ne!(a.hash_node_id(), b.hash_node_id());
    let a2 = LWWMap::new("node-a".to_string());
    assert_eq!(a.hash_node_id(), a2.hash_node_id());
}

#[test]
fn test_or_set_add_remove() {
    let mut s = ORSet::new("n1".to_string());
    s.add("x".to_string());
    assert!(s.contains(&"x".to_string()));
    s.remove(&"x".to_string());
    assert!(!s.contains(&"x".to_string()));
    assert_eq!(s.elements().len(), 0);
}

#[test]
fn test_or_set_concurrent_add_survives_remove() {
    // R1 adds "x"; R2 observes it and removes it; R1 concurrently adds "x"
    // again with a fresh tag, so after mutual merge "x" is present
    let mut r1 = ORSet::new("r1".to_string());
    let mut r2 = ORSet::new("r2".to_string());
    r1.add("x".to_string());
    r2.merge(&r1);
    r2.remove(&"x".to_string());
    r1.add("x".to_string());
    r2.merge(&r1);
    r1.merge(&r2);
    assert!(r2.contains(&"x".to_string()));
    assert!(r1.contains(&"x".to_string()));
}

#[test]
fn test_vector_clock_orders_local_events() {
    let mut c1 = VectorClock::new("n1".to_string());
    c1.increment();
    let mut c2 = VectorClock::new("n1".to_string());
    c2.increment();
    c2.increment();
    assert_eq!(c1.compare(&c2), CausalOrder::Before);
    assert_eq!(c2.compare(&c1), CausalOrder::After);
    assert_eq!(c1.compare(&c1), CausalOrder::Equal);
}

#[test]
fn test_vector_clock_concurrent() {
    let mut c1 = VectorClock::new("n1".to_string());
    let mut c2 = VectorClock::new("n2".to_string());
    c1.increment();
    c2.increment();
    assert_eq!(c1.compare(&c2), CausalOrder::Concurrent);
    assert_eq!(c2.compare(&c1), CausalOrder::Concurrent);
}

#[test]
fn test_vector_clock_update_dominates_both() {
    let mut c1 = VectorClock::new("n1".to_string());
    let mut c2 = VectorClock::new("n2".to_string());
    c1.increment();
    let before = c1.compare(&c2);
    assert_eq!(before, CausalOrder::After);
    c2.update(&c1);
    assert_eq!(c1.compare(&c2), CausalOrder::Before);
}

#[test]
fn test_causal_delivery_waits_for_prior_write() {
    // R1 writes A (clock n1:1) then B (clock n1:2); a replica that has
    // applied nothing must take A first and hold B back
    let mut clock_a = VectorClock::new("n1".to_string());
    clock_a.increment();
    let mut clock_b = VectorClock::new("n1".to_string());
    clock_b.increment();
    clock_b.increment();

    let mut applied = VectorClock::new("r2".to_string());
    let sender = "n1".to_string();
    assert!(!clock_b.delivery_ready(&applied, &sender));
    assert!(clock_a.delivery_ready(&applied, &sender));

    // after applying A the replica records n1's first event; B is now due
    applied.update(&clock_a);
    assert!(clock_b.delivery_ready(&applied, &sender));
}
