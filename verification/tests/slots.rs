//! Storage with stable keys, and graphs over keys.
use std::collections::HashMap;

use rustcad::rings::{trace_cycle, Graph};
use rustcad::slots::Arena;
use rustcad::text::decimal;

#[test]
fn items_stay_under_their_keys() {
    let mut arena = Arena::new();
    let a = arena.insert("a");
    let b = arena.insert("b");
    let c = arena.insert("c");
    assert_eq!(arena.len(), 3);
    assert_eq!(arena.keys(), vec![a, b, c]);
    assert_eq!(arena.remove(a), Some("a"));
    assert_eq!(arena.remove(a), None);
    assert_eq!(arena.get(b), Some(&"b"));
    assert_eq!(arena.get(c), Some(&"c"));
    assert_eq!(*arena.at(c), "c");
    assert!(!arena.contains(a));
    arena.set(c, "d");
    assert_eq!(arena.get(c), Some(&"d"));
    if let Some(place) = arena.get_mut(b) {
        *place = "e";
    }
    assert_eq!(arena.slots(), vec![(None, 0), (None, 2), (Some("e"), 1), (Some("d"), 1)]);
}

#[test]
fn a_slot_that_is_used_again_gets_another_key() {
    let mut arena = Arena::new();
    let a = arena.insert(1);
    arena.remove(a);
    let b = arena.insert(2);
    assert_ne!(a, b);
    // the same slot, two generations on
    assert_eq!(b, a + 0x2_0000_0000);
    assert_eq!(a, 0x1_0000_0001);
    assert_eq!(arena.insert(3), 0x1_0000_0002);
}

#[test]
fn keys_of_other_forms_name_nothing() {
    let mut arena = Arena::new();
    arena.insert(1);
    assert_eq!(arena.get(0), None);
    assert_eq!(arena.get(0x2_0000_0001), None);
    assert_eq!(arena.remove(1), None);
    assert!(arena.get_mut(u64::MAX).is_none());
}

#[test]
fn copies_are_independent() {
    let mut arena = Arena::new();
    let a = arena.insert(1);
    let copy = arena.duplicate();
    arena.remove(a);
    assert_eq!(copy.get(a), Some(&1));
    assert_eq!(arena.len(), 0);
    let doubled = copy.duplicate_with(|x: &i32| 2 * x);
    assert_eq!(doubled.get(a), Some(&2));
}

#[test]
fn rings_are_traced() {
    let mut graph = Graph::new();
    for (a, b) in [(1, 2), (2, 3), (3, 1), (7, 8)] {
        graph.add_edge(a, b);
    }
    assert!(graph.contains(3));
    assert!(!graph.contains(4));
    let mut visited: HashMap<u64, bool> = HashMap::new();
    let mut ring = trace_cycle(1, &graph, &mut visited).expect("a ring");
    assert_eq!(ring[0], 1);
    ring.sort();
    assert_eq!(ring, vec![1, 2, 3]);
    assert_eq!(trace_cycle(7, &graph, &mut visited), None);
}

#[test]
fn numbers_are_written_in_decimal() {
    assert_eq!(decimal(0), "0");
    assert_eq!(decimal(7), "7");
    assert_eq!(decimal(1203), "1203");
    assert_eq!(decimal(u128::MAX), u128::MAX.to_string());
}

#[test]
fn what_is_traced_is_marked() {
    let mut ring = Graph::new();
    for (a, b) in [(1, 2), (2, 3), (3, 1)] {
        ring.add_edge(a, b);
    }
    // other nodes may be marked already, and stay as they are
    let mut visited: HashMap<u64, bool> = HashMap::new();
    visited.insert(8, true);
    visited.insert(9, false);
    assert_eq!(trace_cycle(1, &ring, &mut visited), Some(vec![1, 2, 3]));
    assert_eq!(visited.len(), 5);
    assert!([1, 2, 3, 8].iter().all(|node| visited[node]));
    assert!(!visited[&9]);

    let mut chain = Graph::new();
    chain.add_edge(4, 5);
    let mut visited: HashMap<u64, bool> = HashMap::new();
    assert_eq!(trace_cycle(4, &chain, &mut visited), None);
    assert_eq!(visited, HashMap::from([(4, true), (5, true)]));

    // two nodes that two edges join are no ring
    let mut pair = Graph::new();
    pair.add_edge(6, 7);
    pair.add_edge(7, 6);
    let mut visited: HashMap<u64, bool> = HashMap::new();
    assert_eq!(trace_cycle(6, &pair, &mut visited), None);
    assert_eq!(visited, HashMap::from([(6, true), (7, true)]));
}

#[test]
fn retired_keys_are_not_given_out() {
    let mut arena = Arena::new();
    let mut given: Vec<u64> = Vec::new();
    for round in 0..5 {
        let keys: Vec<u64> = (0..4).map(|n| arena.insert(n)).collect();
        assert!(keys.iter().all(|key| !given.contains(key)), "round {round}");
        given.extend(&keys);
        for key in &keys[round % 2..] {
            arena.remove(*key);
        }
    }
    // the slot that was vacated last is occupied first
    let last = *given.last().unwrap();
    assert_eq!(arena.insert(0), last + 0x2_0000_0000);
}
