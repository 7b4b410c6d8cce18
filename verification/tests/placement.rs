//! Replica placement.

use archipelago::placement::place;
use archipelago::sha256;

use std::collections::BTreeMap;

fn chunk(i: u64) -> archipelago::hash::Hash {
    sha256(&i.to_le_bytes())
}

#[test]
fn deterministic() {
    let nodes: Vec<u32> = (0..8).collect();
    let c = chunk(42);
    assert_eq!(place(&c, &nodes, 3), place(&c, &nodes, 3));
}

#[test]
fn returns_distinct_nodes() {
    let nodes: Vec<u32> = (0..8).collect();
    for i in 0..200u64 {
        let sel = place(&chunk(i), &nodes, 3);
        assert_eq!(sel.len(), 3);
        let mut seen = std::collections::BTreeSet::new();
        for n in sel {
            assert!(seen.insert(n), "duplicate node in placement");
        }
    }
}

#[test]
fn fewer_nodes_than_r() {
    let nodes = vec![0u32, 1];
    let sel = place(&chunk(1), &nodes, 3);
    assert_eq!(sel.len(), 2);
}

#[test]
fn roughly_balanced_primary() {
    let nodes: Vec<u32> = (0..10).collect();
    let mut counts: BTreeMap<u32, usize> = BTreeMap::new();
    let n = 10_000u64;
    for i in 0..n {
        let sel = place(&chunk(i), &nodes, 1);
        *counts.entry(sel[0]).or_default() += 1;
    }
    let expected = n as usize / nodes.len();
    for (_node, c) in counts {
        let diff = (c as i64 - expected as i64).unsigned_abs();
        assert!(diff < expected as u64 / 2, "imbalance too high: {c}");
    }
}

#[test]
fn minimal_movement_on_removal() {
    let all: Vec<u32> = (0..10).collect();
    let removed = 4u32;
    let live: Vec<u32> = all.iter().copied().filter(|&n| n != removed).collect();
    let r = 3;
    let mut moved = 0u64;
    let mut unaffected = 0u64;
    let total = 20_000u64;
    for i in 0..total {
        let c = chunk(i);
        let before = place(&c, &all, r);
        let after = place(&c, &live, r);
        if before.contains(&removed) {
            // Only chunks that lived on the removed node should change.
            moved += 1;
        } else {
            assert_eq!(before, after, "unaffected chunk was moved");
            unaffected += 1;
        }
    }
    // Roughly r/n of chunks touched the removed node.
    assert!(moved > 0 && unaffected > 0);
    let frac = moved as f64 / total as f64;
    assert!(frac < 0.45, "moved fraction too high: {frac}");
}

#[test]
fn adding_node_only_pulls_onto_it() {
    let before_nodes: Vec<u32> = (0..9).collect();
    let after_nodes: Vec<u32> = (0..10).collect();
    let added = 9u32;
    let r = 3;
    for i in 0..20_000u64 {
        let c = chunk(i);
        let before = place(&c, &before_nodes, r);
        let after = place(&c, &after_nodes, r);
        if !after.contains(&added) {
            assert_eq!(before, after, "placement changed without touching new node");
        }
    }
}
