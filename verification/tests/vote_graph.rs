//! Vote-graph behaviour on a small block tree: appends, forks at and off
//! vote-nodes, branch introduction, GHOST queries and ancestor walks.

use finality_core::chain::MemChain;
use finality_core::vote_graph::{Condition, VoteGraph};

const GENESIS_HASH: u64 = 1;
const A: u64 = 10;
const B: u64 = 11;
const C: u64 = 12;
const D: u64 = 13;
const E: u64 = 14;
const F: u64 = 15;
const D1: u64 = 21;
const E1: u64 = 22;
const F1: u64 = 23;
const G1: u64 = 24;
const H1: u64 = 25;
const I1: u64 = 26;
const D2: u64 = 31;
const E2: u64 = 32;
const F2: u64 = 33;
const G2: u64 = 34;
const H2: u64 = 35;
const I2: u64 = 36;
const EA: u64 = 41;
const EB: u64 = 42;
const EC: u64 = 43;
const ED: u64 = 44;
const FA: u64 = 51;
const FB: u64 = 52;
const FC: u64 = 53;

#[test]
fn graph_fork_not_at_node() {
    let mut chain = MemChain::new(GENESIS_HASH, 1);
    let mut tracker = VoteGraph::new(GENESIS_HASH, 1);

    chain.push_blocks(GENESIS_HASH, &[A, B, C]);
    chain.push_blocks(C, &[D1, E1, F1]);
    chain.push_blocks(C, &[D2, E2, F2]);

    tracker.insert(A, 2, 100, &chain).unwrap();
    tracker.insert(E1, 6, 100, &chain).unwrap();
    tracker.insert(F2, 7, 100, &chain).unwrap();

    assert!(tracker.heads.contains(&E1));
    assert!(tracker.heads.contains(&F2));
    assert!(!tracker.heads.contains(&A));

    let a_entry = tracker.entries.get(&A).unwrap();
    assert_eq!(a_entry.descendents, vec![E1, F2]);
    assert_eq!(a_entry.cumulative_vote, 300);

    let e_entry = tracker.entries.get(&E1).unwrap();
    assert_eq!(e_entry.ancestor_node().unwrap(), A);
    assert_eq!(e_entry.cumulative_vote, 100);

    let f_entry = tracker.entries.get(&F2).unwrap();
    assert_eq!(f_entry.ancestor_node().unwrap(), A);
    assert_eq!(f_entry.cumulative_vote, 100);
}

#[test]
fn graph_fork_at_node() {
    let mut chain = MemChain::new(GENESIS_HASH, 1);
    let mut tracker1 = VoteGraph::new(GENESIS_HASH, 1);
    let mut tracker2 = VoteGraph::new(GENESIS_HASH, 1);

    chain.push_blocks(GENESIS_HASH, &[A, B, C]);
    chain.push_blocks(C, &[D1, E1, F1]);
    chain.push_blocks(C, &[D2, E2, F2]);

    tracker1.insert(C, 4, 100, &chain).unwrap();
    tracker1.insert(E1, 6, 100, &chain).unwrap();
    tracker1.insert(F2, 7, 100, &chain).unwrap();

    tracker2.insert(E1, 6, 100, &chain).unwrap();
    tracker2.insert(F2, 7, 100, &chain).unwrap();
    tracker2.insert(C, 4, 100, &chain).unwrap();

    for tracker in &[&tracker2] {
        assert!(tracker.heads.contains(&E1));
        assert!(tracker.heads.contains(&F2));
        assert!(!tracker.heads.contains(&C));

        let c_entry = tracker.entries.get(&C).unwrap();
        assert!(c_entry.descendents.contains(&E1));
        assert!(c_entry.descendents.contains(&F2));
        assert_eq!(c_entry.ancestor_node().unwrap(), GENESIS_HASH);
        assert_eq!(c_entry.cumulative_vote, 300);

        let e_entry = tracker.entries.get(&E1).unwrap();
        assert_eq!(e_entry.ancestor_node().unwrap(), C);
        assert_eq!(e_entry.cumulative_vote, 100);

        let f_entry = tracker.entries.get(&F2).unwrap();
        assert_eq!(f_entry.ancestor_node().unwrap(), C);
        assert_eq!(f_entry.cumulative_vote, 100);
    }
}

#[test]
fn ghost_merge_at_node() {
    let mut chain = MemChain::new(GENESIS_HASH, 1);
    let mut tracker = VoteGraph::new(GENESIS_HASH, 1);

    chain.push_blocks(GENESIS_HASH, &[A, B, C]);
    chain.push_blocks(C, &[D1, E1, F1]);
    chain.push_blocks(C, &[D2, E2, F2]);

    tracker.insert(B, 3, 0, &chain).unwrap();
    tracker.insert(C, 4, 100, &chain).unwrap();
    tracker.insert(E1, 6, 100, &chain).unwrap();
    tracker.insert(F2, 7, 100, &chain).unwrap();

    assert_eq!(tracker.find_ghost(None, Condition::AtLeast(250)), Some((C, 4)));
    assert_eq!(tracker.find_ghost(Some((C, 4)), Condition::AtLeast(250)), Some((C, 4)));
    assert_eq!(tracker.find_ghost(Some((B, 3)), Condition::AtLeast(250)), Some((C, 4)));
}

#[test]
fn ghost_merge_not_at_node_one_side_weighted() {
    let mut chain = MemChain::new(GENESIS_HASH, 1);
    let mut tracker = VoteGraph::new(GENESIS_HASH, 1);

    chain.push_blocks(GENESIS_HASH, &[A, B, C, D, E, F]);
    chain.push_blocks(F, &[G1, H1, I1]);
    chain.push_blocks(F, &[G2, H2, I2]);

    tracker.insert(B, 3, 0, &chain).unwrap();
    tracker.insert(G1, 8, 100, &chain).unwrap();
    tracker.insert(H2, 9, 150, &chain).unwrap();

    assert_eq!(tracker.find_ghost(None, Condition::AtLeast(250)), Some((F, 7)));
    assert_eq!(tracker.find_ghost(Some((F, 7)), Condition::AtLeast(250)), Some((F, 7)));
    assert_eq!(tracker.find_ghost(Some((C, 4)), Condition::AtLeast(250)), Some((F, 7)));
    assert_eq!(tracker.find_ghost(Some((B, 3)), Condition::AtLeast(250)), Some((F, 7)));
}

#[test]
fn ghost_introduce_branch() {
    let mut chain = MemChain::new(GENESIS_HASH, 1);
    let mut tracker = VoteGraph::new(GENESIS_HASH, 1);

    chain.push_blocks(GENESIS_HASH, &[A, B, C, D, E, F]);
    chain.push_blocks(E, &[EA, EB, EC, ED]);
    chain.push_blocks(F, &[FA, FB, FC]);

    tracker.insert(FC, 10, 5, &chain).unwrap();
    tracker.insert(ED, 10, 7, &chain).unwrap();

    assert_eq!(tracker.find_ghost(None, Condition::AtLeast(10)), Some((E, 6)));

    assert_eq!(tracker.entries.get(&GENESIS_HASH).unwrap().descendents, vec![FC, ED]);

    // introduce a branch in the middle.
    tracker.insert(E, 6, 3, &chain).unwrap();

    assert_eq!(tracker.entries.get(&GENESIS_HASH).unwrap().descendents, vec![E]);
    let descendents = &tracker.entries.get(&E).unwrap().descendents;
    assert_eq!(descendents.len(), 2);
    assert!(descendents.contains(&ED));
    assert!(descendents.contains(&FC));

    assert_eq!(tracker.find_ghost(None, Condition::AtLeast(10)), Some((E, 6)));
    assert_eq!(tracker.find_ghost(Some((C, 4)), Condition::AtLeast(10)), Some((E, 6)));
    assert_eq!(tracker.find_ghost(Some((E, 6)), Condition::AtLeast(10)), Some((E, 6)));
}

#[test]
fn walk_back_from_block_in_edge_fork_below() {
    let mut chain = MemChain::new(GENESIS_HASH, 1);
    let mut tracker = VoteGraph::new(GENESIS_HASH, 1);

    chain.push_blocks(GENESIS_HASH, &[A, B, C]);
    chain.push_blocks(C, &[D1, E1, F1, G1, H1, I1]);
    chain.push_blocks(C, &[D2, E2, F2, G2, H2, I2]);

    tracker.insert(B, 3, 10, &chain).unwrap();
    tracker.insert(F1, 7, 5, &chain).unwrap();
    tracker.insert(G2, 8, 5, &chain).unwrap();

    let test_cases = &[D1, D2, E1, E2, F1, F2, G2];

    for block in test_cases {
        let number = chain.number(*block);
        assert_eq!(tracker.find_ancestor(*block, number, Condition::Above(5)).unwrap(), (C, 4));
    }
}

#[test]
fn walk_back_from_fork_block_node_below() {
    let mut chain = MemChain::new(GENESIS_HASH, 1);
    let mut tracker = VoteGraph::new(GENESIS_HASH, 1);

    chain.push_blocks(GENESIS_HASH, &[A, B, C, D]);
    chain.push_blocks(D, &[E1, F1, G1, H1, I1]);
    chain.push_blocks(D, &[E2, F2, G2, H2, I2]);

    tracker.insert(B, 3, 10, &chain).unwrap();
    tracker.insert(F1, 7, 5, &chain).unwrap();
    tracker.insert(G2, 8, 5, &chain).unwrap();

    assert_eq!(tracker.find_ancestor(G2, 8, Condition::Above(5)).unwrap(), (D, 5));
    let test_cases = &[E1, E2, F1, F2, G2];

    for block in test_cases {
        let number = chain.number(*block);
        assert_eq!(tracker.find_ancestor(*block, number, Condition::Above(5)).unwrap(), (D, 5));
    }
}

#[test]
fn walk_back_at_node() {
    let mut chain = MemChain::new(GENESIS_HASH, 1);
    let mut tracker = VoteGraph::new(GENESIS_HASH, 1);

    chain.push_blocks(GENESIS_HASH, &[A, B, C]);
    chain.push_blocks(C, &[D1, E1, F1, G1, H1, I1]);
    chain.push_blocks(C, &[D2, E2, F2]);

    tracker.insert(C, 4, 10, &chain).unwrap();
    tracker.insert(F1, 7, 5, &chain).unwrap();
    tracker.insert(F2, 7, 5, &chain).unwrap();
    tracker.insert(I1, 10, 1, &chain).unwrap();

    let test_cases = &[C, D1, D2, E1, E2, F1, F2, I1];

    for block in test_cases {
        let number = chain.number(*block);
        assert_eq!(tracker.find_ancestor(*block, number, Condition::AtLeast(20)).unwrap(), (C, 4));
    }
}

#[test]
fn insert_twice_equals_summed_insert() {
    let mut chain = MemChain::new(GENESIS_HASH, 1);
    chain.push_blocks(GENESIS_HASH, &[A, B, C]);

    let mut twice = VoteGraph::new(GENESIS_HASH, 1);
    twice.insert(B, 3, 40, &chain).unwrap();
    twice.insert(B, 3, 60, &chain).unwrap();

    let mut once = VoteGraph::new(GENESIS_HASH, 1);
    once.insert(B, 3, 100, &chain).unwrap();

    assert_eq!(
        twice.entries.get(&B).unwrap().cumulative_vote,
        once.entries.get(&B).unwrap().cumulative_vote
    );
    assert_eq!(
        twice.entries.get(&GENESIS_HASH).unwrap().cumulative_vote,
        once.entries.get(&GENESIS_HASH).unwrap().cumulative_vote
    );
    assert_eq!(twice.heads, once.heads);
    assert_eq!(twice.find_ghost(None, Condition::AtLeast(100)), Some((B, 3)));
    assert_eq!(once.find_ghost(None, Condition::AtLeast(100)), Some((B, 3)));
}

#[test]
fn ghost_insertion_order_irrelevant() {
    let mut chain = MemChain::new(GENESIS_HASH, 1);
    chain.push_blocks(GENESIS_HASH, &[A, B, C]);
    chain.push_blocks(C, &[D1, E1, F1]);
    chain.push_blocks(C, &[D2, E2, F2]);

    let mut forward = VoteGraph::new(GENESIS_HASH, 1);
    forward.insert(B, 3, 50, &chain).unwrap();
    forward.insert(E1, 6, 100, &chain).unwrap();
    forward.insert(F2, 7, 100, &chain).unwrap();

    let mut backward = VoteGraph::new(GENESIS_HASH, 1);
    backward.insert(F2, 7, 100, &chain).unwrap();
    backward.insert(E1, 6, 100, &chain).unwrap();
    backward.insert(B, 3, 50, &chain).unwrap();

    for t in [200, 250] {
        assert_eq!(
            forward.find_ghost(None, Condition::AtLeast(t)),
            backward.find_ghost(None, Condition::AtLeast(t))
        );
    }
}

#[test]
fn insert_unrelated_block_fails() {
    let mut chain = MemChain::new(GENESIS_HASH, 1);
    chain.push_blocks(GENESIS_HASH, &[A, B]);
    let mut tracker = VoteGraph::new(B, 3);
    // A sits below the graph base, so it is no descendant of it
    assert!(tracker.insert(A, 2, 10, &chain).is_err());
    // an unknown block fails too
    assert!(tracker.insert(77, 9, 10, &chain).is_err());
    // the graph is left untouched
    assert_eq!(tracker.entries.len(), 1);
    assert_eq!(tracker.entries.get(&B).unwrap().cumulative_vote, 0);
}
