//! Round tally behaviour: thresholds, vote accounting, equivocation
//! detection, and the derived round state.

use finality_core::chain::MemChain;
use finality_core::round::{Round, RoundParams, RoundState};
use finality_core::{threshold, Precommit, Prevote};

const GENESIS_HASH: u64 = 1;
const A: u64 = 10;
const B: u64 = 11;
const C: u64 = 12;
const D: u64 = 13;
const E: u64 = 14;

fn test_chain() -> MemChain {
    let mut chain = MemChain::new(GENESIS_HASH, 1);
    chain.push_blocks(GENESIS_HASH, &[A, B, C, D, E]);
    chain
}

#[test]
fn threshold_formula() {
    assert_eq!(threshold(100), 67);
    assert_eq!(threshold(300), 201);
    assert_eq!(threshold(301), 201);
    assert_eq!(threshold(10), 7);
    assert_eq!(threshold(1), 1);
    assert_eq!(threshold(0), 0);
}

#[test]
fn genesis_round_state() {
    let s = RoundState::genesis((GENESIS_HASH, 1));
    assert_eq!(s.prevote_ghost, Some((GENESIS_HASH, 1)));
    assert_eq!(s.finalized, Some((GENESIS_HASH, 1)));
    assert_eq!(s.estimate, Some((GENESIS_HASH, 1)));
    assert!(s.completable);
}

#[test]
fn single_voter_finalizes() {
    let chain = test_chain();
    let mut round = Round::new(RoundParams {
        round_number: 1,
        voters: vec![(5, 100)],
        base: (GENESIS_HASH, 1),
    });
    assert_eq!(round.threshold(), 67);

    let eq = round
        .import_prevote(&chain, Prevote { target_hash: E, target_number: 6 }, 5, 55)
        .unwrap();
    assert!(eq.is_none());
    assert_eq!(round.state().prevote_ghost, Some((E, 6)));

    let eq = round
        .import_precommit(&chain, Precommit { target_hash: E, target_number: 6 }, 5, 55)
        .unwrap();
    assert!(eq.is_none());
    let state = round.state();
    assert_eq!(state.finalized, Some((E, 6)));
    assert_eq!(state.estimate, Some((E, 6)));
    assert!(state.completable);
    assert!(round.completable());
    assert_eq!(round.finalized(), Some((E, 6)));
}

#[test]
fn finalizing_at_fault_threshold_weight() {
    // ten voters of weight one; seven suffice for the 2/3 threshold.
    let chain = test_chain();
    let mut voters = Vec::new();
    for i in 0..10 {
        voters.push((i, 1));
    }
    let mut round = Round::new(RoundParams { round_number: 1, voters, base: (GENESIS_HASH, 1) });
    assert_eq!(round.threshold(), 7);

    for i in 0..7 {
        round
            .import_prevote(&chain, Prevote { target_hash: E, target_number: 6 }, i, i)
            .unwrap();
    }
    assert_eq!(round.state().prevote_ghost, Some((E, 6)));
    for i in 0..7 {
        round
            .import_precommit(&chain, Precommit { target_hash: E, target_number: 6 }, i, i)
            .unwrap();
    }
    assert_eq!(round.finalized(), Some((E, 6)));
    assert!(round.completable());
}

#[test]
fn duplicate_vote_is_noop() {
    let chain = test_chain();
    let mut round = Round::new(RoundParams {
        round_number: 1,
        voters: vec![(5, 100), (42, 201)],
        base: (GENESIS_HASH, 1),
    });
    let v = Prevote { target_hash: C, target_number: 4 };
    assert!(round.import_prevote(&chain, v, 5, 1).unwrap().is_none());
    let ghost_before = round.state().prevote_ghost;
    assert!(round.import_prevote(&chain, v, 5, 2).unwrap().is_none());
    assert_eq!(round.state().prevote_ghost, ghost_before);
    assert_eq!(round.prevotes.len(), 1);
}

#[test]
fn distinct_second_vote_is_equivocation() {
    let chain = test_chain();
    let mut round = Round::new(RoundParams {
        round_number: 7,
        voters: vec![(5, 100), (42, 201)],
        base: (GENESIS_HASH, 1),
    });
    let first = Prevote { target_hash: C, target_number: 4 };
    let second = Prevote { target_hash: E, target_number: 6 };
    assert!(round.import_prevote(&chain, first, 5, 1).unwrap().is_none());
    let eq = round.import_prevote(&chain, second, 5, 2).unwrap().unwrap();
    assert_eq!(eq.round_number, 7);
    assert_eq!(eq.identity, 5);
    assert_eq!(eq.first_vote, first);
    assert_eq!(eq.first_signature, 1);
    assert_eq!(eq.second_vote, second);
    assert_eq!(eq.second_signature, 2);
    // the first vote keeps its weight; the second is not counted
    assert_eq!(round.prevotes.len(), 1);
}

#[test]
fn unknown_voter_is_ignored() {
    let chain = test_chain();
    let mut round = Round::new(RoundParams {
        round_number: 1,
        voters: vec![(5, 100)],
        base: (GENESIS_HASH, 1),
    });
    let v = Prevote { target_hash: C, target_number: 4 };
    assert!(round.import_prevote(&chain, v, 99, 1).unwrap().is_none());
    assert_eq!(round.prevotes.len(), 0);
    assert_eq!(round.state().prevote_ghost, None);
}

#[test]
fn vote_for_unrelated_block_fails() {
    let mut chain = MemChain::new(GENESIS_HASH, 1);
    chain.push_blocks(GENESIS_HASH, &[A, B]);
    let mut round = Round::new(RoundParams {
        round_number: 1,
        voters: vec![(5, 100)],
        base: (B, 3),
    });
    // A is below the round base, so it is no descendant of it
    let v = Prevote { target_hash: A, target_number: 2 };
    assert!(round.import_prevote(&chain, v, 5, 1).is_err());
}

#[test]
fn round_heights_never_decrease() {
    // as votes arrive the prevote-GHOST and finalized heights only climb
    let chain = test_chain();
    let mut round = Round::new(RoundParams {
        round_number: 1,
        voters: vec![(0, 1), (1, 1), (2, 1)],
        base: (GENESIS_HASH, 1),
    });
    let mut last_ghost_height = 0;
    let mut last_finalized_height = 0;
    let votes = [(0, C, 4), (1, D, 5), (2, E, 6)];
    for (id, h, n) in votes {
        round
            .import_prevote(&chain, Prevote { target_hash: h, target_number: n }, id, id)
            .unwrap();
        round
            .import_precommit(&chain, Precommit { target_hash: h, target_number: n }, id, id)
            .unwrap();
        if let Some((_gh, gn)) = round.state().prevote_ghost {
            assert!(gn >= last_ghost_height);
            last_ghost_height = gn;
        }
        if let Some((_fh, fnum)) = round.state().finalized {
            assert!(fnum >= last_finalized_height);
            last_finalized_height = fnum;
        }
    }
    assert_eq!(round.state().prevote_ghost, Some((C, 4)));
    assert_eq!(round.state().finalized, Some((C, 4)));
}
