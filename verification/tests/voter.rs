//! Voter decision logic: commit validation and emission, finalization
//! bookkeeping, and the vote-casting gates.

use finality_core::chain::MemChain;
use finality_core::round::{Round, RoundParams, RoundState};
use finality_core::voter::{
    background_round_done, build_commit, construct_precommit, construct_prevote, import_commit,
    prevote_base_target, should_notify_finalized, should_precommit, should_prevote,
    should_send_commit, update_last_finalized, validate_commit,
};
use finality_core::{Commit, Precommit, Prevote, SignedPrecommit};

const GENESIS_HASH: u64 = 1;
const A: u64 = 10;
const B: u64 = 11;
const C: u64 = 12;
const D: u64 = 13;
const E: u64 = 14;

fn test_chain() -> MemChain {
    let mut chain = MemChain::new(GENESIS_HASH, 1);
    chain.push_blocks(GENESIS_HASH, &[A, B, C, D, E]);
    chain
}

fn commit_for_e(id: u64) -> Commit {
    Commit {
        target_hash: E,
        target_number: 6,
        precommits: vec![SignedPrecommit {
            precommit: Precommit { target_hash: E, target_number: 6 },
            signature: id,
            id,
        }],
    }
}

#[test]
fn validate_commit_accepts_sufficient_weight() {
    let chain = test_chain();
    let voters = vec![(5, 100), (42, 201)];
    // threshold of 301 is 201, and voter 42 alone carries it
    let r = validate_commit(&commit_for_e(42), &voters, 201, &chain).unwrap();
    assert_eq!(r, Some((E, 6)));
}

#[test]
fn validate_commit_rejects_insufficient_weight() {
    let chain = test_chain();
    let voters = vec![(5, 100), (42, 201)];
    let r = validate_commit(&commit_for_e(5), &voters, 201, &chain).unwrap();
    assert_eq!(r, None);
}

#[test]
fn validate_commit_rejects_unknown_voter() {
    let chain = test_chain();
    let voters = vec![(5, 100)];
    let r = validate_commit(&commit_for_e(42), &voters, 67, &chain).unwrap();
    assert_eq!(r, None);
}

#[test]
fn validate_commit_rejects_duplicate_voter() {
    let chain = test_chain();
    let voters = vec![(5, 100), (42, 201)];
    let pc = SignedPrecommit {
        precommit: Precommit { target_hash: E, target_number: 6 },
        signature: 42,
        id: 42,
    };
    let commit = Commit { target_hash: E, target_number: 6, precommits: vec![pc.clone(), pc] };
    let r = validate_commit(&commit, &voters, 201, &chain).unwrap();
    assert_eq!(r, None);
}

#[test]
fn validate_commit_rejects_unrelated_precommit() {
    let mut chain = test_chain();
    const X: u64 = 99;
    chain.push_blocks(C, &[X]);
    let voters = vec![(42, 201)];
    let commit = Commit {
        target_hash: E,
        target_number: 6,
        precommits: vec![SignedPrecommit {
            precommit: Precommit { target_hash: X, target_number: 5 },
            signature: 42,
            id: 42,
        }],
    };
    // X is no descendant of E
    let r = validate_commit(&commit, &voters, 201, &chain).unwrap();
    assert_eq!(r, None);
}

#[test]
fn import_commit_counts_precommits() {
    let chain = test_chain();
    let mut round = Round::new(RoundParams {
        round_number: 1,
        voters: vec![(5, 100), (42, 201)],
        base: (GENESIS_HASH, 1),
    });
    // a valid commit for (E, 6) brings voter 42's precommit into the round
    let (accepted, equivocations) =
        import_commit(&mut round, &commit_for_e(42), &chain).unwrap();
    assert!(accepted);
    assert!(equivocations.is_empty());
    assert_eq!(round.precommits.len(), 1);
}

#[test]
fn import_commit_rejects_invalid() {
    let chain = test_chain();
    let mut round = Round::new(RoundParams {
        round_number: 1,
        voters: vec![(5, 100), (42, 201)],
        base: (GENESIS_HASH, 1),
    });
    let (accepted, _) = import_commit(&mut round, &commit_for_e(5), &chain).unwrap();
    assert!(!accepted);
    assert_eq!(round.precommits.len(), 0);
}

#[test]
fn broadcast_commit_carries_finalized_block() {
    let chain = test_chain();
    let mut round = Round::new(RoundParams {
        round_number: 1,
        voters: vec![(5, 100)],
        base: (GENESIS_HASH, 1),
    });
    round
        .import_prevote(&chain, Prevote { target_hash: E, target_number: 6 }, 5, 55)
        .unwrap();
    round
        .import_precommit(&chain, Precommit { target_hash: E, target_number: 6 }, 5, 55)
        .unwrap();
    let commit = build_commit(&round, &chain).unwrap();
    assert_eq!(commit.target_hash, E);
    assert_eq!(commit.target_number, 6);
    assert_eq!(commit.precommits.len(), 1);
    assert_eq!(commit.precommits[0].id, 5);
}

#[test]
fn commit_broadcast_only_if_newer() {
    // a commit timer firing emits nothing when a seen commit covers the
    // finalized block already
    assert!(should_send_commit(None, Some((E, 6))));
    assert!(!should_send_commit(Some(6), Some((E, 6))));
    assert!(should_send_commit(Some(4), Some((E, 6))));
    assert!(!should_send_commit(None, None));
    assert!(!should_send_commit(Some(42), None));
    assert!(should_send_commit(Some(42), Some((E, 500))));
}

#[test]
fn finalized_height_is_monotone() {
    let mut last = (GENESIS_HASH, 1);
    assert!(update_last_finalized(&mut last, (C, 4)));
    assert_eq!(last, (C, 4));
    // an older notification never lowers the finalized height
    assert!(!update_last_finalized(&mut last, (B, 3)));
    assert_eq!(last, (C, 4));
    assert!(!update_last_finalized(&mut last, (C, 4)));
    assert!(update_last_finalized(&mut last, (E, 6)));
    assert_eq!(last, (E, 6));
}

#[test]
fn background_round_retirement() {
    assert!(background_round_done(Some((C, 4)), 4));
    assert!(background_round_done(Some((C, 4)), 6));
    assert!(!background_round_done(Some((E, 6)), 4));
    assert!(!background_round_done(None, 100));
}

#[test]
fn precommit_targets_prevote_ghost_or_base() {
    let chain = test_chain();
    let mut round = Round::new(RoundParams {
        round_number: 1,
        voters: vec![(5, 100)],
        base: (GENESIS_HASH, 1),
    });
    let p = construct_precommit(&round);
    assert_eq!((p.target_hash, p.target_number), (GENESIS_HASH, 1));
    round
        .import_prevote(&chain, Prevote { target_hash: E, target_number: 6 }, 5, 55)
        .unwrap();
    let p = construct_precommit(&round);
    assert_eq!((p.target_hash, p.target_number), (E, 6));
}

#[test]
fn vote_casting_gates() {
    let chain = test_chain();
    assert!(should_prevote(true, false));
    assert!(should_prevote(false, true));
    assert!(!should_prevote(false, false));

    // precommit waits for the previous estimate to reach our prevote-GHOST
    assert!(should_precommit((C, 4), Some((E, 6)), &chain, true, false));
    assert!(should_precommit((E, 6), Some((E, 6)), &chain, false, true));
    assert!(!should_precommit((E, 6), Some((C, 4)), &chain, true, true));
    assert!(!should_precommit((C, 4), None, &chain, true, true));
    assert!(!should_precommit((C, 4), Some((E, 6)), &chain, false, false));
}

#[test]
fn prevote_follows_estimate_or_primary() {
    let chain = test_chain();
    let last = RoundState {
        prevote_ghost: Some((D, 5)),
        finalized: Some((C, 4)),
        estimate: Some((C, 4)),
        completable: true,
    };
    // no primary hint: vote on the best chain containing the estimate
    assert_eq!(prevote_base_target(&last, None, &chain), C);
    let p = construct_prevote(&last, None, &chain).unwrap();
    assert_eq!((p.target_hash, p.target_number), (E, 6));
    // primary equal to the previous prevote-GHOST is followed
    assert_eq!(prevote_base_target(&last, Some((D, 5)), &chain), D);
    // primary above the previous prevote-GHOST falls back to the estimate
    assert_eq!(prevote_base_target(&last, Some((E, 6)), &chain), C);
    // a primary strictly between estimate and prevote-GHOST is followed
    let wide = RoundState {
        prevote_ghost: Some((E, 6)),
        finalized: Some((B, 3)),
        estimate: Some((B, 3)),
        completable: true,
    };
    assert_eq!(prevote_base_target(&wide, Some((C, 4)), &chain), C);
    // an unrelated primary falls back to the estimate
    assert_eq!(prevote_base_target(&wide, Some((77, 4)), &chain), B);
}

#[test]
fn finalization_notice_gate() {
    let pre = RoundState {
        prevote_ghost: Some((E, 6)),
        finalized: None,
        estimate: Some((E, 6)),
        completable: false,
    };
    let post = RoundState {
        prevote_ghost: Some((E, 6)),
        finalized: Some((E, 6)),
        estimate: Some((E, 6)),
        completable: true,
    };
    assert!(should_notify_finalized(&pre, &post, true));
    assert!(!should_notify_finalized(&pre, &post, false));
    assert!(!should_notify_finalized(&post, &post, true));
}

#[test]
fn talking_to_myself() {
    // a single voter of weight 100 drives one round to finality on the
    // best chain and reaches at least height 6
    let chain = test_chain();
    let mut round = Round::new(RoundParams {
        round_number: 1,
        voters: vec![(5, 100)],
        base: (GENESIS_HASH, 1),
    });
    let last_round_state = RoundState::genesis((GENESIS_HASH, 1));

    // prevote step: the voter receives its own vote
    let prevote = construct_prevote(&last_round_state, None, &chain).unwrap();
    round.import_prevote(&chain, prevote, 5, 5).unwrap();

    // precommit step once its condition holds
    let est = last_round_state.estimate.unwrap();
    assert!(should_precommit(est, round.state().prevote_ghost, &chain, true, false));
    let precommit = construct_precommit(&round);
    round.import_precommit(&chain, precommit, 5, 5).unwrap();

    let (_h, n) = round.finalized().unwrap();
    assert!(n >= 6);
    assert!(round.completable());

    let mut last_finalized = (GENESIS_HASH, 1);
    assert!(update_last_finalized(&mut last_finalized, round.finalized().unwrap()));
    assert!(last_finalized.1 >= 6);
}

#[test]
fn import_commit_for_any_round() {
    // a commit for a round the voter does not run still finalizes its
    // block through validation alone
    let chain = test_chain();
    let voters = vec![(5, 100), (42, 201)];
    let finalized = validate_commit(&commit_for_e(42), &voters, 201, &chain).unwrap();
    assert_eq!(finalized, Some((E, 6)));
}
