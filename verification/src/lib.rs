//! Core of a GHOST-based finality protocol: a vote-graph over a block tree
//! that accumulates weighted prevotes and precommits, per-round tallies that
//! derive the prevote-GHOST, estimate and finalized block, and the decision
//! logic of the multi-round voter, including commit-proof validation.

use vstd::prelude::*;

pub mod chain;
pub mod round;
pub mod vote_graph;
pub mod voter;

verus! {

/// A prevote for a block and its ancestors.
#[derive(Clone, Copy, PartialEq, Eq, Structural, Debug)]
pub struct Prevote {
    pub target_hash: u64,
    pub target_number: u64,
}

/// A precommit to a block and its ancestors.
#[derive(Clone, Copy, PartialEq, Eq, Structural, Debug)]
pub struct Precommit {
    pub target_hash: u64,
    pub target_number: u64,
}

/// A protocol message: a prevote or a precommit.
#[derive(Clone, Copy, PartialEq, Eq, Structural, Debug)]
pub enum Message {
    Prevote(Prevote),
    Precommit(Precommit),
}

/// A message paired with its sender and signature.
#[derive(Clone, Copy, PartialEq, Eq, Structural, Debug)]
pub struct SignedMessage {
    pub message: Message,
    pub signature: u64,
    pub id: u64,
}

/// A precommit paired with its sender and signature.
#[derive(Clone, Copy, PartialEq, Eq, Structural, Debug)]
pub struct SignedPrecommit {
    pub precommit: Precommit,
    pub signature: u64,
    pub id: u64,
}

/// A self-contained finalization proof: a target block together with
/// precommits on descendants of it carrying at least threshold weight.
#[derive(Clone, Debug)]
pub struct Commit {
    pub target_hash: u64,
    pub target_number: u64,
    pub precommits: Vec<SignedPrecommit>,
}

/// Two distinct votes of one kind from one voter in one round: evidence of
/// Byzantine behaviour.
#[derive(Clone, Copy, PartialEq, Eq, Structural, Debug)]
pub struct Equivocation<V> {
    pub round_number: u64,
    pub identity: u64,
    pub first_vote: V,
    pub first_signature: u64,
    pub second_vote: V,
    pub second_signature: u64,
}

/// The one failure the core itself can produce: an ancestry lookup between
/// blocks that are not related.
#[derive(Clone, Copy, PartialEq, Eq, Structural, Debug)]
pub enum Error {
    NotDescendent,
}

/// Weight needed for finality with total voting weight `total_weight`:
/// `total_weight - floor((total_weight - 1) / 3)`.
pub open spec fn spec_threshold(total_weight: u64) -> int {
    if total_weight == 0 {
        0
    } else {
        total_weight - (total_weight - 1) / 3
    }
}

/// Smallest weight that, together with any faulty weight of at most
/// `floor((total_weight - 1) / 3)`, exceeds two thirds of the total.
pub fn threshold(total_weight: u64) -> (t: u64)
    ensures
        t == spec_threshold(total_weight),
{
    let faulty = if total_weight == 0 {
        0
    } else {
        (total_weight - 1) / 3
    };
    total_weight - faulty
}

} // verus!
