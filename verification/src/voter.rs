//! Decision logic of the multi-round voter: commit-proof validation, the
//! choice of prevote and precommit targets, the gates that decide when a
//! round casts its votes, commit emission and import, and the bookkeeping
//! of the last finalized block.
//!
//! The surrounding driver performs I/O and timers and feeds results back
//! into these functions; every decision itself is made here.

use vstd::prelude::*;

use crate::chain::{chain_map_wf, chain_sub, in_chain, Chain};
use crate::round::{
    lemma_weight_of_member, lemma_weights_sum_excluding_add, lemma_weights_sum_excluding_member,
    lemma_weights_sum_excluding_none, voter_weight, weight_of, weights_sum,
    weights_sum_excluding, Round, RoundState,
};
use crate::vote_graph::{Condition, VoteGraph};
use crate::vote_graph::passes;
use crate::{Commit, Equivocation, Error, Precommit, Prevote, SignedPrecommit};

verus! {

/// Whether two optional blocks are the same.
pub fn opt_eq(a: Option<(u64, u64)>, b: Option<(u64, u64)>) -> (r: bool)
    ensures
        r == (a == b),
{
    match (a, b) {
        (Some((ah, an)), Some((bh, bn))) => ah == bh && an == bn,
        (None, None) => true,
        _ => false,
    }
}

/// The summed weight of a run of signed precommits, by their voters'
/// weights in the given list.
pub open spec fn signed_weight(voters: Seq<(u64, u64)>, pcs: Seq<SignedPrecommit>) -> nat
    decreases pcs.len(),
{
    if pcs.len() == 0 {
        0
    } else {
        weight_of(voters, pcs[0].id) + signed_weight(voters, pcs.drop_first())
    }
}

proof fn lemma_signed_weight_push(voters: Seq<(u64, u64)>, pcs: Seq<SignedPrecommit>, pc: SignedPrecommit)
    ensures
        signed_weight(voters, pcs.push(pc)) == signed_weight(voters, pcs) + weight_of(
            voters,
            pc.id,
        ),
    decreases pcs.len(),
{
    if pcs.len() == 0 {
        assert(pcs.push(pc)[0] == pc);
        assert(pcs.push(pc).drop_first() =~= Seq::<SignedPrecommit>::empty());
        assert(signed_weight(voters, Seq::<SignedPrecommit>::empty()) == 0);
    } else {
        assert(pcs.push(pc)[0] == pcs[0]);
        assert(pcs.push(pc).drop_first() =~= pcs.drop_first().push(pc));
        lemma_signed_weight_push(voters, pcs.drop_first(), pc);
    }
}

/// What it means for a commit to validate: every precommit targets the
/// commit target or a descendant of it, no voter appears twice, every
/// signer belongs to the voter set, and the signers' summed weight reaches
/// the threshold.
pub open spec fn commit_valid(
    c: Map<u64, crate::chain::BlockMeta>,
    target_hash: u64,
    pcs: Seq<SignedPrecommit>,
    voters: Seq<(u64, u64)>,
    t: u64,
) -> bool {
    &&& (forall|i: int|
        0 <= i < pcs.len() ==> in_chain(c, target_hash, (#[trigger] pcs[i]).precommit.target_hash))
    &&& (forall|p: int, q: int| 0 <= p < q < pcs.len() ==> pcs[p].id != pcs[q].id)
    &&& (forall|i: int|
        0 <= i < pcs.len() ==> exists|j: int|
            0 <= j < voters.len() && (#[trigger] voters[j]).0 == (#[trigger] pcs[i]).id)
    &&& passes(Condition::AtLeast(t), signed_weight(voters, pcs))
}

/// Validate a commit message: every precommit must target a descendant of
/// or the commit target itself, no voter may appear twice, every voter
/// must belong to the voter set, and the precommits alone, on an empty
/// vote-graph rooted at the target, must give a GHOST at or above the
/// target at the given threshold. Returns the GHOST block when valid.
pub fn validate_commit<C: Chain>(
    commit: &Commit,
    voters: &Vec<(u64, u64)>,
    threshold: u64,
    chain: &C,
) -> (r: Result<Option<(u64, u64)>, Error>)
    requires
        chain_map_wf(chain.blocks()),
        forall|p: int, q: int|
            0 <= p < q < voters@.len() ==> (#[trigger] voters@[p]).0 != (
            #[trigger] voters@[q]).0,
        weights_sum(voters@) <= u64::MAX,
        chain.blocks().contains_key(commit.target_hash),
        chain.blocks()[commit.target_hash].number == commit.target_number,
        forall|i: int|
            0 <= i < commit.precommits@.len() ==> (chain.blocks().contains_key(
                (#[trigger] commit.precommits@[i]).precommit.target_hash,
            ) ==> chain.blocks()[commit.precommits@[i].precommit.target_hash].number
                == commit.precommits@[i].precommit.target_number),
    ensures
        r is Ok,
        (r matches Ok(opt) && ((opt is Some) <==> commit_valid(
            chain.blocks(),
            commit.target_hash,
            commit.precommits@,
            voters@,
            threshold,
        ))),
        match r {
            Ok(Some((gh, gn))) => {
                &&& gn >= commit.target_number
                &&& chain.blocks().contains_key(gh)
                &&& chain.blocks()[gh].number == gn
                &&& in_chain(chain.blocks(), commit.target_hash, gh)
                &&& (forall|i: int|
                    0 <= i < commit.precommits@.len() ==> in_chain(
                        chain.blocks(),
                        commit.target_hash,
                        (#[trigger] commit.precommits@[i]).precommit.target_hash,
                    ))
                &&& (forall|p: int, q: int|
                    0 <= p < q < commit.precommits@.len() ==> (
                    #[trigger] commit.precommits@[p]).id != (#[trigger] commit.precommits@[q]).id)
                &&& (forall|i: int|
                    0 <= i < commit.precommits@.len() ==> exists|j: int|
                        0 <= j < voters@.len() && (#[trigger] voters@[j]).0 == (
                        #[trigger] commit.precommits@[i]).id)
            },
            Ok(None) => true,
            Err(_) => false,
        },
{
    let ghost c = chain.blocks();
    // every precommit targets the commit target or a descendant of it
    let mut i: usize = 0;
    while i < commit.precommits.len()
        invariant
            chain_map_wf(c),
            c == chain.blocks(),
            c.contains_key(commit.target_hash),
            c[commit.target_hash].number == commit.target_number,
            i <= commit.precommits@.len(),
            forall|k: int|
                0 <= k < commit.precommits@.len() ==> (c.contains_key(
                    (#[trigger] commit.precommits@[k]).precommit.target_hash,
                ) ==> c[commit.precommits@[k].precommit.target_hash].number
                    == commit.precommits@[k].precommit.target_number),
            forall|k: int|
                0 <= k < i ==> (#[trigger] commit.precommits@[k]).precommit.target_number
                    >= commit.target_number && in_chain(
                    c,
                    commit.target_hash,
                    commit.precommits@[k].precommit.target_hash,
                ),
        decreases commit.precommits@.len() - i,
    {
        let signed = &commit.precommits[i];
        if signed.precommit.target_number < commit.target_number {
            proof {
                assert(!in_chain(c, commit.target_hash, signed.precommit.target_hash)) by {
                    if in_chain(c, commit.target_hash, signed.precommit.target_hash) {
                        assert(c[signed.precommit.target_hash].number
                            == signed.precommit.target_number);
                    }
                }
            }
            return Ok(None);
        }
        if !chain.is_equal_or_descendent_of(commit.target_hash, signed.precommit.target_hash) {
            return Ok(None);
        }
        i = i + 1;
    }
    // no equivocations: no voter appears twice
    let mut p: usize = 0;
    while p < commit.precommits.len()
        invariant
            p <= commit.precommits@.len(),
            forall|x: int, y: int|
                0 <= x < y < commit.precommits@.len() && y < p ==> (
                #[trigger] commit.precommits@[x]).id != (#[trigger] commit.precommits@[y]).id,
        decreases commit.precommits@.len() - p,
    {
        let mut q: usize = 0;
        while q < p
            invariant
                p < commit.precommits@.len(),
                q <= p,
                forall|x: int|
                    0 <= x < q ==> (#[trigger] commit.precommits@[x]).id
                        != commit.precommits@[p as int].id,
                forall|x: int, y: int|
                    0 <= x < y < commit.precommits@.len() && y < p ==> (
                    #[trigger] commit.precommits@[x]).id != (#[trigger] commit.precommits@[y]).id,
            decreases p - q,
        {
            if commit.precommits[q].id == commit.precommits[p].id {
                return Ok(None);
            }
            q = q + 1;
        }
        p = p + 1;
    }
    // all precommits are from voters
    let mut v: usize = 0;
    while v < commit.precommits.len()
        invariant
            v <= commit.precommits@.len(),
            forall|k: int|
                0 <= k < v ==> exists|j: int|
                    0 <= j < voters@.len() && (#[trigger] voters@[j]).0 == (
                    #[trigger] commit.precommits@[k]).id,
        decreases commit.precommits@.len() - v,
    {
        match voter_weight(voters, commit.precommits[v].id) {
            Some(_) => {},
            None => {
                return Ok(None);
            },
        }
        v = v + 1;
    }
    // add all precommits to an empty vote-graph with the target as base
    let mut graph = VoteGraph::new(commit.target_hash, commit.target_number);
    let ghost mut used: Seq<u64> = Seq::empty();
    proof {
        lemma_weights_sum_excluding_none(voters@, used);
    }
    let mut k: usize = 0;
    while k < commit.precommits.len()
        invariant
            chain_map_wf(c),
            c == chain.blocks(),
            c.contains_key(commit.target_hash),
            c[commit.target_hash].number == commit.target_number,
            k <= commit.precommits@.len(),
            graph.wf(),
            graph.base == commit.target_hash,
            graph.base_num() == commit.target_number,
            chain_sub(graph.chain_model@, c, commit.target_hash),
            weights_sum(voters@) <= u64::MAX,
            forall|x: int, y: int|
                0 <= x < y < voters@.len() ==> (#[trigger] voters@[x]).0 != (
                #[trigger] voters@[y]).0,
            forall|x: int, y: int|
                0 <= x < y < commit.precommits@.len() ==> (#[trigger] commit.precommits@[x]).id
                    != (#[trigger] commit.precommits@[y]).id,
            forall|x: int|
                0 <= x < commit.precommits@.len() ==> exists|j: int|
                    0 <= j < voters@.len() && (#[trigger] voters@[j]).0 == (
                    #[trigger] commit.precommits@[x]).id,
            forall|x: int|
                0 <= x < commit.precommits@.len() ==> (
                #[trigger] commit.precommits@[x]).precommit.target_number
                    >= commit.target_number && in_chain(
                    c,
                    commit.target_hash,
                    commit.precommits@[x].precommit.target_hash,
                ),
            forall|x: int|
                0 <= x < commit.precommits@.len() ==> (c.contains_key(
                    (#[trigger] commit.precommits@[x]).precommit.target_hash,
                ) ==> c[commit.precommits@[x].precommit.target_hash].number
                    == commit.precommits@[x].precommit.target_number),
            forall|y: u64| #[trigger] used.contains(y) ==> exists|x: int|
                0 <= x < k && (#[trigger] commit.precommits@[x]).id == y,
            forall|x: int| 0 <= x < k ==> used.contains(
                (#[trigger] commit.precommits@[x]).id,
            ),
            graph.cum(commit.target_hash) + weights_sum_excluding(voters@, used)
                == weights_sum(voters@),
            graph.cum(commit.target_hash) == signed_weight(
                voters@,
                commit.precommits@.subrange(0, k as int),
            ),
        decreases commit.precommits@.len() - k,
    {
        let signed = &commit.precommits[k];
        let weight = voter_weight(voters, signed.id).unwrap();
        proof {
            assert(!used.contains(signed.id)) by {
                if used.contains(signed.id) {
                    let x = choose|x: int|
                        0 <= x < k && (#[trigger] commit.precommits@[x]).id == signed.id;
                    assert(commit.precommits@[x].id == commit.precommits@[k as int].id);
                }
            }
            let j = choose|j: int|
                0 <= j < voters@.len() && voters@[j] == (signed.id, weight);
            lemma_weights_sum_excluding_member(voters@, used, j);
            assert(graph.cum(commit.target_hash) + weight <= weights_sum(voters@));
        }
        let ghost pre = graph;
        match graph.insert(
            signed.precommit.target_hash,
            signed.precommit.target_number,
            weight,
            chain,
        ) {
            Ok(()) => {},
            Err(e) => {
                proof {
                    assert(in_chain(c, commit.target_hash, signed.precommit.target_hash));
                    assert(signed.precommit.target_hash == commit.target_hash
                        || crate::chain::strict_desc(
                        c,
                        commit.target_hash,
                        signed.precommit.target_hash,
                    )) by {
                        if signed.precommit.target_hash != commit.target_hash {
                            assert(c[signed.precommit.target_hash].number
                                > commit.target_number) by {
                                if c[signed.precommit.target_hash].number
                                    == commit.target_number {
                                    assert(crate::chain::chain_anc(
                                        c,
                                        signed.precommit.target_hash,
                                        commit.target_number,
                                    ) == signed.precommit.target_hash);
                                }
                            }
                        }
                    }
                    assert(false);
                }
                return Err(e);
            },
        }
        proof {
            let pre_used = used;
            used = used.push(signed.id);
            assert forall|y: u64| #[trigger] used.contains(y) implies (pre_used.contains(y) || y
                == signed.id) by {
                let m = choose|m: int| 0 <= m < used.len() && used[m] == y;
                if m < used.len() - 1 {
                    assert(pre_used[m] == y);
                }
            }
            assert forall|y: u64| pre_used.contains(y) || y == signed.id implies
                #[trigger] used.contains(y) by {
                if y == signed.id {
                    assert(used[used.len() - 1] == y);
                } else {
                    let m = choose|m: int| 0 <= m < pre_used.len() && pre_used[m] == y;
                    assert(used[m] == y);
                }
            }
            lemma_weights_sum_excluding_add(voters@, pre_used, signed.id, weight);
            assert forall|y: u64| #[trigger] used.contains(y) implies exists|x: int|
                0 <= x < k + 1 && (#[trigger] commit.precommits@[x]).id == y by {
                if pre_used.contains(y) {
                    let x = choose|x: int|
                        0 <= x < k && (#[trigger] commit.precommits@[x]).id == y;
                } else {
                    assert(commit.precommits@[k as int].id == y);
                }
            }
            assert forall|x: int| 0 <= x < k + 1 implies used.contains(
                (#[trigger] commit.precommits@[x]).id,
            ) by {
                if x < k {
                    assert(pre_used.contains(commit.precommits@[x].id));
                } else {
                    assert(used[used.len() - 1] == signed.id);
                }
            }
            let jw = choose|jw: int|
                0 <= jw < voters@.len() && voters@[jw] == (signed.id, weight);
            lemma_weight_of_member(voters@, jw);
            assert(weight_of(voters@, signed.id) == weight as nat);
            assert(commit.precommits@.subrange(0, k + 1) =~= commit.precommits@.subrange(
                0,
                k as int,
            ).push(commit.precommits@[k as int]));
            lemma_signed_weight_push(
                voters@,
                commit.precommits@.subrange(0, k as int),
                commit.precommits@[k as int],
            );
        }
        k = k + 1;
    }
    proof {
        assert(graph.has(commit.target_hash));
        assert(graph.num(commit.target_hash) == commit.target_number) by {
            assert(graph.entry_ok(commit.target_hash));
        }
    }
    let ghost cm = graph.chain_model@;
    let ghost bn = commit.target_number;
    let ghost gbase = commit.target_hash;
    let ghost gwf = graph.wf();
    proof {
        assert(commit.precommits@.subrange(0, commit.precommits@.len() as int)
            =~= commit.precommits@);
        assert(graph.cum(commit.target_hash) == signed_weight(voters@, commit.precommits@));
    }
    let result = graph.find_ghost(
        Some((commit.target_hash, commit.target_number)),
        Condition::AtLeast(threshold),
    );
    proof {
        // the GHOST query answers exactly when the signers' weight passes
        // the threshold, and the three structural checks have all held
        assert(result is Some <==> passes(
            Condition::AtLeast(threshold),
            signed_weight(voters@, commit.precommits@),
        ));
    }
    match result {
        Some((gh, gn)) => {
            proof {
                assert(graph.chain_model@.contains_key(gh)
                    && graph.chain_model@[gh].number == gn);
                assert(gn >= commit.target_number) by {
                    assert(graph.wf());
                }
                assert(in_chain(c, commit.target_hash, gh)) by {
                    let m = graph.chain_model@;
                    let b0 = graph.base;
                    let n0 = graph.entries@[b0].number;
                    assert(crate::chain::rooted(m, b0, n0));
                    if gh != b0 {
                        crate::chain::lemma_chain_anc_props(m, b0, n0, gh, n0);
                        crate::chain::lemma_chain_anc_agree(m, c, b0, n0, gh, n0);
                    }
                }
                assert(c.contains_key(gh) && c[gh].number == gn) by {
                    assert(graph.chain_model@.contains_key(gh));
                }
                assert(commit_valid(
                    c,
                    commit.target_hash,
                    commit.precommits@,
                    voters@,
                    threshold,
                ));
            }
            Ok(Some((gh, gn)))
        },
        None => {
            proof {
                assert(!commit_valid(
                    c,
                    commit.target_hash,
                    commit.precommits@,
                    voters@,
                    threshold,
                ));
            }
            Ok(None)
        },
    }
}

/// A background round can be discarded once its estimate is at or below
/// the finalized height: no future precommit can move it.
pub fn background_round_done(estimate: Option<(u64, u64)>, finalized_number: u64) -> (r: bool)
    ensures
        r == match estimate {
            Some((_eh, en)) => en <= finalized_number,
            None => false,
        },
{
    match estimate {
        Some((_eh, en)) => en <= finalized_number,
        None => false,
    }
}

/// Record a finalization notification: the last finalized block advances
/// exactly when the notification is strictly newer, so the finalized
/// height never decreases across the life of the voter.
pub fn update_last_finalized(last_finalized: &mut (u64, u64), note: (u64, u64)) -> (finalize: bool)
    ensures
        finalize == (note.1 > old(last_finalized).1),
        finalize ==> *final(last_finalized) == note,
        !finalize ==> *final(last_finalized) == *old(last_finalized),
        final(last_finalized).1 >= old(last_finalized).1,
{
    if note.1 > last_finalized.1 {
        *last_finalized = note;
        true
    } else {
        false
    }
}

/// The precommit a round casts: its prevote-GHOST, or the round base when
/// no prevote-GHOST exists yet.
pub fn construct_precommit(round: &Round) -> (p: Precommit)
    ensures
        match round.state.prevote_ghost {
            Some((gh, gn)) => p == (Precommit { target_hash: gh, target_number: gn }),
            None => p == (Precommit {
                target_hash: round.base.0,
                target_number: round.base.1,
            }),
        },
{
    let (h, n) = match round.state().prevote_ghost {
        Some(t) => t,
        None => round.base_block(),
    };
    Precommit { target_hash: h, target_number: n }
}

/// Whether a round in its starting step should cast its prevote now.
pub fn should_prevote(prevote_timer_ready: bool, completable: bool) -> (r: bool)
    ensures
        r == (prevote_timer_ready || completable),
{
    prevote_timer_ready || completable
}

/// Whether a round that has prevoted should cast its precommit now: the
/// previous round's estimate must equal or be an ancestor of this round's
/// prevote-GHOST, and the precommit timer must have fired or the round be
/// completable.
pub fn should_precommit<C: Chain>(
    last_round_estimate: (u64, u64),
    prevote_ghost: Option<(u64, u64)>,
    chain: &C,
    precommit_timer_ready: bool,
    completable: bool,
) -> (r: bool)
    requires
        chain_map_wf(chain.blocks()),
    ensures
        r == ((match prevote_ghost {
            Some((gh, _gn)) => gh == last_round_estimate.0 || in_chain(
                chain.blocks(),
                last_round_estimate.0,
                gh,
            ),
            None => false,
        }) && (precommit_timer_ready || completable)),
{
    let ghost_ok = match prevote_ghost {
        Some((gh, _gn)) => gh == last_round_estimate.0 || chain.is_equal_or_descendent_of(
            last_round_estimate.0,
            gh,
        ),
        None => false,
    };
    ghost_ok && (precommit_timer_ready || completable)
}

/// The decision of which block a prevote extends: the primary's hint when
/// it equals the previous prevote-GHOST, or when it sits strictly under it
/// on its chain within the stretch the previous estimate covers; the
/// previous estimate otherwise.
pub open spec fn prevote_target_spec(
    c: Map<u64, crate::chain::BlockMeta>,
    est: (u64, u64),
    pg: (u64, u64),
    primary: Option<(u64, u64)>,
) -> u64 {
    match primary {
        None => est.0,
        Some(p) => if p == pg {
            p.0
        } else if p.1 >= pg.1 {
            est.0
        } else if crate::chain::strict_desc(c, est.0, pg.0) && pg.1 - p.1 - 1 < c[pg.0].number
            - c[est.0].number && crate::chain::chain_anc(
            c,
            pg.0,
            (c[pg.0].number - (pg.1 - p.1)) as u64,
        ) == p.0 {
            p.0
        } else {
            est.0
        },
    }
}

/// The block whose best chain a prevote should extend: the primary's
/// hinted block when it equals the previous prevote-GHOST or is a strict
/// ancestor of it above the previous estimate, else the previous estimate.
pub fn prevote_base_target<C: Chain>(
    last_round_state: &RoundState,
    primary_block: Option<(u64, u64)>,
    chain: &C,
) -> (t: u64)
    requires
        chain_map_wf(chain.blocks()),
        last_round_state.estimate is Some,
        last_round_state.prevote_ghost is Some,
    ensures
        t == prevote_target_spec(
            chain.blocks(),
            last_round_state.estimate.unwrap(),
            last_round_state.prevote_ghost.unwrap(),
            primary_block,
        ),
{
    let last_round_estimate = last_round_state.estimate.unwrap();
    match primary_block {
        None => last_round_estimate.0,
        Some((p_hash, p_num)) => {
            let last_prevote_g = last_round_state.prevote_ghost.unwrap();
            if p_hash == last_prevote_g.0 && p_num == last_prevote_g.1 {
                p_hash
            } else if p_num >= last_prevote_g.1 {
                last_round_estimate.0
            } else {
                match chain.ancestry(last_round_estimate.0, last_prevote_g.0) {
                    Ok(ancestry) => {
                        let to_sub = p_num + 1;
                        let offset: u64 = if last_prevote_g.1 < to_sub {
                            0
                        } else {
                            last_prevote_g.1 - to_sub
                        };
                        if offset < ancestry.len() as u64 && ancestry[offset as usize] == p_hash {
                            proof {
                                let c = chain.blocks();
                                assert(ancestry@[offset as int] == crate::chain::chain_anc(
                                    c,
                                    last_prevote_g.0,
                                    (c[last_prevote_g.0].number - 1 - offset) as u64,
                                ));
                                assert(offset == last_prevote_g.1 - p_num - 1);
                            }
                            p_hash
                        } else {
                            last_round_estimate.0
                        }
                    },
                    Err(_) => last_round_estimate.0,
                }
            }
        },
    }
}

/// The prevote a round casts: the head of the best chain containing the
/// chosen base target, if the chain still knows one.
pub fn construct_prevote<C: Chain>(
    last_round_state: &RoundState,
    primary_block: Option<(u64, u64)>,
    chain: &C,
) -> (r: Option<Prevote>)
    requires
        chain_map_wf(chain.blocks()),
        last_round_state.estimate is Some,
        last_round_state.prevote_ghost is Some,
    ensures
        match r {
            Some(p) => {
                &&& p.target_number == chain.blocks()[p.target_hash].number
                &&& in_chain(
                    chain.blocks(),
                    prevote_target_spec(
                        chain.blocks(),
                        last_round_state.estimate.unwrap(),
                        last_round_state.prevote_ghost.unwrap(),
                        primary_block,
                    ),
                    p.target_hash,
                )
            },
            None => true,
        },
{
    let find_descendent_of = prevote_base_target(last_round_state, primary_block, chain);
    match chain.best_chain_containing(find_descendent_of) {
        Some((h, n)) => Some(Prevote { target_hash: h, target_number: n }),
        None => None,
    }
}

/// Whether a round should send a finalization notification after a poll:
/// the finalized block changed, the round is completable, and this voter
/// has already precommitted.
pub fn should_notify_finalized(
    pre_state: &RoundState,
    post_state: &RoundState,
    precommitted: bool,
) -> (r: bool)
    ensures
        r == (post_state.finalized != pre_state.finalized && post_state.completable
            && precommitted && post_state.finalized is Some),
{
    let changed = !opt_eq(pre_state.finalized, post_state.finalized);
    changed && post_state.completable && precommitted && match post_state.finalized {
        Some(_) => true,
        None => false,
    }
}

/// Whether a round committer should emit a fresh commit when its timer
/// fires: the round has finalized a block, and no commit seen so far
/// covers it.
pub fn should_send_commit(
    last_commit_target: Option<u64>,
    finalized: Option<(u64, u64)>,
) -> (r: bool)
    ensures
        r == match (last_commit_target, finalized) {
            (None, Some(_)) => true,
            (Some(t), Some((_fh, fnum))) => t < fnum,
            _ => false,
        },
{
    match (last_commit_target, finalized) {
        (None, Some(_)) => true,
        (Some(t), Some((_fh, fnum))) => t < fnum,
        _ => false,
    }
}

/// Build the commit a round broadcasts: its finalized block together with
/// every stored precommit that targets a descendant of or the block
/// itself. The stored list holds one precommit per voter, so no
/// deduplication is needed.
#[verifier::rlimit(100)]
pub fn build_commit<C: Chain>(round: &Round, chain: &C) -> (r: Option<Commit>)
    requires
        round.wf(),
        chain_map_wf(chain.blocks()),
    ensures
        match r {
            Some(c) => {
                &&& Some((c.target_hash, c.target_number)) == round.state.finalized
                &&& (forall|i: int|
                    0 <= i < c.precommits@.len() ==> in_chain(
                        chain.blocks(),
                        c.target_hash,
                        (#[trigger] c.precommits@[i]).precommit.target_hash,
                    ))
                &&& (forall|p: int, q: int|
                    0 <= p < q < c.precommits@.len() ==> (#[trigger] c.precommits@[p]).id != (
                    #[trigger] c.precommits@[q]).id)
                &&& (forall|i: int|
                    0 <= i < c.precommits@.len() ==> round.precommits@.contains(
                        ((#[trigger] c.precommits@[i]).id, c.precommits@[i].precommit, c.precommits@[i].signature),
                    ))
                &&& (forall|x: int|
                    0 <= x < round.precommits@.len() && in_chain(
                        chain.blocks(),
                        c.target_hash,
                        (#[trigger] round.precommits@[x]).1.target_hash,
                    ) ==> exists|k: int|
                        0 <= k < c.precommits@.len() && (#[trigger] c.precommits@[k]).id
                            == round.precommits@[x].0 && c.precommits@[k].precommit
                            == round.precommits@[x].1 && c.precommits@[k].signature
                            == round.precommits@[x].2)
            },
            None => round.state.finalized is None,
        },
{
    let (target_hash, target_number) = match round.finalized() {
        Some(t) => t,
        None => {
            return None;
        },
    };
    let all = round.precommit_list();
    let mut precommits: Vec<crate::SignedPrecommit> = Vec::new();
    let ghost mut out_at: Map<int, int> = Map::empty();
    let mut i: usize = 0;
    while i < all.len()
        invariant
            round.wf(),
            chain_map_wf(chain.blocks()),
            i <= all@.len(),
            all@ == round.precommits@,
            forall|k: int|
                0 <= k < precommits@.len() ==> in_chain(
                    chain.blocks(),
                    target_hash,
                    (#[trigger] precommits@[k]).precommit.target_hash,
                ),
            forall|k: int|
                0 <= k < precommits@.len() ==> round.precommits@.contains(
                    ((#[trigger] precommits@[k]).id, precommits@[k].precommit, precommits@[k].signature),
                ),
            forall|k: int| 0 <= k < precommits@.len() ==> exists|x: int|
                0 <= x < i && (#[trigger] precommits@[k]).id == round.precommits@[x].0
                    && precommits@[k].precommit == round.precommits@[x].1,
            forall|p: int, q: int|
                0 <= p < q < precommits@.len() ==> (#[trigger] precommits@[p]).id != (
                #[trigger] precommits@[q]).id,
            forall|x: int|
                0 <= x < i && in_chain(
                    chain.blocks(),
                    target_hash,
                    (#[trigger] round.precommits@[x]).1.target_hash,
                ) ==> out_at.contains_key(x) && 0 <= out_at[x] < precommits@.len()
                    && precommits@[out_at[x]].id == round.precommits@[x].0
                    && precommits@[out_at[x]].precommit == round.precommits@[x].1
                    && precommits@[out_at[x]].signature == round.precommits@[x].2,
        decreases all@.len() - i,
    {
        let (id, pc, sig) = all[i];
        let keep = chain.is_equal_or_descendent_of(target_hash, pc.target_hash);
        proof {
            if !keep {
                assert(!in_chain(chain.blocks(), target_hash, round.precommits@[i as int].1.target_hash));
            }
        }
        if keep {
            proof {
                assert(round.precommits@.contains((id, pc, sig))) by {
                    assert(round.precommits@[i as int] == (id, pc, sig));
                }
                assert forall|k: int| 0 <= k < precommits@.len() implies (
                #[trigger] precommits@[k]).id != id by {
                    let x = choose|x: int|
                        0 <= x < i && precommits@[k].id == round.precommits@[x].0
                            && precommits@[k].precommit == round.precommits@[x].1;
                    assert(round.precommits@[x].0 != round.precommits@[i as int].0);
                }
            }
            let ghost pre_out = precommits@;
            precommits.push(crate::SignedPrecommit { precommit: pc, signature: sig, id });
            proof {
                assert(precommits@.last().id == id);
                assert(precommits@.last() == (crate::SignedPrecommit {
                    precommit: pc,
                    signature: sig,
                    id,
                }));
                out_at = out_at.insert(i as int, precommits@.len() - 1);
                assert forall|x: int|
                    0 <= x < i + 1 && in_chain(
                        chain.blocks(),
                        target_hash,
                        (#[trigger] round.precommits@[x]).1.target_hash,
                    ) implies out_at.contains_key(x) && 0 <= out_at[x] < precommits@.len()
                    && precommits@[out_at[x]].id == round.precommits@[x].0
                    && precommits@[out_at[x]].precommit == round.precommits@[x].1
                    && precommits@[out_at[x]].signature == round.precommits@[x].2 by {
                    if x < i as int {
                        assert(precommits@[out_at[x]] == pre_out[out_at[x]]);
                    } else {
                        assert(round.precommits@[x] == (id, pc, sig));
                        assert(out_at[x] == precommits@.len() - 1);
                    }
                }
            }
        }
        i = i + 1;
    }
    let result = Commit { target_hash, target_number, precommits };
    proof {
        assert forall|x: int|
            0 <= x < round.precommits@.len() && in_chain(
                chain.blocks(),
                result.target_hash,
                (#[trigger] round.precommits@[x]).1.target_hash,
            ) implies exists|k: int|
            0 <= k < result.precommits@.len() && (#[trigger] result.precommits@[k]).id
                == round.precommits@[x].0 && result.precommits@[k].precommit
                == round.precommits@[x].1 && result.precommits@[k].signature
                == round.precommits@[x].2 by {
            let k0 = out_at[x];
            assert(0 <= k0 < result.precommits@.len() && result.precommits@[k0].id
                == round.precommits@[x].0 && result.precommits@[k0].precommit
                == round.precommits@[x].1 && result.precommits@[k0].signature
                == round.precommits@[x].2);
        }
    }
    Some(result)
}

/// Import a commit into a running round: ignore it when it is below what
/// the round already finalized, reject it when invalid, and otherwise
/// count each of its precommits, collecting any equivocations found.
pub fn import_commit<C: Chain>(round: &mut Round, commit: &Commit, chain: &C) -> (r: Result<
    (bool, Vec<Equivocation<Precommit>>),
    Error,
>)
    requires
        old(round).wf(),
        chain_map_wf(chain.blocks()),
        chain_sub(old(round).prevote_graph.chain_model@, chain.blocks(), old(round).base.0),
        chain_sub(old(round).precommit_graph.chain_model@, chain.blocks(), old(round).base.0),
        forall|p: int, q: int|
            0 <= p < q < old(round).voters@.len() ==> (#[trigger] old(round).voters@[p]).0 != (
            #[trigger] old(round).voters@[q]).0,
        weights_sum(old(round).voters@) <= u64::MAX,
        chain.blocks().contains_key(commit.target_hash),
        chain.blocks()[commit.target_hash].number == commit.target_number,
        forall|i: int|
            0 <= i < commit.precommits@.len() ==> (chain.blocks().contains_key(
                (#[trigger] commit.precommits@[i]).precommit.target_hash,
            ) ==> chain.blocks()[commit.precommits@[i].precommit.target_hash].number
                == commit.precommits@[i].precommit.target_number),
    ensures
        final(round).wf(),
        final(round).base == old(round).base,
        final(round).voters@ == old(round).voters@,
        final(round).round_number == old(round).round_number,
        (r matches Ok((accepted, _eqs)) ==> (accepted <==> (commit.target_number < (
        match old(round).state.finalized {
            Some((_fh, fnum)) => fnum as int,
            None => 0,
        }) || commit_valid(
            chain.blocks(),
            commit.target_hash,
            commit.precommits@,
            old(round).voters@,
            old(round).threshold_weight,
        )))),
        (r matches Ok((accepted, _eqs)) && accepted && !(commit.target_number < (
        match old(round).state.finalized {
            Some((_fh, fnum)) => fnum as int,
            None => 0,
        })) ==> forall|i: int|
            0 <= i < commit.precommits@.len() ==> final(round).precommit_ids().contains(
                (#[trigger] commit.precommits@[i]).id,
            )),
        (commit.target_number < (match old(round).state.finalized {
            Some((_fh, fnum)) => fnum as int,
            None => 0,
        })) ==> *final(round) == *old(round),
        (!(commit.target_number < (match old(round).state.finalized {
            Some((_fh, fnum)) => fnum as int,
            None => 0,
        })) && !commit_valid(
            chain.blocks(),
            commit.target_hash,
            commit.precommits@,
            old(round).voters@,
            old(round).threshold_weight,
        )) ==> *final(round) == *old(round),
{
    let fin_number = match round.finalized() {
        Some((_h, n)) => n,
        None => 0,
    };
    if commit.target_number < fin_number {
        return Ok((true, Vec::new()));
    }
    let valid = match validate_commit(commit, &round.voters, round.threshold(), chain) {
        Ok(v) => v,
        Err(e) => {
            return Err(e);
        },
    };
    match valid {
        Some(_) => {},
        None => {
            return Ok((false, Vec::new()));
        },
    }
    let mut equivocations: Vec<Equivocation<Precommit>> = Vec::new();
    let mut i: usize = 0;
    while i < commit.precommits.len()
        invariant
            i <= commit.precommits@.len(),
            round.wf(),
            round.base == old(round).base,
            round.voters@ == old(round).voters@,
            round.round_number == old(round).round_number,
            chain_map_wf(chain.blocks()),
            chain_sub(round.prevote_graph.chain_model@, chain.blocks(), round.base.0),
            chain_sub(round.precommit_graph.chain_model@, chain.blocks(), round.base.0),
            commit_valid(
                chain.blocks(),
                commit.target_hash,
                commit.precommits@,
                old(round).voters@,
                old(round).threshold_weight,
            ),
            !(commit.target_number < (match old(round).state.finalized {
                Some((_fh, fnum)) => fnum as int,
                None => 0,
            })),
            forall|x: int|
                0 <= x < commit.precommits@.len() ==> (chain.blocks().contains_key(
                    (#[trigger] commit.precommits@[x]).precommit.target_hash,
                ) ==> chain.blocks()[commit.precommits@[x].precommit.target_hash].number
                    == commit.precommits@[x].precommit.target_number),
            forall|x: int|
                0 <= x < i ==> round.precommit_ids().contains(
                    (#[trigger] commit.precommits@[x]).id,
                ),
        decreases commit.precommits@.len() - i,
    {
        let signed = &commit.precommits[i];
        proof {
            assert(exists|j: int|
                0 <= j < round.voters@.len() && (#[trigger] round.voters@[j]).0
                    == commit.precommits@[i as int].id) by {
                assert(commit.precommits@[i as int] == *signed);
            }
        }
        match round.import_precommit(chain, signed.precommit, signed.id, signed.signature) {
            Ok(Some(eq)) => {
                equivocations.push(eq);
            },
            Ok(None) => {},
            Err(e) => {
                return Err(e);
            },
        }
        proof {
            assert(round.precommit_ids().contains(commit.precommits@[i as int].id));
        }
        i = i + 1;
    }
    Ok((true, equivocations))
}

} // verus!
