//! Per-round accumulation of prevotes and precommits: each kind feeds its
//! own vote-graph, equivocations are detected per voter, and after every
//! import the round's derived state — prevote-GHOST, estimate, finalized
//! block and completability — is recomputed.

use vstd::prelude::*;

use crate::chain::{chain_anc, chain_map_wf, chain_sub, in_chain, strict_desc, Chain};
use crate::vote_graph::{passes, Condition, VoteGraph};
use crate::{spec_threshold, threshold, Equivocation, Error, Precommit, Prevote};

verus! {

/// The derived state of a round.
#[derive(Clone, Copy, Debug)]
pub struct RoundState {
    pub prevote_ghost: Option<(u64, u64)>,
    pub finalized: Option<(u64, u64)>,
    pub estimate: Option<(u64, u64)>,
    pub completable: bool,
}

impl RoundState {
    /// The state of a round that has seen no votes beyond its genesis.
    pub fn genesis(base: (u64, u64)) -> (s: RoundState)
        ensures
            s.prevote_ghost == Some::<(u64, u64)>(base),
            s.finalized == Some::<(u64, u64)>(base),
            s.estimate == Some::<(u64, u64)>(base),
            s.completable,
    {
        RoundState {
            prevote_ghost: Some(base),
            finalized: Some(base),
            estimate: Some(base),
            completable: true,
        }
    }
}

/// What a round is built from: its number, the voters with their weights,
/// and the base block votes must descend from.
pub struct RoundParams {
    pub round_number: u64,
    pub voters: Vec<(u64, u64)>,
    pub base: (u64, u64),
}

/// Sum of the weights of a voter list.
pub open spec fn weights_sum(s: Seq<(u64, u64)>) -> nat
    decreases s.len(),
{
    if s.len() == 0 {
        0
    } else {
        s[0].1 as nat + weights_sum(s.drop_first())
    }
}

/// Sum of the weights of the voters whose ids are not listed in `voted`.
pub open spec fn weights_sum_excluding(s: Seq<(u64, u64)>, voted: Seq<u64>) -> nat
    decreases s.len(),
{
    if s.len() == 0 {
        0
    } else if voted.contains(s[0].0) {
        weights_sum_excluding(s.drop_first(), voted)
    } else {
        s[0].1 as nat + weights_sum_excluding(s.drop_first(), voted)
    }
}

/// The weight the voter list assigns to an id (the first match).
pub open spec fn weight_of(s: Seq<(u64, u64)>, id: u64) -> nat
    decreases s.len(),
{
    if s.len() == 0 {
        0
    } else if s[0].0 == id {
        s[0].1 as nat
    } else {
        weight_of(s.drop_first(), id)
    }
}

pub proof fn lemma_weight_of_member(s: Seq<(u64, u64)>, i: int)
    requires
        0 <= i < s.len(),
        forall|p: int, q: int| 0 <= p < q < s.len() ==> s[p].0 != s[q].0,
    ensures
        weight_of(s, s[i].0) == s[i].1,
    decreases s.len(),
{
    if i > 0 {
        assert(s[0].0 != s[i].0);
        assert(s.drop_first()[i - 1] == s[i]);
        assert forall|p: int, q: int| 0 <= p < q < s.drop_first().len() implies (
        #[trigger] s.drop_first()[p]).0 != (#[trigger] s.drop_first()[q]).0 by {
            assert(s.drop_first()[p] == s[p + 1]);
            assert(s.drop_first()[q] == s[q + 1]);
        }
        lemma_weight_of_member(s.drop_first(), i - 1);
    }
}

pub proof fn lemma_weights_sum_excluding_member(s: Seq<(u64, u64)>, voted: Seq<u64>, i: int)
    requires
        0 <= i < s.len(),
        !voted.contains(s[i].0),
    ensures
        weights_sum_excluding(s, voted) >= s[i].1,
    decreases s.len(),
{
    if i > 0 {
        lemma_weights_sum_excluding_member(s.drop_first(), voted, i - 1);
    }
}

pub proof fn lemma_weights_sum_excluding_add(s: Seq<(u64, u64)>, voted: Seq<u64>, id: u64, w: u64)
    requires
        forall|p: int, q: int| 0 <= p < q < s.len() ==> s[p].0 != s[q].0,
        exists|i: int| 0 <= i < s.len() && s[i] == (id, w),
        !voted.contains(id),
        forall|y: u64| #[trigger] voted.push(id).contains(y) <==> (voted.contains(y) || y == id),
    ensures
        weights_sum_excluding(s, voted) == weights_sum_excluding(s, voted.push(id)) + w,
    decreases s.len(),
{
    if s.len() > 0 {
        let i = choose|i: int| 0 <= i < s.len() && s[i] == (id, w);
        if i == 0 {
            assert(s[0].0 == id);
            assert(voted.push(id).contains(id));
            assert forall|p: int| 0 <= p < s.drop_first().len() implies (
            #[trigger] s.drop_first()[p]).0 != id by {
                assert(s.drop_first()[p] == s[p + 1]);
                assert(s[p + 1].0 != s[0].0);
            }
            lemma_weights_sum_excluding_same(s.drop_first(), voted, voted.push(id), id);
        } else {
            assert(s.drop_first()[i - 1] == s[i]);
            assert(s[0].0 != id);
            assert(!voted.push(id).contains(s[0].0)
                <==> !(voted.contains(s[0].0) || s[0].0 == id));
            lemma_weights_sum_excluding_add(s.drop_first(), voted, id, w);
        }
    }
}

proof fn lemma_weights_sum_excluding_same(
    s: Seq<(u64, u64)>,
    v1: Seq<u64>,
    v2: Seq<u64>,
    except: u64,
)
    requires
        forall|p: int| 0 <= p < s.len() ==> (#[trigger] s[p]).0 != except,
        forall|y: u64| y != except ==> (v1.contains(y) <==> v2.contains(y)),
    ensures
        weights_sum_excluding(s, v1) == weights_sum_excluding(s, v2),
    decreases s.len(),
{
    if s.len() > 0 {
        assert(s[0].0 != except);
        assert(v1.contains(s[0].0) <==> v2.contains(s[0].0));
        assert forall|p: int| 0 <= p < s.drop_first().len() implies (
        #[trigger] s.drop_first()[p]).0 != except by {
            assert(s.drop_first()[p] == s[p + 1]);
        }
        lemma_weights_sum_excluding_same(s.drop_first(), v1, v2, except);
    }
}

/// Look up a voter's weight by id.
pub fn voter_weight(voters: &Vec<(u64, u64)>, id: u64) -> (r: Option<u64>)
    ensures
        match r {
            Some(w) => exists|i: int| 0 <= i < voters@.len() && voters@[i] == (id, w),
            None => forall|i: int| 0 <= i < voters@.len() ==> (#[trigger] voters@[i]).0 != id,
        },
{
    let mut i: usize = 0;
    while i < voters.len()
        invariant
            i <= voters@.len(),
            forall|k: int| 0 <= k < i ==> (#[trigger] voters@[k]).0 != id,
        decreases voters@.len() - i,
    {
        if voters[i].0 == id {
            return Some(voters[i].1);
        }
        i = i + 1;
    }
    None
}

/// Tallies the prevotes and precommits of one round.
pub struct Round {
    pub round_number: u64,
    pub voters: Vec<(u64, u64)>,
    pub total_weight: u64,
    pub threshold_weight: u64,
    pub base: (u64, u64),
    pub prevote_graph: VoteGraph,
    pub precommit_graph: VoteGraph,
    pub prevotes: Vec<(u64, Prevote, u64)>,
    pub precommits: Vec<(u64, Precommit, u64)>,
    pub prevote_weight: u64,
    pub precommit_weight: u64,
    pub state: RoundState,
}

impl Round {
    /// The voter ids that have cast a prevote.
    pub open spec fn prevote_ids(self) -> Seq<u64> {
        self.prevotes@.map_values(|t: (u64, Prevote, u64)| t.0)
    }

    /// The voter ids that have cast a precommit.
    pub open spec fn precommit_ids(self) -> Seq<u64> {
        self.precommits@.map_values(|t: (u64, Precommit, u64)| t.0)
    }

    /// The round invariant: sound weight accounting for both vote kinds,
    /// well-formed graphs rooted at the round base, one vote per voter per
    /// kind, and every recorded voter in the voter set.
    pub open spec fn wf(self) -> bool {
        &&& self.threshold_weight == spec_threshold(self.total_weight)
        &&& self.total_weight == weights_sum(self.voters@)
        &&& (forall|p: int, q: int|
            0 <= p < q < self.voters@.len() ==> (#[trigger] self.voters@[p]).0 != (
            #[trigger] self.voters@[q]).0)
        &&& self.prevote_graph.wf()
        &&& self.precommit_graph.wf()
        &&& self.prevote_graph.base == self.base.0
        &&& self.precommit_graph.base == self.base.0
        &&& self.prevote_graph.base_num() == self.base.1
        &&& self.precommit_graph.base_num() == self.base.1
        &&& (forall|p: int, q: int|
            0 <= p < q < self.prevotes@.len() ==> (#[trigger] self.prevotes@[p]).0 != (
            #[trigger] self.prevotes@[q]).0)
        &&& (forall|p: int, q: int|
            0 <= p < q < self.precommits@.len() ==> (#[trigger] self.precommits@[p]).0 != (
            #[trigger] self.precommits@[q]).0)
        &&& self.prevote_graph.cum(self.base.0) + weights_sum_excluding(
            self.voters@,
            self.prevote_ids(),
        ) == self.total_weight
        &&& self.precommit_graph.cum(self.base.0) + weights_sum_excluding(
            self.voters@,
            self.precommit_ids(),
        ) == self.total_weight
        &&& self.prevote_weight == self.prevote_graph.cum(self.base.0)
        &&& self.precommit_weight == self.precommit_graph.cum(self.base.0)
        &&& (forall|b: u64|
            #[trigger] self.prevote_graph.chain_model@.contains_key(b)
                && #[trigger] self.precommit_graph.chain_model@.contains_key(b)
                ==> self.prevote_graph.chain_model@[b].number
                == self.precommit_graph.chain_model@[b].number)
        &&& (self.state.completable ==> self.state.estimate is Some)
    }

    /// Create a new round accumulator.
    pub fn new(params: RoundParams) -> (r: Round)
        requires
            forall|p: int, q: int|
                0 <= p < q < params.voters@.len() ==> (#[trigger] params.voters@[p]).0 != (
                #[trigger] params.voters@[q]).0,
            weights_sum(params.voters@) <= u64::MAX,
        ensures
            r.wf(),
            r.round_number == params.round_number,
            r.base == params.base,
            r.voters@ == params.voters@,
            r.total_weight == weights_sum(params.voters@),
            r.threshold_weight == spec_threshold(r.total_weight),
            r.prevotes@.len() == 0,
            r.precommits@.len() == 0,
            r.state == (RoundState {
                prevote_ghost: None::<(u64, u64)>,
                finalized: None::<(u64, u64)>,
                estimate: None::<(u64, u64)>,
                completable: false,
            }),
    {
        let mut total: u64 = 0;
        let mut i: usize = 0;
        while i < params.voters.len()
            invariant
                i <= params.voters@.len(),
                total as nat == weights_sum(params.voters@.subrange(0, i as int)),
                weights_sum(params.voters@) <= u64::MAX,
                forall|p: int, q: int|
                    0 <= p < q < params.voters@.len() ==> (#[trigger] params.voters@[p]).0 != (
                    #[trigger] params.voters@[q]).0,
            decreases params.voters@.len() - i,
        {
            proof {
                lemma_weights_sum_prefix(params.voters@, i as int);
            }
            total = total + params.voters[i].1;
            i = i + 1;
        }
        proof {
            assert(params.voters@.subrange(0, params.voters@.len() as int) =~= params.voters@);
        }
        let t = threshold(total);
        let prevote_graph = VoteGraph::new(params.base.0, params.base.1);
        let precommit_graph = VoteGraph::new(params.base.0, params.base.1);
        let r = Round {
            round_number: params.round_number,
            voters: params.voters,
            total_weight: total,
            threshold_weight: t,
            base: params.base,
            prevote_graph,
            precommit_graph,
            prevotes: Vec::new(),
            precommits: Vec::new(),
            prevote_weight: 0,
            precommit_weight: 0,
            state: RoundState { prevote_ghost: None, finalized: None, estimate: None, completable: false },
        };
        proof {
            assert(r.prevote_ids() =~= Seq::<u64>::empty());
            assert(r.precommit_ids() =~= Seq::<u64>::empty());
            lemma_weights_sum_excluding_none(r.voters@, r.prevote_ids());
        }
        r
    }

    /// Import a prevote. The first prevote of a voter adds the voter's
    /// weight on its target; a second, different prevote yields an
    /// equivocation record and no weight; an exact duplicate and a vote
    /// from an unknown voter change nothing. The derived state is
    /// recomputed after a counted vote.
    pub fn import_prevote<C: Chain>(
        &mut self,
        chain: &C,
        prevote: Prevote,
        id: u64,
        signature: u64,
    ) -> (r: Result<Option<Equivocation<Prevote>>, Error>)
        requires
            old(self).wf(),
            chain_map_wf(chain.blocks()),
            chain_sub(
                old(self).prevote_graph.chain_model@,
                chain.blocks(),
                old(self).base.0,
            ),
            chain_sub(
                old(self).precommit_graph.chain_model@,
                chain.blocks(),
                old(self).base.0,
            ),
            chain.blocks().contains_key(prevote.target_hash)
                ==> chain.blocks()[prevote.target_hash].number == prevote.target_number,
        ensures
            final(self).wf(),
            final(self).round_number == old(self).round_number,
            final(self).base == old(self).base,
            final(self).voters@ == old(self).voters@,
            final(self).precommits@ == old(self).precommits@,
            final(self).precommit_graph == old(self).precommit_graph,
            chain_sub(final(self).prevote_graph.chain_model@, chain.blocks(), final(self).base.0),
            chain_sub(
                final(self).precommit_graph.chain_model@,
                chain.blocks(),
                final(self).base.0,
            ),
            match r {
                Ok(Some(eq)) => {
                    &&& *final(self) == *old(self)
                    &&& eq.round_number == old(self).round_number
                    &&& eq.identity == id
                    &&& eq.second_vote == prevote
                    &&& eq.second_signature == signature
                    &&& exists|i: int|
                        0 <= i < old(self).prevotes@.len() && #[trigger] old(self).prevotes@[i]
                            == (id, eq.first_vote, eq.first_signature) && eq.first_vote != prevote
                },
                Ok(None) => true,
                Err(e) => {
                    &&& *final(self) == *old(self)
                    &&& e == Error::NotDescendent
                },
            },
            match final(self).state.prevote_ghost {
                Some((gh, gn)) => final(self).prevote_graph.block_has_weight(
                    gh,
                    gn,
                    Condition::AtLeast(final(self).threshold_weight),
                ) && (forall|e: u64|
                    final(self).prevote_graph.has(e)
                        && final(self).prevote_graph.entries@[e].number > gn && chain_anc(
                        final(self).prevote_graph.chain_model@,
                        e,
                        gn,
                    ) == gh && final(self).prevote_graph.fc_ok(
                        e,
                        final(self).prevote_graph.search_constraint(
                            old(self).state.prevote_ghost,
                        ),
                    ) ==> !passes(
                        Condition::AtLeast(final(self).threshold_weight),
                        #[trigger] final(self).prevote_graph.cum(e),
                    )),
                None => true,
            } || final(self).state.prevote_ghost == old(self).state.prevote_ghost,
            (forall|j: int|
                0 <= j < old(self).voters@.len() ==> (#[trigger] old(self).voters@[j]).0 != id)
                ==> (*final(self) == *old(self) && r == Ok::<Option<Equivocation<Prevote>>, Error>(None)),
            ((exists|i: int|
                0 <= i < old(self).prevotes@.len() && (#[trigger] old(self).prevotes@[i]).0 == id
                    && old(self).prevotes@[i].1 == prevote)) ==> (*final(self) == *old(self) && r
                == Ok::<Option<Equivocation<Prevote>>, Error>(None)),
            (r matches Ok(Some(_))) <==> ((exists|j: int|
                0 <= j < old(self).voters@.len() && (#[trigger] old(self).voters@[j]).0 == id) && (
            exists|i: int|
                0 <= i < old(self).prevotes@.len() && (#[trigger] old(self).prevotes@[i]).0 == id
                    && old(self).prevotes@[i].1 != prevote)),
            ((exists|j: int|
                0 <= j < old(self).voters@.len() && (#[trigger] old(self).voters@[j]).0 == id) && (
            forall|i: int|
                0 <= i < old(self).prevotes@.len() ==> (#[trigger] old(self).prevotes@[i]).0 != id))
                ==> {
                &&& (r is Err <==> !(prevote.target_hash == old(self).base.0 || strict_desc(
                    chain.blocks(),
                    old(self).base.0,
                    prevote.target_hash,
                )))
                &&& (r is Ok ==> {
                    &&& final(self).prevotes@ == old(self).prevotes@.push((id, prevote, signature))
                    &&& final(self).prevote_graph.votes@ == crate::vote_graph::bumped(
                        old(self).prevote_graph.votes@,
                        prevote.target_hash,
                        weight_of(old(self).voters@, id),
                    )
                    &&& final(self).prevote_weight == old(self).prevote_weight + weight_of(
                        old(self).voters@,
                        id,
                    )
                })
            },
            match (old(self).state.finalized, final(self).state.finalized) {
                (Some((_oph, opn)), Some((_nh, nn))) => nn >= opn,
                (Some(_), None) => false,
                _ => true,
            },
    {
        let w = match voter_weight(&self.voters, id) {
            Some(w) => w,
            None => {
                return Ok(None);
            },
        };
        let mut i: usize = 0;
        while i < self.prevotes.len()
            invariant
                i <= self.prevotes@.len(),
                forall|k: int| 0 <= k < i ==> (#[trigger] self.prevotes@[k]).0 != id,
                self == old(self),
                old(self).wf(),
                exists|j: int| 0 <= j < self.voters@.len() && (#[trigger] self.voters@[j]).0 == id,
                chain_sub(self.prevote_graph.chain_model@, chain.blocks(), self.base.0),
                chain_sub(self.precommit_graph.chain_model@, chain.blocks(), self.base.0),
            decreases self.prevotes@.len() - i,
        {
            let (vid, v, vs) = self.prevotes[i];
            if vid == id {
                proof {
                    assert(self.prevotes@[i as int].0 == id);
                    assert forall|i2: int|
                        0 <= i2 < self.prevotes@.len() && (#[trigger] self.prevotes@[i2]).0 == id
                        implies i2 == i as int by {
                        if i2 < i as int {
                            assert(self.prevotes@[i2].0 != self.prevotes@[i as int].0);
                        }
                        if i2 > i as int {
                            assert(self.prevotes@[i as int].0 != self.prevotes@[i2].0);
                        }
                    }
                }
                if v.target_hash == prevote.target_hash && v.target_number
                    == prevote.target_number {
                    proof {
                        assert(self.prevotes@[i as int].1 == prevote);
                    }
                    return Ok(None);
                } else {
                    proof {
                        assert(self.prevotes@[i as int].1 != prevote);
                    }
                    return Ok(
                        Some(
                            Equivocation {
                                round_number: self.round_number,
                                identity: id,
                                first_vote: v,
                                first_signature: vs,
                                second_vote: prevote,
                                second_signature: signature,
                            },
                        ),
                    );
                }
            }
            i = i + 1;
        }
        proof {
            assert(!self.prevote_ids().contains(id)) by {
                if self.prevote_ids().contains(id) {
                    let k = choose|k: int|
                        0 <= k < self.prevote_ids().len() && self.prevote_ids()[k] == id;
                    assert(self.prevotes@[k].0 == id);
                }
            }
            let j = choose|j: int| 0 <= j < self.voters@.len() && self.voters@[j] == (id, w);
            lemma_weights_sum_excluding_member(self.voters@, self.prevote_ids(), j);
            assert(self.prevote_graph.cum(self.base.0) + w <= self.total_weight);
            lemma_weight_of_member(self.voters@, j);
            assert(weight_of(self.voters@, id) == w as nat);
        }
        let ghost pre = *self;
        match self.prevote_graph.insert(prevote.target_hash, prevote.target_number, w, chain) {
            Ok(()) => {},
            Err(e) => {
                proof {
                    assert(*self == pre);
                }
                return Err(e);
            },
        }
        self.prevotes.push((id, prevote, signature));
        self.prevote_weight = self.prevote_weight + w;
        proof {
            assert(self.prevote_ids() =~= pre.prevote_ids().push(id));
            assert forall|y: u64| #[trigger] self.prevote_ids().contains(y) <==> (
            pre.prevote_ids().contains(y) || y == id) by {
                if self.prevote_ids().contains(y) {
                    let k = choose|k: int|
                        0 <= k < self.prevote_ids().len() && self.prevote_ids()[k] == y;
                    if k < self.prevote_ids().len() - 1 {
                        assert(pre.prevote_ids()[k] == y);
                    }
                }
                if pre.prevote_ids().contains(y) {
                    let k = choose|k: int|
                        0 <= k < pre.prevote_ids().len() && pre.prevote_ids()[k] == y;
                    assert(self.prevote_ids()[k] == y);
                }
                if y == id {
                    assert(self.prevote_ids()[self.prevote_ids().len() - 1] == id);
                }
            }
            let j = choose|j: int| 0 <= j < self.voters@.len() && self.voters@[j] == (id, w);
            lemma_weights_sum_excluding_add(self.voters@, pre.prevote_ids(), id, w);
            assert forall|p: int, q: int| 0 <= p < q < self.prevotes@.len() implies (
            #[trigger] self.prevotes@[p]).0 != (#[trigger] self.prevotes@[q]).0 by {
                if q == self.prevotes@.len() - 1 {
                    assert(self.prevotes@[p] == pre.prevotes@[p]);
                    assert(pre.prevote_ids()[p] == pre.prevotes@[p].0);
                    assert(!pre.prevote_ids().contains(id));
                    assert(pre.prevote_ids().contains(pre.prevote_ids()[p]));
                } else {
                    assert(self.prevotes@[p] == pre.prevotes@[p]);
                    assert(self.prevotes@[q] == pre.prevotes@[q]);
                }
            }
        }
        proof {
            let c = chain.blocks();
            assert forall|b: u64|
                #[trigger] self.prevote_graph.chain_model@.contains_key(b)
                    && #[trigger] self.precommit_graph.chain_model@.contains_key(b) implies
                self.prevote_graph.chain_model@[b].number
                    == self.precommit_graph.chain_model@[b].number by {
                if pre.prevote_graph.chain_model@.contains_key(b) {
                    assert(self.prevote_graph.chain_model@[b]
                        == pre.prevote_graph.chain_model@[b]);
                } else {
                    assert(self.prevote_graph.chain_model@[b] == c[b]);
                    assert(c[b].number == self.precommit_graph.chain_model@[b].number);
                }
            }
            assert forall|b: u64| #[trigger] self.prevote_graph.chain_model@.contains_key(
                b,
            ) implies c.contains_key(b) && c[b].number
                == self.prevote_graph.chain_model@[b].number && (b != self.base.0
                ==> c[b].parent == self.prevote_graph.chain_model@[b].parent) by {
                if pre.prevote_graph.chain_model@.contains_key(b) {
                    assert(self.prevote_graph.chain_model@[b]
                        == pre.prevote_graph.chain_model@[b]);
                } else {
                    assert(self.prevote_graph.chain_model@[b] == c[b]);
                    assert(in_chain(c, self.base.0, b));
                }
            }
        }
        self.update_state();
        Ok(None)
    }

    /// Import a precommit, with the same rules as `import_prevote`.
    pub fn import_precommit<C: Chain>(
        &mut self,
        chain: &C,
        precommit: Precommit,
        id: u64,
        signature: u64,
    ) -> (r: Result<Option<Equivocation<Precommit>>, Error>)
        requires
            old(self).wf(),
            chain_map_wf(chain.blocks()),
            chain_sub(
                old(self).prevote_graph.chain_model@,
                chain.blocks(),
                old(self).base.0,
            ),
            chain_sub(
                old(self).precommit_graph.chain_model@,
                chain.blocks(),
                old(self).base.0,
            ),
            chain.blocks().contains_key(precommit.target_hash)
                ==> chain.blocks()[precommit.target_hash].number == precommit.target_number,
        ensures
            final(self).wf(),
            final(self).round_number == old(self).round_number,
            final(self).base == old(self).base,
            final(self).voters@ == old(self).voters@,
            final(self).prevotes@ == old(self).prevotes@,
            final(self).prevote_graph == old(self).prevote_graph,
            chain_sub(final(self).prevote_graph.chain_model@, chain.blocks(), final(self).base.0),
            chain_sub(
                final(self).precommit_graph.chain_model@,
                chain.blocks(),
                final(self).base.0,
            ),
            match r {
                Ok(Some(eq)) => {
                    &&& *final(self) == *old(self)
                    &&& eq.round_number == old(self).round_number
                    &&& eq.identity == id
                    &&& eq.second_vote == precommit
                    &&& eq.second_signature == signature
                    &&& exists|i: int|
                        0 <= i < old(self).precommits@.len() && #[trigger] old(self).precommits@[i]
                            == (id, eq.first_vote, eq.first_signature) && eq.first_vote
                            != precommit
                },
                Ok(None) => true,
                Err(e) => {
                    &&& *final(self) == *old(self)
                    &&& e == Error::NotDescendent
                },
            },
            match final(self).state.finalized {
                Some((fh, fn_)) => final(self).precommit_graph.block_has_weight(
                    fh,
                    fn_,
                    Condition::AtLeast(final(self).threshold_weight),
                ) && (match final(self).state.prevote_ghost {
                    Some((gh, gn)) => fn_ <= gn && chain_anc(
                        final(self).precommit_graph.chain_model@,
                        gh,
                        fn_,
                    ) == fh && (forall|e: u64|
                        final(self).precommit_graph.has(e)
                            && fn_ < final(self).precommit_graph.entries@[e].number <= gn
                            && chain_anc(
                            final(self).precommit_graph.chain_model@,
                            gh,
                            final(self).precommit_graph.entries@[e].number,
                        ) == e ==> !passes(
                            Condition::AtLeast(final(self).threshold_weight),
                            #[trigger] final(self).precommit_graph.cum(e),
                        )),
                    None => false,
                }),
                None => true,
            } || final(self).state.finalized == old(self).state.finalized,
            match final(self).state.estimate {
                Some((eh, en)) => (match final(self).state.prevote_ghost {
                    Some((gh, gn)) => en <= gn && chain_anc(
                        final(self).precommit_graph.chain_model@,
                        gh,
                        en,
                    ) == eh && final(self).precommit_graph.block_has_weight(
                        eh,
                        en,
                        final(self).estimate_condition(),
                    ),
                    None => false,
                }),
                None => true,
            } || final(self).state.estimate == old(self).state.estimate,
            (forall|j: int|
                0 <= j < old(self).voters@.len() ==> (#[trigger] old(self).voters@[j]).0 != id)
                ==> (*final(self) == *old(self) && r == Ok::<Option<Equivocation<Precommit>>, Error>(None)),
            ((exists|i: int|
                0 <= i < old(self).precommits@.len() && (#[trigger] old(self).precommits@[i]).0
                    == id && old(self).precommits@[i].1 == precommit)) ==> (*final(self) == *old(
                self,
            ) && r == Ok::<Option<Equivocation<Precommit>>, Error>(None)),
            (r matches Ok(Some(_))) <==> ((exists|j: int|
                0 <= j < old(self).voters@.len() && (#[trigger] old(self).voters@[j]).0 == id) && (
            exists|i: int|
                0 <= i < old(self).precommits@.len() && (#[trigger] old(self).precommits@[i]).0
                    == id && old(self).precommits@[i].1 != precommit)),
            ((exists|j: int|
                0 <= j < old(self).voters@.len() && (#[trigger] old(self).voters@[j]).0 == id) && (
            forall|i: int|
                0 <= i < old(self).precommits@.len() ==> (#[trigger] old(self).precommits@[i]).0
                    != id)) ==> {
                &&& (r is Err <==> !(precommit.target_hash == old(self).base.0 || strict_desc(
                    chain.blocks(),
                    old(self).base.0,
                    precommit.target_hash,
                )))
                &&& (r is Ok ==> {
                    &&& final(self).precommits@ == old(self).precommits@.push(
                        (id, precommit, signature),
                    )
                    &&& final(self).precommit_graph.votes@ == crate::vote_graph::bumped(
                        old(self).precommit_graph.votes@,
                        precommit.target_hash,
                        weight_of(old(self).voters@, id),
                    )
                    &&& final(self).precommit_weight == old(self).precommit_weight + weight_of(
                        old(self).voters@,
                        id,
                    )
                })
            },
            match (old(self).state.finalized, final(self).state.finalized) {
                (Some((_oph, opn)), Some((_nh, nn))) => nn >= opn,
                (Some(_), None) => false,
                _ => true,
            },
            (r is Ok && (exists|j: int|
                0 <= j < old(self).voters@.len() && (#[trigger] old(self).voters@[j]).0 == id))
                ==> final(self).precommit_ids().contains(id),
            forall|y: u64| #[trigger] old(self).precommit_ids().contains(y)
                ==> final(self).precommit_ids().contains(y),
    {
        let w = match voter_weight(&self.voters, id) {
            Some(w) => w,
            None => {
                return Ok(None);
            },
        };
        let mut i: usize = 0;
        while i < self.precommits.len()
            invariant
                i <= self.precommits@.len(),
                forall|k: int| 0 <= k < i ==> (#[trigger] self.precommits@[k]).0 != id,
                self == old(self),
                old(self).wf(),
                exists|j: int| 0 <= j < self.voters@.len() && (#[trigger] self.voters@[j]).0 == id,
                chain_sub(self.prevote_graph.chain_model@, chain.blocks(), self.base.0),
                chain_sub(self.precommit_graph.chain_model@, chain.blocks(), self.base.0),
            decreases self.precommits@.len() - i,
        {
            let (vid, v, vs) = self.precommits[i];
            if vid == id {
                proof {
                    assert(self.precommits@[i as int].0 == id);
                    assert forall|i2: int|
                        0 <= i2 < self.precommits@.len() && (#[trigger] self.precommits@[i2]).0
                            == id implies i2 == i as int by {
                        if i2 < i as int {
                            assert(self.precommits@[i2].0 != self.precommits@[i as int].0);
                        }
                        if i2 > i as int {
                            assert(self.precommits@[i as int].0 != self.precommits@[i2].0);
                        }
                    }
                }
                if v.target_hash == precommit.target_hash && v.target_number
                    == precommit.target_number {
                    proof {
                        assert(self.precommits@[i as int].1 == precommit);
                        assert(self.precommit_ids()[i as int] == id);
                        assert(self.precommit_ids().contains(id));
                    }
                    return Ok(None);
                } else {
                    proof {
                        assert(self.precommits@[i as int].1 != precommit);
                        assert(self.precommit_ids()[i as int] == id);
                        assert(self.precommit_ids().contains(id));
                    }
                    return Ok(
                        Some(
                            Equivocation {
                                round_number: self.round_number,
                                identity: id,
                                first_vote: v,
                                first_signature: vs,
                                second_vote: precommit,
                                second_signature: signature,
                            },
                        ),
                    );
                }
            }
            i = i + 1;
        }
        proof {
            assert(!self.precommit_ids().contains(id)) by {
                if self.precommit_ids().contains(id) {
                    let k = choose|k: int|
                        0 <= k < self.precommit_ids().len() && self.precommit_ids()[k] == id;
                    assert(self.precommits@[k].0 == id);
                }
            }
            let j = choose|j: int| 0 <= j < self.voters@.len() && self.voters@[j] == (id, w);
            lemma_weights_sum_excluding_member(self.voters@, self.precommit_ids(), j);
            assert(self.precommit_graph.cum(self.base.0) + w <= self.total_weight);
            lemma_weight_of_member(self.voters@, j);
            assert(weight_of(self.voters@, id) == w as nat);
        }
        let ghost pre = *self;
        match self.precommit_graph.insert(
            precommit.target_hash,
            precommit.target_number,
            w,
            chain,
        ) {
            Ok(()) => {},
            Err(e) => {
                proof {
                    assert(*self == pre);
                }
                return Err(e);
            },
        }
        self.precommits.push((id, precommit, signature));
        self.precommit_weight = self.precommit_weight + w;
        proof {
            assert(self.precommit_ids() =~= pre.precommit_ids().push(id));
            assert forall|y: u64| #[trigger] self.precommit_ids().contains(y) <==> (
            pre.precommit_ids().contains(y) || y == id) by {
                if self.precommit_ids().contains(y) {
                    let k = choose|k: int|
                        0 <= k < self.precommit_ids().len() && self.precommit_ids()[k] == y;
                    if k < self.precommit_ids().len() - 1 {
                        assert(pre.precommit_ids()[k] == y);
                    }
                }
                if pre.precommit_ids().contains(y) {
                    let k = choose|k: int|
                        0 <= k < pre.precommit_ids().len() && pre.precommit_ids()[k] == y;
                    assert(self.precommit_ids()[k] == y);
                }
                if y == id {
                    assert(self.precommit_ids()[self.precommit_ids().len() - 1] == id);
                }
            }
            let j = choose|j: int| 0 <= j < self.voters@.len() && self.voters@[j] == (id, w);
            lemma_weights_sum_excluding_add(self.voters@, pre.precommit_ids(), id, w);
            assert forall|p: int, q: int| 0 <= p < q < self.precommits@.len() implies (
            #[trigger] self.precommits@[p]).0 != (#[trigger] self.precommits@[q]).0 by {
                if q == self.precommits@.len() - 1 {
                    assert(self.precommits@[p] == pre.precommits@[p]);
                    assert(pre.precommit_ids()[p] == pre.precommits@[p].0);
                    assert(!pre.precommit_ids().contains(id));
                    assert(pre.precommit_ids().contains(pre.precommit_ids()[p]));
                } else {
                    assert(self.precommits@[p] == pre.precommits@[p]);
                    assert(self.precommits@[q] == pre.precommits@[q]);
                }
            }
        }
        proof {
            let c = chain.blocks();
            assert forall|b: u64|
                #[trigger] self.prevote_graph.chain_model@.contains_key(b)
                    && #[trigger] self.precommit_graph.chain_model@.contains_key(b) implies
                self.prevote_graph.chain_model@[b].number
                    == self.precommit_graph.chain_model@[b].number by {
                if pre.precommit_graph.chain_model@.contains_key(b) {
                    assert(self.precommit_graph.chain_model@[b]
                        == pre.precommit_graph.chain_model@[b]);
                } else {
                    assert(self.precommit_graph.chain_model@[b] == c[b]);
                    assert(c[b].number == self.prevote_graph.chain_model@[b].number);
                }
            }
            assert forall|b: u64| #[trigger] self.precommit_graph.chain_model@.contains_key(
                b,
            ) implies c.contains_key(b) && c[b].number
                == self.precommit_graph.chain_model@[b].number && (b != self.base.0
                ==> c[b].parent == self.precommit_graph.chain_model@[b].parent) by {
                if pre.precommit_graph.chain_model@.contains_key(b) {
                    assert(self.precommit_graph.chain_model@[b]
                        == pre.precommit_graph.chain_model@[b]);
                } else {
                    assert(self.precommit_graph.chain_model@[b] == c[b]);
                    assert(in_chain(c, self.base.0, b));
                }
            }
            assert(self.precommit_ids().contains(id)) by {
                assert(self.precommit_ids()[self.precommit_ids().len() - 1] == id);
            }
            assert forall|y: u64| #[trigger] pre.precommit_ids().contains(y) implies
                self.precommit_ids().contains(y) by {
                let m = choose|m: int|
                    0 <= m < pre.precommit_ids().len() && pre.precommit_ids()[m] == y;
                assert(self.precommit_ids()[m] == y);
            }
        }
        self.update_state();
        Ok(None)
    }

    /// The weight condition the estimate is computed with: precommit
    /// weight that, together with all weight not yet precommitted, would
    /// reach the threshold.
    pub open spec fn estimate_condition(self) -> Condition {
        Condition::AtLeast(
            if self.threshold_weight >= self.total_weight - self.precommit_weight {
                (self.threshold_weight - (self.total_weight - self.precommit_weight)) as u64
            } else {
                0
            },
        )
    }

    /// Recompute the derived state: prevote-GHOST at threshold, then from
    /// the precommit graph the estimate (what could still be finalized),
    /// the finalized block, and completability.
    fn update_state(&mut self)
        requires
            old(self).wf(),
        ensures
            final(self).wf(),
            final(self).round_number == old(self).round_number,
            final(self).base == old(self).base,
            final(self).voters@ == old(self).voters@,
            final(self).prevotes@ == old(self).prevotes@,
            final(self).precommits@ == old(self).precommits@,
            final(self).prevote_graph == old(self).prevote_graph,
            final(self).precommit_graph == old(self).precommit_graph,
            match final(self).state.prevote_ghost {
                Some((gh, gn)) => final(self).prevote_graph.block_has_weight(
                    gh,
                    gn,
                    Condition::AtLeast(final(self).threshold_weight),
                ) && (forall|e: u64|
                    final(self).prevote_graph.has(e)
                        && final(self).prevote_graph.entries@[e].number > gn && chain_anc(
                        final(self).prevote_graph.chain_model@,
                        e,
                        gn,
                    ) == gh && final(self).prevote_graph.fc_ok(
                        e,
                        final(self).prevote_graph.search_constraint(
                            old(self).state.prevote_ghost,
                        ),
                    ) ==> !passes(
                        Condition::AtLeast(final(self).threshold_weight),
                        #[trigger] final(self).prevote_graph.cum(e),
                    )),
                None => true,
            } || final(self).state.prevote_ghost == old(self).state.prevote_ghost,
            match final(self).state.finalized {
                Some((fh, fn_)) => final(self).precommit_graph.block_has_weight(
                    fh,
                    fn_,
                    Condition::AtLeast(final(self).threshold_weight),
                ) && (match final(self).state.prevote_ghost {
                    Some((gh, gn)) => fn_ <= gn && chain_anc(
                        final(self).precommit_graph.chain_model@,
                        gh,
                        fn_,
                    ) == fh && (forall|e: u64|
                        final(self).precommit_graph.has(e)
                            && fn_ < final(self).precommit_graph.entries@[e].number <= gn
                            && chain_anc(
                            final(self).precommit_graph.chain_model@,
                            gh,
                            final(self).precommit_graph.entries@[e].number,
                        ) == e ==> !passes(
                            Condition::AtLeast(final(self).threshold_weight),
                            #[trigger] final(self).precommit_graph.cum(e),
                        )),
                    None => false,
                }),
                None => true,
            } || final(self).state.finalized == old(self).state.finalized,
            match final(self).state.estimate {
                Some((eh, en)) => (match final(self).state.prevote_ghost {
                    Some((gh, gn)) => en <= gn && chain_anc(
                        final(self).precommit_graph.chain_model@,
                        gh,
                        en,
                    ) == eh && final(self).precommit_graph.block_has_weight(
                        eh,
                        en,
                        final(self).estimate_condition(),
                    ),
                    None => false,
                }),
                None => true,
            } || final(self).state.estimate == old(self).state.estimate,
            match (old(self).state.finalized, final(self).state.finalized) {
                (Some((_oph, opn)), Some((_nh, nn))) => nn >= opn,
                (Some(_), None) => false,
                _ => true,
            },
    {
        if self.prevote_weight < self.threshold_weight {
            return ;
        }
        let cond = Condition::AtLeast(self.threshold_weight);
        let pg = self.prevote_graph.find_ghost(self.state.prevote_ghost, cond);
        let mut new_state = self.state;
        new_state.prevote_ghost = pg;
        match pg {
            Some((gh, gn)) => {
                let remaining = self.total_weight - self.precommit_weight;
                let margin = if self.threshold_weight >= remaining {
                    self.threshold_weight - remaining
                } else {
                    0
                };
                let cond2 = Condition::AtLeast(margin);
                proof {
                    if self.precommit_graph.has(gh) {
                        assert(self.precommit_graph.entry_ok(gh));
                        assert(self.precommit_graph.chain_model@.contains_key(gh));
                        assert(self.prevote_graph.chain_model@.contains_key(gh));
                        assert(self.prevote_graph.chain_model@[gh].number == gn);
                    }
                }
                let estimate = self.precommit_graph.find_ancestor(gh, gn, cond2);
                new_state.estimate = estimate;
                new_state.completable = match estimate {
                    Some((eh, _en)) => {
                        if eh != gh {
                            true
                        } else {
                            match self.precommit_graph.find_ghost(Some((gh, gn)), cond2) {
                                Some((h2, _n2)) => h2 == gh,
                                None => true,
                            }
                        }
                    },
                    None => false,
                };
                if self.precommit_weight >= self.threshold_weight {
                    let fin = self.precommit_graph.find_ancestor(gh, gn, cond);
                    // a recomputed finalized block never moves below the one
                    // the round already finalized
                    new_state.finalized = match (self.state.finalized, fin) {
                        (Some((ph, pn)), Some((nh, nn))) => if nn >= pn {
                            Some((nh, nn))
                        } else {
                            Some((ph, pn))
                        },
                        (Some((ph, pn)), None) => Some((ph, pn)),
                        (None, f) => f,
                    };
                }
            },
            None => {
            },
        }
        self.state = new_state;
    }

    /// The round number.
    pub fn number(&self) -> (n: u64)
        ensures
            n == self.round_number,
    {
        self.round_number
    }

    /// The round base.
    pub fn base_block(&self) -> (b: (u64, u64))
        ensures
            b == self.base,
    {
        self.base
    }

    /// The weight needed for finality in this round.
    pub fn threshold(&self) -> (t: u64)
        ensures
            t == self.threshold_weight,
    {
        self.threshold_weight
    }

    /// The cached derived state.
    pub fn state(&self) -> (s: RoundState)
        ensures
            s == self.state,
    {
        self.state
    }

    /// Whether the estimate can no longer move above the prevote-GHOST.
    pub fn completable(&self) -> (c: bool)
        ensures
            c == self.state.completable,
    {
        self.state.completable
    }

    /// The highest block known finalizable by this round's precommits.
    pub fn finalized(&self) -> (f: Option<(u64, u64)>)
        ensures
            f == self.state.finalized,
    {
        self.state.finalized
    }

    /// The precommits cast so far, one per voter.
    pub fn precommit_list(&self) -> (v: Vec<(u64, Precommit, u64)>)
        ensures
            v@ == self.precommits@,
    {
        let mut v: Vec<(u64, Precommit, u64)> = Vec::new();
        let mut i: usize = 0;
        while i < self.precommits.len()
            invariant
                i <= self.precommits@.len(),
                v@ == self.precommits@.subrange(0, i as int),
            decreases self.precommits@.len() - i,
        {
            v.push(self.precommits[i]);
            proof {
                assert(v@ =~= self.precommits@.subrange(0, i + 1));
            }
            i = i + 1;
        }
        proof {
            assert(self.precommits@.subrange(0, self.precommits@.len() as int)
                =~= self.precommits@);
        }
        v
    }
}

proof fn lemma_weights_sum_prefix(s: Seq<(u64, u64)>, i: int)
    requires
        0 <= i < s.len(),
    ensures
        weights_sum(s.subrange(0, i + 1)) == weights_sum(s.subrange(0, i)) + s[i].1,
        weights_sum(s.subrange(0, i + 1)) <= weights_sum(s),
    decreases s.len(),
{
    lemma_weights_sum_take(s, i + 1);
    lemma_weights_sum_take(s, i);
    assert(s.subrange(0, i + 1) =~= s.subrange(0, i).push(s[i]));
    lemma_weights_sum_push(s.subrange(0, i), s[i]);
}

proof fn lemma_weights_sum_push(s: Seq<(u64, u64)>, x: (u64, u64))
    ensures
        weights_sum(s.push(x)) == weights_sum(s) + x.1,
    decreases s.len(),
{
    if s.len() == 0 {
        assert(s.push(x)[0] == x);
        assert(s.push(x).drop_first() =~= Seq::<(u64, u64)>::empty());
        assert(weights_sum(Seq::<(u64, u64)>::empty()) == 0);
        assert(weights_sum(s.push(x)) == x.1 as nat + weights_sum(s.push(x).drop_first()));
    } else {
        assert(s.push(x)[0] == s[0]);
        assert(s.push(x).drop_first() =~= s.drop_first().push(x));
        lemma_weights_sum_push(s.drop_first(), x);
        assert(weights_sum(s.push(x)) == s[0].1 as nat + weights_sum(s.drop_first().push(x)));
    }
}

proof fn lemma_weights_sum_take(s: Seq<(u64, u64)>, i: int)
    requires
        0 <= i <= s.len(),
    ensures
        weights_sum(s.subrange(0, i)) <= weights_sum(s),
    decreases i,
{
    if i > 0 {
        lemma_weights_sum_take(s, i - 1);
        assert(s.subrange(0, i) =~= s.subrange(0, i - 1).push(s[i - 1]));
        lemma_weights_sum_push(s.subrange(0, i - 1), s[i - 1]);
        lemma_weights_sum_ge_take(s, i);
    }
}

proof fn lemma_weights_sum_ge_take(s: Seq<(u64, u64)>, i: int)
    requires
        0 <= i <= s.len(),
    ensures
        weights_sum(s) >= weights_sum(s.subrange(0, i)),
    decreases s.len(),
{
    if i > 0 && s.len() > 0 {
        assert(s.subrange(0, i)[0] == s[0]);
        assert(s.subrange(0, i).drop_first() =~= s.drop_first().subrange(0, i - 1));
        lemma_weights_sum_ge_take(s.drop_first(), i - 1);
    }
}

pub proof fn lemma_weights_sum_excluding_none(s: Seq<(u64, u64)>, voted: Seq<u64>)
    requires
        voted.len() == 0,
    ensures
        weights_sum_excluding(s, voted) == weights_sum(s),
    decreases s.len(),
{
    if s.len() > 0 {
        if voted.contains(s[0].0) {
            let k = choose|k: int| 0 <= k < voted.len() && voted[k] == s[0].0;
        }
        lemma_weights_sum_excluding_none(s.drop_first(), voted);
    }
}

} // verus!
