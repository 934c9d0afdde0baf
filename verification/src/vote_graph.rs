//! A compacted DAG over block hashes that stores cumulative vote weight on
//! edges and answers GHOST and find-ancestor queries.
//!
//! Every block that carries votes, and every branch point between two such
//! blocks, is a vote-node with an [`Entry`]. An entry remembers the hashes
//! between itself and the nearest ancestor vote-node, so the graph can place
//! any block of the tree relative to its entries without consulting the
//! chain again.

use std::collections::HashMap;
use vstd::prelude::*;

use crate::chain::{
    chain_anc, chain_map_wf, chain_sub, in_chain, rooted, strict_desc, BlockMeta, Chain,
};
use crate::Error;

verus! {

broadcast use vstd::std_specs::hash::group_hash_axioms;

/// A weight test applied to cumulative votes: at least, or strictly above,
/// a given weight.
#[derive(Clone, Copy, PartialEq, Eq, Structural, Debug)]
pub enum Condition {
    AtLeast(u64),
    Above(u64),
}

/// What a `Condition` means of a weight.
pub open spec fn passes(c: Condition, w: nat) -> bool {
    match c {
        Condition::AtLeast(t) => w >= t,
        Condition::Above(t) => w > t,
    }
}

impl Condition {
    /// Evaluate the condition on a weight.
    pub fn check(&self, w: u64) -> (r: bool)
        ensures
            r == passes(*self, w as nat),
    {
        match *self {
            Condition::AtLeast(t) => w >= t,
            Condition::Above(t) => w > t,
        }
    }

    /// A heavier weight passes whenever a lighter one does.
    pub proof fn monotone(self, w1: nat, w2: nat)
        requires
            passes(self, w1),
            w1 <= w2,
        ensures
            passes(self, w2),
    {
    }
}

/// The vote map after adding weight `v` on block `hash`.
pub open spec fn bumped(votes: Map<u64, nat>, hash: u64, v: nat) -> Map<u64, nat> {
    votes.insert(
        hash,
        (if votes.contains_key(hash) {
            votes[hash]
        } else {
            0
        }) + v,
    )
}

/// One vote-node: its height, the hashes from its parent down to the nearest
/// ancestor vote-node (last element names that vote-node; empty for the
/// base), its descendent vote-nodes, and the weight of all votes on it and
/// its subtree.
pub struct Entry {
    pub number: u64,
    pub ancestors: Vec<u64>,
    pub descendents: Vec<u64>,
    pub cumulative_vote: u64,
}

impl Entry {
    /// Whether the block at `number` in this entry's direct ancestry is
    /// `hash`. `None` means the graph must be traversed further back.
    pub fn in_direct_ancestry(&self, hash: u64, number: u64) -> (r: Option<bool>)
        ensures
            r == (if number < self.number && self.number - number - 1 < self.ancestors@.len() {
                Some(self.ancestors@[self.number - number - 1] == hash)
            } else {
                None::<bool>
            }),
    {
        match self.ancestor_block(number) {
            Some(h) => Some(h == hash),
            None => None,
        }
    }

    /// The ancestor hash at the given height, if it lies on this entry's
    /// edge.
    pub fn ancestor_block(&self, number: u64) -> (r: Option<u64>)
        ensures
            r == (if number < self.number && self.number - number - 1 < self.ancestors@.len() {
                Some(self.ancestors@[self.number - number - 1])
            } else {
                None::<u64>
            }),
    {
        if number >= self.number {
            return None;
        }
        let offset = self.number - number - 1;
        if offset < self.ancestors.len() as u64 {
            Some(self.ancestors[offset as usize])
        } else {
            None
        }
    }

    /// The nearest ancestor vote-node, if any.
    pub fn ancestor_node(&self) -> (r: Option<u64>)
        ensures
            r == (if self.ancestors@.len() > 0 {
                Some(self.ancestors@.last())
            } else {
                None::<u64>
            }),
    {
        if self.ancestors.len() > 0 {
            Some(self.ancestors[self.ancestors.len() - 1])
        } else {
            None
        }
    }
}

/// A run of blocks of one chain, identified by the hashes held and the
/// height of the last one.
pub struct Subchain {
    pub hashes: Vec<u64>,
    pub best_number: u64,
}

impl Subchain {
    /// The blocks of the subchain paired with their heights, best first.
    pub fn blocks_reverse(&self) -> (r: Vec<(u64, u64)>)
        requires
            self.hashes@.len() <= self.best_number + 1,
        ensures
            r@.len() == self.hashes@.len(),
            forall|i: int| 0 <= i < r@.len() ==> r@[i] == (
            self.hashes@[self.hashes@.len() - 1 - i],
            (self.best_number - i) as u64,
            ),
    {
        let mut r: Vec<(u64, u64)> = Vec::new();
        let mut i: usize = 0;
        while i < self.hashes.len()
            invariant
                i <= self.hashes@.len(),
                self.hashes@.len() <= self.best_number + 1,
                r@.len() == i,
                forall|k: int| 0 <= k < i ==> r@[k] == (
                self.hashes@[self.hashes@.len() - 1 - k],
                (self.best_number - k) as u64,
                ),
            decreases self.hashes@.len() - i,
        {
            r.push((self.hashes[self.hashes.len() - 1 - i], self.best_number - i as u64));
            i = i + 1;
        }
        r
    }

    /// The hash at the given height, if the subchain covers it.
    pub fn block_at(&self, number: u64) -> (r: Option<u64>)
        requires
            self.hashes@.len() <= self.best_number + 1,
        ensures
            r == (if self.best_number - number < self.hashes@.len() && number <= self.best_number {
                Some(self.hashes@[self.hashes@.len() - 1 - (self.best_number - number)])
            } else {
                None::<u64>
            }),
    {
        if number > self.best_number {
            return None;
        }
        let rev_off = self.best_number - number;
        if rev_off < self.hashes.len() as u64 {
            Some(self.hashes[self.hashes.len() - 1 - rev_off as usize])
        } else {
            None
        }
    }

    /// The best (highest) block of the subchain with its height.
    pub fn best(&self) -> (r: Option<(u64, u64)>)
        ensures
            r == (if self.hashes@.len() > 0 {
                Some((self.hashes@.last(), self.best_number))
            } else {
                None::<(u64, u64)>
            }),
    {
        if self.hashes.len() > 0 {
            Some((self.hashes[self.hashes.len() - 1], self.best_number))
        } else {
            None
        }
    }
}

/// Remove one hash from a duplicate-free vector, if present.
fn vec_remove_value(v: &mut Vec<u64>, x: u64)
    requires
        forall|i: int, j: int| 0 <= i < j < old(v)@.len() ==> old(v)@[i] != old(v)@[j],
    ensures
        forall|y: u64| #[trigger] final(v)@.contains(y) <==> (old(v)@.contains(y) && y != x),
        forall|i: int, j: int| 0 <= i < j < final(v)@.len() ==> final(v)@[i] != final(v)@[j],
{
    let ghost pre = v@;
    let mut i: usize = 0;
    let mut at: usize = 0;
    let mut found: bool = false;
    while i < v.len()
        invariant
            v@ == pre,
            i <= pre.len(),
            found == (exists|k: int| 0 <= k < i && pre[k] == x),
            found ==> at < i && pre[at as int] == x,
        decreases pre.len() - i,
    {
        if v[i] == x {
            found = true;
            at = i;
        }
        i = i + 1;
    }
    if found {
        v.remove(at);
        proof {
            let now = v@;
            assert(now == pre.remove(at as int));
            assert forall|y: u64| #[trigger] now.contains(y) implies (pre.contains(y) && y != x) by {
                let k = choose|k: int| 0 <= k < now.len() && now[k] == y;
                if k < at {
                    assert(pre[k] == y);
                    if y == x {
                        assert(pre[k] == pre[at as int]);
                    }
                } else {
                    assert(pre[k + 1] == y);
                    if y == x {
                        assert(pre[k + 1] == pre[at as int]);
                    }
                }
            }
            assert forall|y: u64| pre.contains(y) && y != x implies #[trigger] now.contains(y) by {
                let k = choose|k: int| 0 <= k < pre.len() && pre[k] == y;
                if k < at {
                    assert(now[k] == y);
                } else {
                    assert(k > at);
                    assert(now[k - 1] == y);
                }
            }
            assert forall|i2: int, j2: int| 0 <= i2 < j2 < now.len() implies now[i2] != now[j2] by {
                if j2 < at {
                } else if i2 < at {
                    assert(now[i2] == pre[i2] && now[j2] == pre[j2 + 1]);
                } else {
                    assert(now[i2] == pre[i2 + 1] && now[j2] == pre[j2 + 1]);
                }
            }
        }
    } else {
        proof {
            assert forall|y: u64| #[trigger] v@.contains(y) implies y != x by {
                let k = choose|k: int| 0 <= k < pre.len() && pre[k] == y;
            }
        }
    }
}

/// Whether a vector of hashes holds the given one.
fn vec_has(v: &Vec<u64>, x: u64) -> (r: bool)
    ensures
        r == v@.contains(x),
{
    let mut found: bool = false;
    let mut i: usize = 0;
    while i < v.len()
        invariant
            i <= v@.len(),
            found == (exists|k: int| 0 <= k < i && v@[k] == x),
        decreases v@.len() - i,
    {
        if v[i] == x {
            found = true;
        }
        i = i + 1;
    }
    found
}

/// Maintains a DAG of blocks in the chain which have votes attached to them,
/// and vote data which is accumulated along edges.
///
/// The ghost `chain_model` holds the part of the block tree the graph has
/// seen; the ghost `votes` holds the weight cast directly on each block.
/// Every contract of the graph speaks of these two models.
pub struct VoteGraph {
    pub entries: HashMap<u64, Entry>,
    pub heads: Vec<u64>,
    pub base: u64,
    pub chain_model: Ghost<Map<u64, BlockMeta>>,
    pub votes: Ghost<Map<u64, nat>>,
}

impl VoteGraph {
    /// There is an entry for this hash.
    pub open spec fn has(self, h: u64) -> bool {
        self.entries@.contains_key(h)
    }

    /// The height of an entry.
    pub open spec fn num(self, h: u64) -> int {
        self.entries@[h].number as int
    }

    /// The ancestor hashes of an entry.
    pub open spec fn anc_of(self, h: u64) -> Seq<u64> {
        self.entries@[h].ancestors@
    }

    /// The descendent vote-nodes of an entry.
    pub open spec fn desc_of(self, h: u64) -> Seq<u64> {
        self.entries@[h].descendents@
    }

    /// The cumulative vote of an entry.
    pub open spec fn cum(self, h: u64) -> nat {
        self.entries@[h].cumulative_vote as nat
    }

    /// The nearest ancestor vote-node of an entry.
    pub open spec fn anc_key(self, h: u64) -> u64 {
        self.anc_of(h).last()
    }

    /// The height of the base.
    pub open spec fn base_num(self) -> int {
        self.num(self.base)
    }

    /// The weight cast directly on a block.
    pub open spec fn vote_on(self, h: u64) -> nat {
        if self.votes@.contains_key(h) {
            self.votes@[h]
        } else {
            0
        }
    }

    /// The block `(hash, number)` lies strictly inside the edge of entry
    /// `d`: above `d`'s ancestor vote-node (or equal to it) and below `d`.
    pub open spec fn edge_contains(self, d: u64, hash: u64, number: u64) -> bool {
        &&& self.has(d)
        &&& number < self.num(d)
        &&& self.num(d) - number - 1 < self.anc_of(d).len()
        &&& self.anc_of(d)[self.num(d) - number - 1] == hash
    }

    /// The block `(hash, number)` is known to the graph: an entry, or on
    /// some entry's edge.
    pub open spec fn knows(self, hash: u64, number: u64) -> bool {
        self.has(hash) || exists|d: u64| self.edge_contains(d, hash, number)
    }

    /// The constraint under which a GHOST search may still hold its
    /// frontier when it stops: the current-best block when that lies inside
    /// an edge, nothing otherwise.
    pub open spec fn search_constraint(self, current_best: Option<(u64, u64)>) -> Option<
        (u64, u64),
    > {
        match current_best {
            Some((h, n)) => if self.entries@.contains_key(h) {
                None
            } else {
                Some((h, n))
            },
            None => None,
        }
    }

    /// The filter a constrained search applies to a vote-node: with no
    /// constraint every node passes; with one, only nodes whose edge holds
    /// the constraining block.
    pub open spec fn fc_ok(self, d: u64, fc: Option<(u64, u64)>) -> bool {
        match fc {
            Some((fh, fn_)) => self.edge_contains(d, fh, fn_),
            None => true,
        }
    }

    /// Two or more distinct vote-nodes whose edges all hold the block
    /// `(b, upper)` as well as the block `(last, best)` below it, all
    /// passing the constraint `fc`: a set that could merge one level above
    /// `(last, best)`.
    pub open spec fn straddling_pair(
        self,
        ds: Seq<u64>,
        b: u64,
        upper: u64,
        last: u64,
        best: u64,
        fc: Option<(u64, u64)>,
    ) -> bool {
        &&& ds.len() >= 2
        &&& (forall|i: int, j: int| 0 <= i < j < ds.len() ==> ds[i] != ds[j])
        &&& (forall|i: int| 0 <= i < ds.len() ==> self.edge_contains(#[trigger] ds[i], b, upper))
        &&& (forall|i: int| 0 <= i < ds.len() ==> self.edge_contains(#[trigger] ds[i], last, best))
        &&& (forall|i: int| 0 <= i < ds.len() ==> self.fc_ok(#[trigger] ds[i], fc))
    }

    /// `ds` is a duplicate-free set of entries whose edges all hold the
    /// block `(h, n)` and whose cumulative votes together pass `cond`.
    pub open spec fn weight_witness(self, ds: Seq<u64>, h: u64, n: u64, cond: Condition) -> bool {
        &&& (forall|i: int, j: int| 0 <= i < j < ds.len() ==> ds[i] != ds[j])
        &&& (forall|i: int| 0 <= i < ds.len() ==> self.edge_contains(#[trigger] ds[i], h, n))
        &&& passes(cond, self.sum_cum(ds))
    }

    /// The block `(h, n)` carries enough weight to pass `cond`: it is a
    /// vote-node whose cumulative vote passes, or a set of vote-nodes
    /// holding it on their edges together pass.
    pub open spec fn block_has_weight(self, h: u64, n: u64, cond: Condition) -> bool {
        ||| (self.has(h) && self.num(h) == n && passes(cond, self.cum(h)))
        ||| (exists|ds: Seq<u64>| self.weight_witness(ds, h, n, cond))
    }

    /// Sum of the cumulative votes of a run of entries.
    pub open spec fn sum_cum(self, keys: Seq<u64>) -> nat
        decreases keys.len(),
    {
        if keys.len() == 0 {
            0
        } else {
            self.cum(keys[0]) + self.sum_cum(keys.drop_first())
        }
    }

    /// Structural soundness of one entry: it sits in the chain model where
    /// its ancestor list says, the list mirrors the chain model, no inner
    /// ancestor is itself an entry (compaction), the nearest ancestor
    /// vote-node exists and lists this entry as a descendent, and the
    /// descendent list is exact and duplicate-free.
    pub open spec fn entry_ok(self, h: u64) -> bool {
        let e = self.entries@[h];
        &&& self.chain_model@.contains_key(h)
        &&& self.chain_model@[h].number == e.number
        &&& e.ancestors@.len() <= e.number
        &&& (h == self.base <==> e.ancestors@.len() == 0)
        &&& (h != self.base ==> {
            let a = e.ancestors@.last();
            &&& self.entries@.contains_key(a)
            &&& self.entries@[a].number == e.number - e.ancestors@.len()
            &&& self.entries@[a].descendents@.contains(h)
        })
        &&& (forall|k: int|
            0 <= k < e.ancestors@.len() ==> e.ancestors@[k] == chain_anc(
                self.chain_model@,
                h,
                (e.number - 1 - k) as u64,
            ))
        &&& (forall|k: int|
            0 <= k < e.ancestors@.len() - 1 ==> !self.entries@.contains_key(e.ancestors@[k]))
        &&& (forall|i: int|
            0 <= i < e.descendents@.len() ==> {
                let d = #[trigger] e.descendents@[i];
                &&& self.entries@.contains_key(d)
                &&& self.entries@[d].ancestors@.len() >= 1
                &&& self.entries@[d].ancestors@.last() == h
            })
        &&& (forall|i: int, j: int|
            0 <= i < j < e.descendents@.len() ==> e.descendents@[i] != e.descendents@[j])
    }

    /// The cumulative vote of one entry is the weight on its own block plus
    /// the cumulative votes of its descendent vote-nodes.
    pub open spec fn sums_ok_at(self, h: u64) -> bool {
        self.cum(h) == self.vote_on(h) + self.sum_cum(self.desc_of(h))
    }

    /// An entry is a head exactly when it has no descendent vote-node.
    pub open spec fn head_ok(self, h: u64) -> bool {
        self.heads@.contains(h) <==> self.desc_of(h).len() == 0
    }

    /// The graph invariant.
    pub open spec fn wf(self) -> bool {
        &&& self.entries@.contains_key(self.base)
        &&& rooted(self.chain_model@, self.base, self.entries@[self.base].number)
        &&& (forall|h: u64| self.entries@.contains_key(h) ==> #[trigger] self.entry_ok(h))
        &&& (forall|h: u64| self.entries@.contains_key(h) ==> #[trigger] self.sums_ok_at(h))
        &&& (forall|h: u64| self.entries@.contains_key(h) ==> #[trigger] self.head_ok(h))
        &&& (forall|h: u64|
            #[trigger] self.votes@.contains_key(h) ==> self.entries@.contains_key(h))
        &&& (forall|i: int| 0 <= i < self.heads@.len() ==> self.entries@.contains_key(
            self.heads@[i],
        ))
        &&& (forall|i: int, j: int|
            0 <= i < j < self.heads@.len() ==> self.heads@[i] != self.heads@[j])
    }

    /// The chain of vote-nodes from `from` down to the base, following
    /// ancestor-node links; `fuel` bounds the walk.
    pub open spec fn path_from(self, from: u64, fuel: nat) -> Seq<u64>
        decreases fuel,
    {
        if !self.entries@.contains_key(from) || fuel == 0 {
            seq![]
        } else if self.anc_of(from).len() == 0 {
            seq![from]
        } else {
            seq![from] + self.path_from(self.anc_key(from), (fuel - 1) as nat)
        }
    }

    /// The chain of vote-nodes from `from` down to the base.
    pub open spec fn node_path(self, from: u64) -> Seq<u64> {
        self.path_from(from, (self.entries@[from].number + 1) as nat)
    }

    proof fn lemma_path_fuel(self, from: u64, fuel: nat)
        requires
            self.wf(),
            self.has(from),
            fuel >= self.num(from) + 1,
        ensures
            self.path_from(from, fuel) == self.node_path(from),
        decreases self.num(from),
    {
        assert(self.entry_ok(from));
        if self.anc_of(from).len() > 0 {
            let a = self.anc_key(from);
            assert(self.num(a) < self.num(from));
            self.lemma_path_fuel(a, (fuel - 1) as nat);
            self.lemma_path_fuel(a, (self.entries@[from].number + 1 - 1) as nat);
        }
    }

    /// What holds of the chain of vote-nodes below an entry: it starts at
    /// the entry, ends at the base, follows ancestor-node links, and its
    /// heights strictly decrease.
    proof fn lemma_path_props(self, from: u64)
        requires
            self.wf(),
            self.has(from),
        ensures
            self.node_path(from).len() >= 1,
            self.node_path(from)[0] == from,
            self.node_path(from).last() == self.base,
            forall|i: int|
                0 <= i < self.node_path(from).len() ==> self.has(#[trigger] self.node_path(from)[i]),
            forall|i: int|
                0 <= i < self.node_path(from).len() - 1 ==> (#[trigger] self.node_path(from)[i])
                    != self.base && self.anc_of(self.node_path(from)[i]).len() >= 1 && self.anc_key(
                    self.node_path(from)[i],
                ) == self.node_path(from)[i + 1],
            forall|i: int, j: int|
                0 <= i < j < self.node_path(from).len() ==> self.num(
                    #[trigger] self.node_path(from)[i],
                ) > self.num(#[trigger] self.node_path(from)[j]),
        decreases self.num(from),
    {
        assert(self.entry_ok(from));
        let p = self.node_path(from);
        if self.anc_of(from).len() == 0 {
            assert(from == self.base);
        } else {
            let a = self.anc_key(from);
            assert(self.num(a) < self.num(from));
            self.lemma_path_fuel(a, (self.entries@[from].number + 1 - 1) as nat);
            self.lemma_path_props(a);
            let q = self.node_path(a);
            assert(p =~= seq![from] + q);
            assert forall|i: int, j: int| 0 <= i < j < p.len() implies self.num(#[trigger] p[i])
                > self.num(#[trigger] p[j]) by {
                if i == 0 {
                    if j == 1 {
                        assert(p[j] == a);
                    } else {
                        assert(p[j] == q[j - 1]);
                        assert(self.num(q[0]) > self.num(q[j - 1]));
                    }
                } else {
                    assert(p[i] == q[i - 1] && p[j] == q[j - 1]);
                }
            }
        }
    }

    /// A non-base node on a path is followed there by its ancestor node.
    proof fn lemma_path_extends(self, from: u64, c: u64)
        requires
            self.wf(),
            self.has(from),
            self.node_path(from).contains(c),
            c != self.base,
        ensures
            self.has(c),
            self.anc_of(c).len() >= 1,
            self.node_path(from).contains(self.anc_key(c)),
        decreases self.num(from),
    {
        self.lemma_path_props(from);
        let p = self.node_path(from);
        let i = choose|i: int| 0 <= i < p.len() && p[i] == c;
        assert(p.last() == self.base);
        assert(i < p.len() - 1) by {
            if i == p.len() - 1 {
                assert(p[i] == self.base);
            }
        }
        assert(self.anc_key(p[i]) == p[i + 1]);
        assert(p.contains(p[i + 1]));
        assert(self.entry_ok(c));
    }

    /// The head reached from `e` by repeatedly stepping to the first
    /// descendent vote-node; `fuel` bounds the walk.
    pub open spec fn climb(self, e: u64, fuel: nat) -> u64
        decreases fuel,
    {
        if fuel == 0 || !self.entries@.contains_key(e) || self.desc_of(e).len() == 0 {
            e
        } else {
            self.climb(self.desc_of(e)[0], (fuel - 1) as nat)
        }
    }

    /// A head whose path passes through `e`.
    pub open spec fn head_above(self, e: u64) -> u64 {
        self.climb(e, (u64::MAX - self.entries@[e].number) as nat)
    }

    proof fn lemma_path_is_chain(self, from: u64)
        requires
            self.wf(),
            self.has(from),
        ensures
            forall|e: u64|
                self.has(e) ==> (self.node_path(from).contains(e) <==> (chain_anc(
                    self.chain_model@,
                    from,
                    self.entries@[e].number,
                ) == e && self.entries@[e].number <= self.entries@[from].number)),
        decreases self.num(from),
    {
        let cm = self.chain_model@;
        let bn = self.entries@[self.base].number;
        assert(self.entry_ok(from));
        assert(cm[from].number == self.entries@[from].number);
        assert(cm[from].number >= bn);
        self.lemma_path_props(from);
        let p = self.node_path(from);
        if self.anc_of(from).len() == 0 {
            assert(from == self.base);
            assert forall|e: u64| self.has(e) implies (p.contains(e) <==> (chain_anc(
                cm,
                from,
                self.entries@[e].number,
            ) == e && self.entries@[e].number <= self.entries@[from].number)) by {
                assert(self.entry_ok(e));
                assert(cm[e].number == self.entries@[e].number);
                assert(cm[e].number >= bn);
                if p.contains(e) {
                    let i = choose|i: int| 0 <= i < p.len() && p[i] == e;
                    assert(p[0] == from && p.len() == 1);
                    assert(e == from);
                }
                if self.entries@[e].number <= bn {
                    assert(self.entries@[e].number == bn);
                    if chain_anc(cm, from, self.entries@[e].number) == e {
                        assert(e == from);
                        assert(p[0] == e);
                        assert(p.contains(e));
                    }
                }
            }
        } else {
            let a = self.anc_key(from);
            let le = self.anc_of(from).len() as int;
            assert(self.num(a) < self.num(from));
            assert(self.entry_ok(a));
            assert(cm[a].number == self.entries@[a].number);
            assert(self.anc_of(from)[le - 1] == chain_anc(
                cm,
                from,
                (self.num(from) - 1 - (le - 1)) as u64,
            ));
            assert(chain_anc(cm, from, self.entries@[a].number) == a);
            self.lemma_path_fuel(a, (self.entries@[from].number + 1 - 1) as nat);
            assert(p =~= seq![from] + self.node_path(a));
            self.lemma_path_is_chain(a);
            let q = self.node_path(a);
            assert forall|e: u64| self.has(e) implies (p.contains(e) <==> (chain_anc(
                cm,
                from,
                self.entries@[e].number,
            ) == e && self.entries@[e].number <= self.entries@[from].number)) by {
                assert(self.entry_ok(e));
                assert(cm[e].number == self.entries@[e].number);
                assert(cm[e].number >= bn);
                let m = self.entries@[e].number;
                if p.contains(e) {
                    let i = choose|i: int| 0 <= i < p.len() && p[i] == e;
                    if i == 0 {
                        assert(e == from);
                        assert(chain_anc(cm, from, m) == from);
                    } else {
                        assert(q[i - 1] == e);
                        assert(q.contains(e));
                        assert(chain_anc(cm, a, m) == e && m <= self.entries@[a].number);
                        crate::chain::lemma_chain_anc_trans(
                            cm,
                            self.base,
                            bn,
                            from,
                            self.entries@[a].number,
                            m,
                        ) ;
                        assert(chain_anc(cm, from, m) == e);
                    }
                } else {
                    if chain_anc(cm, from, m) == e && m <= self.entries@[from].number {
                        if m == self.entries@[from].number {
                            assert(e == from);
                            assert(p[0] == e);
                        } else if m > self.entries@[a].number {
                            let k = self.num(from) - m - 1;
                            assert(self.anc_of(from)[k] == chain_anc(cm, from, (self.num(from) - 1
                                - k) as u64));
                            assert(self.anc_of(from)[k] == e);
                            assert(k < le - 1);
                            assert(!self.has(self.anc_of(from)[k]));
                        } else {
                            crate::chain::lemma_chain_anc_trans(
                                cm,
                                self.base,
                                bn,
                                from,
                                self.entries@[a].number,
                                m,
                            ) ;
                            assert(chain_anc(cm, a, m) == e);
                            assert(q.contains(e));
                            let j = choose|j: int| 0 <= j < q.len() && q[j] == e;
                            assert(p[j + 1] == e);
                            assert(p.contains(e));
                        }
                    }
                }
            }
        }
    }

    proof fn lemma_climb_fuel(self, e: u64, fuel: nat)
        requires
            self.wf(),
            self.has(e),
            fuel >= u64::MAX - self.num(e),
        ensures
            self.climb(e, fuel) == self.head_above(e),
        decreases u64::MAX - self.num(e),
    {
        assert(self.entry_ok(e));
        if self.desc_of(e).len() > 0 {
            let c = self.desc_of(e)[0];
            assert(self.entry_ok(c));
            assert(self.num(c) > self.num(e));
            if fuel == 0 {
            } else {
                self.lemma_climb_fuel(c, (fuel - 1) as nat);
                self.lemma_climb_fuel(c, (u64::MAX - self.entries@[e].number - 1) as nat);
            }
        }
    }

    /// Every entry lies on the path of some head.
    proof fn lemma_head_above(self, e: u64)
        requires
            self.wf(),
            self.has(e),
        ensures
            self.has(self.head_above(e)),
            self.heads@.contains(self.head_above(e)),
            self.node_path(self.head_above(e)).contains(e),
        decreases u64::MAX - self.num(e),
    {
        assert(self.entry_ok(e));
        assert(self.head_ok(e));
        if self.desc_of(e).len() == 0 {
            assert(self.head_above(e) == e);
            self.lemma_path_props(e);
            assert(self.node_path(e)[0] == e);
        } else {
            let c = self.desc_of(e)[0];
            assert(self.entry_ok(c));
            assert(self.num(c) > self.num(e));
            self.lemma_climb_fuel(c, (u64::MAX - self.entries@[e].number - 1) as nat);
            assert(self.head_above(e) == self.head_above(c));
            self.lemma_head_above(c);
            assert(self.anc_key(c) == e);
            assert(c != self.base);
            self.lemma_path_extends(self.head_above(c), c);
        }
    }

    /// Appending one entry raises a sum by its cumulative vote.
    proof fn lemma_sum_cum_push(self, keys: Seq<u64>, x: u64)
        ensures
            self.sum_cum(keys.push(x)) == self.sum_cum(keys) + self.cum(x),
        decreases keys.len(),
    {
        if keys.len() == 0 {
            assert(keys.push(x)[0] == x);
            assert(keys.push(x).drop_first() =~= Seq::<u64>::empty());
            assert(self.sum_cum(Seq::<u64>::empty()) == 0);
            assert(self.sum_cum(keys.push(x)) == self.cum(x) + self.sum_cum(
                keys.push(x).drop_first(),
            ));
        } else {
            assert(keys.push(x)[0] == keys[0]);
            assert(keys.push(x).drop_first() =~= keys.drop_first().push(x));
            self.lemma_sum_cum_push(keys.drop_first(), x);
            assert(self.sum_cum(keys.push(x)) == self.cum(keys[0]) + self.sum_cum(
                keys.drop_first().push(x),
            ));
        }
    }

    /// Sums of cumulative votes agree when the entries agree.
    proof fn lemma_sum_cum_congruent(self, other: VoteGraph, keys: Seq<u64>)
        requires
            forall|i: int| 0 <= i < keys.len() ==> self.cum(#[trigger] keys[i]) == other.cum(
                keys[i],
            ),
        ensures
            self.sum_cum(keys) == other.sum_cum(keys),
        decreases keys.len(),
    {
        if keys.len() > 0 {
            self.lemma_sum_cum_congruent(other, keys.drop_first());
        }
    }

    /// Raising one listed entry's cumulative vote by `v` raises the sum by
    /// `v`, when the list has no duplicates.
    proof fn lemma_sum_cum_delta(self, other: VoteGraph, keys: Seq<u64>, x: u64, v: nat)
        requires
            forall|i: int, j: int| 0 <= i < j < keys.len() ==> keys[i] != keys[j],
            keys.contains(x),
            forall|i: int| 0 <= i < keys.len() && keys[i] != x ==> other.cum(#[trigger] keys[i])
                == self.cum(keys[i]),
            other.cum(x) == self.cum(x) + v,
        ensures
            other.sum_cum(keys) == self.sum_cum(keys) + v,
        decreases keys.len(),
    {
        let rest = keys.drop_first();
        if keys[0] == x {
            assert(forall|i: int| 0 <= i < rest.len() ==> rest[i] == keys[i + 1]);
            assert forall|i: int| 0 <= i < rest.len() implies self.cum(#[trigger] rest[i])
                == other.cum(rest[i]) by {
                assert(rest[i] == keys[i + 1]);
                assert(keys[i + 1] != keys[0]);
            }
            self.lemma_sum_cum_congruent(other, rest);
        } else {
            let j = choose|j: int| 0 <= j < keys.len() && keys[j] == x;
            assert(rest[j - 1] == x);
            assert(rest.contains(x));
            self.lemma_sum_cum_delta(other, rest, x, v);
        }
    }

    /// A sum of cumulative votes is at least any one listed entry's.
    proof fn lemma_sum_cum_ge_elem(self, keys: Seq<u64>, i: int)
        requires
            0 <= i < keys.len(),
        ensures
            self.sum_cum(keys) >= self.cum(keys[i]),
        decreases keys.len(),
    {
        if i > 0 {
            self.lemma_sum_cum_ge_elem(keys.drop_first(), i - 1);
        }
    }

    proof fn lemma_seq_remove_facts(s: Seq<u64>, i: int)
        requires
            forall|p: int, q: int| 0 <= p < q < s.len() ==> s[p] != s[q],
            0 <= i < s.len(),
        ensures
            forall|p: int, q: int| 0 <= p < q < s.remove(i).len() ==> s.remove(i)[p] != s.remove(
                i,
            )[q],
            forall|y: u64| #[trigger] s.remove(i).contains(y) <==> (s.contains(y) && y != s[i]),
    {
        let t = s.remove(i);
        assert forall|p: int, q: int| 0 <= p < q < t.len() implies t[p] != t[q] by {
            if q < i {
            } else if p < i {
                assert(t[p] == s[p] && t[q] == s[q + 1]);
            } else {
                assert(t[p] == s[p + 1] && t[q] == s[q + 1]);
            }
        }
        assert forall|y: u64| #[trigger] t.contains(y) implies (s.contains(y) && y != s[i]) by {
            let k = choose|k: int| 0 <= k < t.len() && t[k] == y;
            if k < i {
                assert(s[k] == y);
                if y == s[i] {
                    assert(s[k] == s[i]);
                }
            } else {
                assert(s[k + 1] == y);
                if y == s[i] {
                    assert(s[k + 1] == s[i]);
                }
            }
        }
        assert forall|y: u64| s.contains(y) && y != s[i] implies #[trigger] t.contains(y) by {
            let k = choose|k: int| 0 <= k < s.len() && s[k] == y;
            if k < i {
                assert(t[k] == y);
            } else {
                assert(k > i);
                assert(t[k - 1] == y);
            }
        }
    }

    proof fn lemma_sum_cum_remove(self, keys: Seq<u64>, i: int)
        requires
            0 <= i < keys.len(),
        ensures
            self.sum_cum(keys) == self.cum(keys[i]) + self.sum_cum(keys.remove(i)),
        decreases keys.len(),
    {
        if i == 0 {
            assert(keys.remove(0) =~= keys.drop_first());
        } else {
            assert(keys.remove(i).drop_first() =~= keys.drop_first().remove(i - 1));
            self.lemma_sum_cum_remove(keys.drop_first(), i - 1);
            assert(keys.remove(i)[0] == keys[0]);
        }
    }

    /// A duplicate-free selection of entries weighs no more than a
    /// duplicate-free list containing them all.
    proof fn lemma_sum_cum_le_subset(self, sub: Seq<u64>, sup: Seq<u64>)
        requires
            forall|p: int, q: int| 0 <= p < q < sub.len() ==> sub[p] != sub[q],
            forall|p: int, q: int| 0 <= p < q < sup.len() ==> sup[p] != sup[q],
            forall|p: int| 0 <= p < sub.len() ==> sup.contains(#[trigger] sub[p]),
        ensures
            self.sum_cum(sub) <= self.sum_cum(sup),
        decreases sub.len(),
    {
        if sub.len() > 0 {
            let x = sub[0];
            assert(sup.contains(x));
            let i = choose|i: int| 0 <= i < sup.len() && sup[i] == x;
            self.lemma_sum_cum_remove(sup, i);
            Self::lemma_seq_remove_facts(sup, i);
            let rest = sub.drop_first();
            assert forall|p: int| 0 <= p < rest.len() implies sup.remove(i).contains(
                #[trigger] rest[p],
            ) by {
                assert(rest[p] == sub[p + 1]);
                assert(sub[p + 1] != sub[0]);
                assert(sup.contains(sub[p + 1]));
            }
            self.lemma_sum_cum_le_subset(rest, sup.remove(i));
        }
    }

    /// Splitting a duplicate-free list by membership in a duplicate-free
    /// selection splits its weight.
    proof fn lemma_sum_cum_split(self, sup: Seq<u64>, csub: Seq<u64>, kept: Seq<u64>)
        requires
            forall|p: int, q: int| 0 <= p < q < sup.len() ==> sup[p] != sup[q],
            forall|p: int, q: int| 0 <= p < q < csub.len() ==> csub[p] != csub[q],
            forall|p: int, q: int| 0 <= p < q < kept.len() ==> kept[p] != kept[q],
            forall|p: int| 0 <= p < csub.len() ==> sup.contains(#[trigger] csub[p]),
            forall|y: u64| #[trigger] kept.contains(y) <==> (sup.contains(y) && !csub.contains(y)),
        ensures
            self.sum_cum(sup) == self.sum_cum(csub) + self.sum_cum(kept),
        decreases csub.len(),
    {
        if csub.len() == 0 {
            assert forall|y: u64| #[trigger] sup.contains(y) implies kept.contains(y) by {
                if csub.contains(y) {
                    let k = choose|k: int| 0 <= k < csub.len() && csub[k] == y;
                }
                assert(kept.contains(y));
            }
            assert forall|y: u64| #[trigger] kept.contains(y) implies sup.contains(y) by {}
            self.lemma_sum_cum_same_set(sup, kept);
        } else {
            let x = csub[0];
            let i = choose|i: int| 0 <= i < sup.len() && sup[i] == x;
            self.lemma_sum_cum_remove(sup, i);
            Self::lemma_seq_remove_facts(sup, i);
            let rest = csub.drop_first();
            assert forall|p: int| 0 <= p < rest.len() implies sup.remove(i).contains(
                #[trigger] rest[p],
            ) by {
                assert(rest[p] == csub[p + 1]);
                assert(csub[p + 1] != csub[0]);
                assert(sup.contains(csub[p + 1]));
            }
            assert forall|y: u64| #[trigger] kept.contains(y) <==> (sup.remove(i).contains(y)
                && !rest.contains(y)) by {
                assert(csub.contains(y) <==> (y == x || rest.contains(y))) by {
                    if csub.contains(y) && y != x {
                        let k = choose|k: int| 0 <= k < csub.len() && csub[k] == y;
                        assert(rest[k - 1] == y);
                    }
                    if rest.contains(y) {
                        let k = choose|k: int| 0 <= k < rest.len() && rest[k] == y;
                        assert(csub[k + 1] == y);
                    }
                }
                if kept.contains(y) {
                    assert(sup.contains(y) && !csub.contains(y));
                    assert(y != x);
                }
            }
            self.lemma_sum_cum_split(sup.remove(i), rest, kept);
        }
    }

    proof fn lemma_sum_cum_same_set(self, s1: Seq<u64>, s2: Seq<u64>)
        requires
            forall|p: int, q: int| 0 <= p < q < s1.len() ==> s1[p] != s1[q],
            forall|p: int, q: int| 0 <= p < q < s2.len() ==> s2[p] != s2[q],
            forall|y: u64| #[trigger] s1.contains(y) ==> s2.contains(y),
            forall|y: u64| #[trigger] s2.contains(y) ==> s1.contains(y),
        ensures
            self.sum_cum(s1) == self.sum_cum(s2),
        decreases s1.len(),
    {
        if s1.len() == 0 {
            if s2.len() > 0 {
                assert(s2.contains(s2[0]));
                assert(s1.contains(s2[0]));
            }
        } else {
            let x = s1[0];
            assert(s1.contains(x)) by {
                assert(s1[0] == x);
            }
            assert(s2.contains(x));
            let i = choose|i: int| 0 <= i < s2.len() && s2[i] == x;
            self.lemma_sum_cum_remove(s2, i);
            Self::lemma_seq_remove_facts(s2, i);
            let rest = s1.drop_first();
            assert forall|p: int, q: int| 0 <= p < q < rest.len() implies rest[p] != rest[q] by {
                assert(rest[p] == s1[p + 1] && rest[q] == s1[q + 1]);
            }
            assert forall|y: u64| #[trigger] rest.contains(y) implies s2.remove(i).contains(
                y,
            ) by {
                let k = choose|k: int| 0 <= k < rest.len() && rest[k] == y;
                assert(s1[k + 1] == y);
                assert(s1.contains(y));
                assert(s2.contains(y));
                assert(y != x) by {
                    if y == x {
                        assert(s1[k + 1] == s1[0]);
                    }
                }
            }
            assert forall|y: u64| #[trigger] s2.remove(i).contains(y) implies rest.contains(y) by {
                assert(s2.contains(y) && y != x);
                assert(s1.contains(y));
                let k = choose|k: int| 0 <= k < s1.len() && s1[k] == y;
                assert(k > 0);
                assert(rest[k - 1] == y);
            }
            self.lemma_sum_cum_same_set(rest, s2.remove(i));
            assert(self.sum_cum(s1) == self.cum(s1[0]) + self.sum_cum(rest));
            assert(self.cum(s2[i]) == self.cum(x));
        }
    }

    /// Two entries whose edges both contain one absent block share their
    /// ancestor vote-node, which sits strictly below that block.
    proof fn lemma_containing_share_ancestor(self, hash: u64, number: u64, d1: u64, d2: u64)
        requires
            self.wf(),
            !self.has(hash),
            self.edge_contains(d1, hash, number),
            self.edge_contains(d2, hash, number),
        ensures
            self.anc_of(d1).len() >= 1,
            self.anc_of(d2).len() >= 1,
            self.anc_key(d1) == self.anc_key(d2),
            self.num(self.anc_key(d1)) < number,
            self.num(d1) - self.anc_of(d1).len() < number,
    {
        let cm = self.chain_model@;
        let bn = self.entries@[self.base].number;
        assert(self.entry_ok(d1));
        assert(self.entry_ok(d2));
        self.lemma_containing_bottom(hash, number, d1);
        self.lemma_containing_bottom(hash, number, d2);
        let a1 = self.anc_key(d1);
        let a2 = self.anc_key(d2);
        assert(self.entry_ok(a1));
        assert(self.entry_ok(a2));
        let n1 = self.entries@[a1].number;
        let n2 = self.entries@[a2].number;
        assert(cm[a1].number == n1 && cm[a2].number == n2);
        assert(a1 == chain_anc(cm, d1, n1) && a2 == chain_anc(cm, d2, n2)) by {
            assert(self.anc_of(d1)[self.anc_of(d1).len() - 1] == chain_anc(
                cm,
                d1,
                (self.num(d1) - 1 - (self.anc_of(d1).len() - 1)) as u64,
            ));
            assert(self.anc_of(d2)[self.anc_of(d2).len() - 1] == chain_anc(
                cm,
                d2,
                (self.num(d2) - 1 - (self.anc_of(d2).len() - 1)) as u64,
            ));
        }
        assert(hash == chain_anc(cm, d1, number) && hash == chain_anc(cm, d2, number)) by {
            assert(self.anc_of(d1)[self.num(d1) - number - 1] == chain_anc(cm, d1, number));
            assert(self.anc_of(d2)[self.num(d2) - number - 1] == chain_anc(cm, d2, number));
        }
        crate::chain::lemma_chain_anc_trans(cm, self.base, bn, d1, number, n1 as u64);
        crate::chain::lemma_chain_anc_trans(cm, self.base, bn, d2, number, n2 as u64);
        assert(a1 == chain_anc(cm, hash, n1 as u64));
        assert(a2 == chain_anc(cm, hash, n2 as u64));
        if n1 < n2 {
            let k = self.num(d1) - 1 - n2;
            assert(0 <= k < self.anc_of(d1).len() - 1);
            assert(self.anc_of(d1)[k] == chain_anc(cm, d1, n2 as u64));
            crate::chain::lemma_chain_anc_trans(cm, self.base, bn, d1, number, n2 as u64);
            assert(self.anc_of(d1)[k] == a2);
            assert(!self.has(a2));
        } else if n2 < n1 {
            let k = self.num(d2) - 1 - n1;
            assert(0 <= k < self.anc_of(d2).len() - 1);
            assert(self.anc_of(d2)[k] == chain_anc(cm, d2, n1 as u64));
            crate::chain::lemma_chain_anc_trans(cm, self.base, bn, d2, number, n1 as u64);
            assert(self.anc_of(d2)[k] == a1);
            assert(!self.has(a1));
        }
    }

    /// An edge holding an absent block stretches strictly below it.
    proof fn lemma_containing_bottom(self, hash: u64, number: u64, d: u64)
        requires
            self.wf(),
            !self.has(hash),
            self.edge_contains(d, hash, number),
        ensures
            self.anc_of(d).len() >= 1,
            self.num(d) - self.anc_of(d).len() < number,
            self.num(self.anc_key(d)) == self.num(d) - self.anc_of(d).len(),
            self.has(self.anc_key(d)),
            self.cm_number(hash) == number,
            self.chain_model@.contains_key(hash),
    {
        assert(self.entry_ok(d));
        if self.num(d) - self.anc_of(d).len() == number {
            assert(self.num(d) - number - 1 == self.anc_of(d).len() - 1);
            assert(self.anc_key(d) == hash);
            assert(self.has(self.anc_key(d)));
        }
        let bn = self.entries@[self.base].number;
        let cm = self.chain_model@;
        assert(self.anc_of(d)[self.num(d) - number - 1] == chain_anc(cm, d, number));
        assert(self.num(self.anc_key(d)) >= bn) by {
            assert(self.entry_ok(self.anc_key(d)));
        }
        crate::chain::lemma_chain_anc_props(cm, self.base, bn, d, number);
    }

    /// The height the chain model gives a block.
    pub open spec fn cm_number(self, h: u64) -> int {
        self.chain_model@[h].number as int
    }

    /// The cumulative vote never exceeds the ancestor vote-node's.
    proof fn lemma_cum_le_anc(self, h: u64)
        requires
            self.wf(),
            self.has(h),
            h != self.base,
        ensures
            self.anc_of(h).len() >= 1,
            self.has(self.anc_key(h)),
            self.cum(h) <= self.cum(self.anc_key(h)),
    {
        assert(self.entry_ok(h));
        let a = self.anc_key(h);
        assert(self.entry_ok(a));
        assert(self.sums_ok_at(a));
        let i = choose|i: int| 0 <= i < self.desc_of(a).len() && self.desc_of(a)[i] == h;
        self.lemma_sum_cum_ge_elem(self.desc_of(a), i);
    }

    /// The base's cumulative vote bounds every entry's: it is the total
    /// weight inserted into the graph.
    proof fn lemma_cum_le_base(self, h: u64)
        requires
            self.wf(),
            self.has(h),
        ensures
            self.cum(h) <= self.cum(self.base),
        decreases self.num(h),
    {
        if h != self.base {
            assert(self.entry_ok(h));
            self.lemma_cum_le_anc(h);
            assert(self.num(self.anc_key(h)) < self.num(h));
            self.lemma_cum_le_base(self.anc_key(h));
        }
    }

    /// The backward search over an entry neither stops nor matches at the
    /// target height: it continues at the ancestor vote-node.
    pub open spec fn case_continue(self, x: u64, number: u64) -> bool {
        &&& self.has(x)
        &&& self.anc_of(x).len() >= 1
        &&& (number >= self.num(x) || number < self.num(x) - self.anc_of(x).len())
    }

    /// Every continuing entry of `visited` has its ancestor vote-node in
    /// `visited` too.
    pub open spec fn visited_closed(self, visited: Seq<u64>, number: u64) -> bool {
        forall|x: u64| #[trigger] visited.contains(x) && self.case_continue(x, number)
            ==> visited.contains(self.anc_key(x))
    }

    /// As `visited_closed`, but one entry may still point at `pending`.
    pub open spec fn visited_closed_except(self, visited: Seq<u64>, number: u64, pending: u64) -> bool {
        forall|x: u64| #[trigger] visited.contains(x) && self.case_continue(x, number)
            ==> visited.contains(self.anc_key(x)) || self.anc_key(x) == pending
    }

    proof fn lemma_path_visited(self, h: u64, i: int, visited: Seq<u64>, number: u64)
        requires
            self.wf(),
            self.has(h),
            visited.contains(h),
            self.visited_closed(visited, number),
            0 <= i < self.node_path(h).len(),
            forall|j: int| 0 <= j < i ==> self.case_continue(#[trigger] self.node_path(h)[j], number),
        ensures
            visited.contains(self.node_path(h)[i]),
        decreases i,
    {
        self.lemma_path_props(h);
        if i > 0 {
            self.lemma_path_visited(h, i - 1, visited, number);
            let p = self.node_path(h);
            assert(self.case_continue(p[i - 1], number));
            assert(self.anc_key(p[i - 1]) == p[i]);
        }
    }

    /// Create a new `VoteGraph` with base node as given.
    pub fn new(base_hash: u64, base_number: u64) -> (g: VoteGraph)
        ensures
            g.wf(),
            g.base == base_hash,
            g.base_num() == base_number,
            g.entries@.dom() =~= set![base_hash],
            g.has(base_hash),
            g.num(base_hash) == base_number,
            g.cum(base_hash) == 0,
            g.heads@ =~= seq![base_hash],
            g.votes@ =~= Map::<u64, nat>::empty(),
            g.chain_model@ =~= Map::<u64, BlockMeta>::empty().insert(
                base_hash,
                BlockMeta { parent: base_hash, number: base_number },
            ),
    {
        let mut entries: HashMap<u64, Entry> = HashMap::new();
        entries.insert(
            base_hash,
            Entry {
                number: base_number,
                ancestors: Vec::new(),
                descendents: Vec::new(),
                cumulative_vote: 0,
            },
        );
        let mut heads: Vec<u64> = Vec::new();
        heads.push(base_hash);
        let g = VoteGraph {
            entries,
            heads,
            base: base_hash,
            chain_model: Ghost(
                Map::<u64, BlockMeta>::empty().insert(
                    base_hash,
                    BlockMeta { parent: base_hash, number: base_number },
                ),
            ),
            votes: Ghost(Map::<u64, nat>::empty()),
        };
        proof {
            assert(g.entries@.dom() =~= set![base_hash]);
            assert forall|h: u64| g.entries@.contains_key(h) implies #[trigger] g.entry_ok(h) by {
                assert(h == base_hash);
            }
            assert forall|h: u64| g.entries@.contains_key(h) implies #[trigger] g.sums_ok_at(h) by {
                assert(g.sum_cum(g.desc_of(h)) == 0);
            }
            assert forall|h: u64| g.entries@.contains_key(h) implies #[trigger] g.head_ok(h) by {
                assert(g.heads@[0] == base_hash);
            }
        }
        g
    }

    proof fn lemma_append_wf(g: VoteGraph, g2: VoteGraph, c: Map<u64, BlockMeta>, hash: u64, number: u64, ai: int, a: u64)
        requires
            g.wf(),
            chain_map_wf(c),
            chain_sub(g.chain_model@, c, g.base),
            strict_desc(c, g.base, hash),
            c[hash].number == number,
            !g.has(hash),
            forall|d: u64| !g.edge_contains(d, hash, number),
            0 <= ai < crate::chain::ancestry_seq(c, hash, g.entries@[g.base].number).len(),
            a == crate::chain::ancestry_seq(c, hash, g.entries@[g.base].number)[ai],
            g.has(a),
            forall|k: int| 0 <= k < ai ==> !g.has(
                #[trigger] crate::chain::ancestry_seq(c, hash, g.entries@[g.base].number)[k],
            ),
            g2.base == g.base,
            g2.votes@ == g.votes@,
            g2.chain_model@ == crate::chain::extend_to(g.chain_model@, c, g.base, hash),
            g2.entries@.dom() =~= g.entries@.dom().insert(hash),
            g2.entries@[hash].number == number,
            g2.entries@[hash].ancestors@ == crate::chain::ancestry_seq(
                c,
                hash,
                g.entries@[g.base].number,
            ).subrange(0, ai + 1),
            g2.entries@[hash].descendents@.len() == 0,
            g2.entries@[hash].cumulative_vote == 0,
            g2.entries@[a].number == g.entries@[a].number,
            g2.entries@[a].ancestors@ == g.entries@[a].ancestors@,
            g2.entries@[a].descendents@ == g.entries@[a].descendents@.push(hash),
            g2.entries@[a].cumulative_vote == g.entries@[a].cumulative_vote,
            forall|h: u64| #[trigger] g.has(h) && h != a ==> g2.entries@[h] == g.entries@[h],
            forall|x: u64| #[trigger] g2.heads@.contains(x) <==> ((g.heads@.contains(x) && x != a)
                || x == hash),
            forall|i: int, j: int| 0 <= i < j < g2.heads@.len() ==> g2.heads@[i] != g2.heads@[j],
        ensures
            g2.wf(),
            g2.num(hash) == number,
    {
        let bn = g.entries@[g.base].number;
        let cm = g.chain_model@;
        let cm2 = g2.chain_model@;
        let anc = crate::chain::ancestry_seq(c, hash, bn);
        assert(g.entry_ok(g.base));
        assert(c[g.base].number == bn);
        assert(hash != g.base);
        crate::chain::lemma_extend_to_props(cm, c, g.base, bn, hash);
        assert(in_chain(c, g.base, hash)) by {
            assert(chain_anc(c, hash, c[g.base].number) == g.base);
        }
        // each listed ancestor sits in c and in the extended model
        assert forall|k: int| 0 <= k < anc.len() implies c.contains_key(#[trigger] anc[k])
            && c[anc[k]].number == number - 1 - k && cm2.contains_key(anc[k])
            && cm2[anc[k]].number == number - 1 - k && in_chain(c, g.base, anc[k]) && in_chain(
            c,
            anc[k],
            hash,
        ) by {
            crate::chain::lemma_in_chain_mid(c, g.base, hash, (number - 1 - k) as u64);
            if cm.contains_key(anc[k]) {
                assert(c[anc[k]].number == cm[anc[k]].number);
            }
        }
        assert(g.entry_ok(a));
        assert(g.entries@[a].number == number - 1 - ai);
        assert(a != hash);
        // transfer of chain ancestry between the old model, c, and the new model
        assert forall|h: u64, n: u64| cm.contains_key(h) && bn <= n <= cm[h].number implies
            #[trigger] chain_anc(cm2, h, n) == chain_anc(cm, h, n) by {
            crate::chain::lemma_chain_anc_agree(cm, c, g.base, bn, h, n);
            crate::chain::lemma_chain_anc_agree(cm2, c, g.base, bn, h, n);
        }
        assert forall|n: u64| bn <= n <= number implies #[trigger] chain_anc(cm2, hash, n)
            == chain_anc(c, hash, n) by {
            crate::chain::lemma_chain_anc_agree(cm2, c, g.base, bn, hash, n);
        }
        // structural soundness of every entry of the grown graph
        assert forall|h: u64| g2.entries@.contains_key(h) implies #[trigger] g2.entry_ok(h) by {
            if h == hash {
                assert(cm2.contains_key(hash) && cm2[hash] == c[hash]);
                assert(cm2[hash].number == number);
                assert(anc.len() == number - bn);
                assert(g2.anc_of(hash).len() == ai + 1 <= number);
                assert(g2.anc_of(hash).last() == anc[ai]);
                assert(g2.entries@.contains_key(a));
                assert(hash != g2.base);
                assert(g2.anc_of(hash).len() > 0);
                assert(g2.entries@[a].number == number - (ai + 1));
                assert(g2.entries@[a].descendents@.contains(hash)) by {
                    assert(g2.entries@[a].descendents@.last() == hash);
                }
                assert forall|k: int| 0 <= k < g2.anc_of(hash).len() implies g2.anc_of(hash)[k]
                    == chain_anc(cm2, hash, (number - 1 - k) as u64) by {
                    assert(g2.anc_of(hash)[k] == anc[k]);
                    assert(chain_anc(cm2, hash, (number - 1 - k) as u64) == chain_anc(
                        c,
                        hash,
                        (number - 1 - k) as u64,
                    ));
                }
                assert forall|k: int| 0 <= k < g2.anc_of(hash).len() - 1 implies
                    !g2.entries@.contains_key(g2.anc_of(hash)[k]) by {
                    assert(g2.anc_of(hash)[k] == anc[k]);
                    assert(!g.has(anc[k]));
                    assert(c[anc[k]].number < number);
                }
                assert(g2.entry_ok(hash));
            } else {
                assert(g.has(h));
                assert(g.entry_ok(h));
                assert(cm2.contains_key(h) && cm2[h] == cm[h]);
                assert(g2.entries@[h].number == g.entries@[h].number);
                assert(g2.anc_of(h) == g.anc_of(h));
                let e = g.entries@[h];
                if h != g.base {
                    let ah = e.ancestors@.last();
                    assert(g.has(ah));
                    assert(g.entries@.dom().contains(ah));
                    assert(g2.entries@.dom().contains(ah));
                    assert(g2.entries@.contains_key(ah));
                    assert(g.entries@[ah].number >= bn) by {
                        assert(g.entry_ok(ah));
                    }
                    if ah != a {
                        assert(g2.entries@[ah] == g.entries@[ah]);
                    }
                    assert(g2.entries@[ah].number == g.entries@[ah].number);
                    assert(g2.entries@[ah].descendents@.contains(h)) by {
                        if ah == a {
                            let od = g.entries@[a].descendents@;
                            let i = choose|i: int| 0 <= i < od.len() && od[i] == h;
                            assert(g2.entries@[a].descendents@[i] == h);
                        }
                    }
                }
                assert forall|k: int| 0 <= k < e.ancestors@.len() implies e.ancestors@[k]
                    == chain_anc(cm2, h, (e.number - 1 - k) as u64) by {
                    assert(e.ancestors@[k] == chain_anc(cm, h, (e.number - 1 - k) as u64));
                    assert(bn <= e.number - 1 - k <= cm[h].number) by {
                        if h == g.base {
                        } else {
                            assert(g.entries@[e.ancestors@.last()].number == e.number
                                - e.ancestors@.len());
                            assert(g.entry_ok(e.ancestors@.last()));
                            assert(cm.contains_key(e.ancestors@.last()));
                            assert(cm[e.ancestors@.last()].number >= bn);
                        }
                    }
                }
                assert forall|k: int| 0 <= k < e.ancestors@.len() - 1 implies
                    !g2.entries@.contains_key(e.ancestors@[k]) by {
                    assert(!g.entries@.contains_key(e.ancestors@[k]));
                    if e.ancestors@[k] == hash {
                        let n_k = (e.number - 1 - k) as u64;
                        assert(e.ancestors@[k] == chain_anc(cm, h, n_k));
                        crate::chain::lemma_chain_anc_props(cm, g.base, bn, h, n_k) ;
                        assert(cm.contains_key(hash) && cm[hash].number == n_k);
                        assert(c[hash].number == cm[hash].number);
                        assert(n_k == number);
                        assert(g.edge_contains(h, hash, number));
                    }
                }
                assert forall|i: int| 0 <= i < g2.desc_of(h).len() implies {
                    let d = #[trigger] g2.desc_of(h)[i];
                    &&& g2.entries@.contains_key(d)
                    &&& g2.entries@[d].ancestors@.len() >= 1
                    &&& g2.entries@[d].ancestors@.last() == h
                } by {
                    if h == a && i == g2.desc_of(h).len() - 1 {
                        assert(g2.desc_of(h)[i] == hash);
                        assert(g2.entries@.contains_key(hash));
                    } else {
                        let d = g2.desc_of(h)[i];
                        assert(d == g.desc_of(h)[i]);
                        assert(g.entries@.contains_key(d));
                        assert(g.has(d));
                        assert(d != hash);
                        if d != a {
                            assert(g2.entries@[d] == g.entries@[d]);
                        }
                        assert(g2.entries@.dom().contains(d));
                        assert(g2.entries@.contains_key(d));
                        assert(g2.entries@[d].ancestors@ == g.entries@[d].ancestors@);
                    }
                }
                assert forall|i: int, j: int| 0 <= i < j < g2.desc_of(h).len() implies g2.desc_of(
                    h,
                )[i] != g2.desc_of(h)[j] by {
                    if h == a && j == g2.desc_of(h).len() - 1 {
                        assert(g2.desc_of(h)[i] == g.desc_of(h)[i]);
                        assert(g.entries@.contains_key(g.desc_of(h)[i]));
                    } else if h == a {
                        assert(g2.desc_of(h)[i] == g.desc_of(h)[i] && g2.desc_of(h)[j] == g.desc_of(
                            h,
                        )[j]);
                    }
                }
                let e2 = g2.entries@[h];
                assert(cm2.contains_key(h));
                assert(cm2[h].number == e2.number);
                assert(e2.ancestors@.len() <= e2.number);
                assert(h == g2.base <==> e2.ancestors@.len() == 0);
                assert(h != g2.base ==> {
                    let a2 = e2.ancestors@.last();
                    &&& g2.entries@.contains_key(a2)
                    &&& g2.entries@[a2].number == e2.number - e2.ancestors@.len()
                    &&& g2.entries@[a2].descendents@.contains(h)
                });
                assert(forall|k: int|
                    0 <= k < e2.ancestors@.len() ==> e2.ancestors@[k] == chain_anc(
                        g2.chain_model@,
                        h,
                        (e2.number - 1 - k) as u64,
                    ));
                assert(forall|k: int|
                    0 <= k < e2.ancestors@.len() - 1 ==> !g2.entries@.contains_key(
                        e2.ancestors@[k],
                    ));
                assert forall|i: int| 0 <= i < e2.descendents@.len() implies {
                    let d = #[trigger] e2.descendents@[i];
                    &&& g2.entries@.contains_key(d)
                    &&& g2.entries@[d].ancestors@.len() >= 1
                    &&& g2.entries@[d].ancestors@.last() == h
                } by {
                    assert(e2.descendents@[i] == g2.desc_of(h)[i]);
                }
                assert(forall|i: int, j: int|
                    0 <= i < j < e2.descendents@.len() ==> e2.descendents@[i]
                        != e2.descendents@[j]);
                assert(g2.entry_ok(h));
            }
        }
        // heads and sums
        assert forall|h: u64| g2.entries@.contains_key(h) implies #[trigger] g2.head_ok(h) by {
            if h == hash {
                assert(g2.heads@.contains(hash));
            } else {
                assert(g.has(h));
                assert(g.head_ok(h));
                if h == a {
                    assert(g2.desc_of(a).len() > 0);
                    assert(!g2.heads@.contains(a));
                } else {
                    assert(g2.desc_of(h) == g.desc_of(h));
                    assert(g2.heads@.contains(h) == g.heads@.contains(h));
                }
            }
        }
        assert forall|h: u64| g2.entries@.contains_key(h) implies #[trigger] g2.sums_ok_at(h) by {
            if h == hash {
                assert(g2.desc_of(hash).len() == 0);
                assert(g2.sum_cum(g2.desc_of(hash)) == 0);
                assert(!g.votes@.contains_key(hash));
                assert(g2.vote_on(hash) == 0);
            } else {
                assert(g.has(h));
                assert(g.sums_ok_at(h));
                assert(g.entry_ok(h));
                assert forall|i: int| 0 <= i < g.desc_of(h).len() implies g.cum(
                    #[trigger] g.desc_of(h)[i],
                ) == g2.cum(g.desc_of(h)[i]) by {
                    let d = g.desc_of(h)[i];
                    assert(g.entries@.contains_key(d));
                    assert(g.has(d));
                    if d != a {
                        assert(g2.entries@[d] == g.entries@[d]);
                    }
                }
                g.lemma_sum_cum_congruent(g2, g.desc_of(h));
                if h == a {
                    g2.lemma_sum_cum_push(g.desc_of(a), hash);
                    assert(g2.sum_cum(g2.desc_of(a)) == g2.sum_cum(g.desc_of(a)) + 0);
                } else {
                    assert(g2.desc_of(h) == g.desc_of(h));
                }
                assert(g2.vote_on(h) == g.vote_on(h));
                assert(g2.cum(h) == g.cum(h));
            }
        }
        assert forall|i: int| 0 <= i < g2.heads@.len() implies g2.entries@.contains_key(
            #[trigger] g2.heads@[i],
        ) by {
            assert(g2.heads@.contains(g2.heads@[i]));
            if g2.heads@[i] != hash {
                assert(g.heads@.contains(g2.heads@[i]));
                assert(g.has(g2.heads@[i]));
                assert(g2.entries@.dom().contains(g2.heads@[i]));
            }
        }
        assert(g2.entries@.dom().contains(g.base));
        assert(g2.entries@.contains_key(g2.base));
        assert(g2.entries@[g2.base].number == bn) by {
            if g.base != a {
                assert(g.has(g.base));
                assert(g2.entries@[g.base] == g.entries@[g.base]);
            }
        }
        assert(rooted(cm2, g2.base, g2.entries@[g2.base].number));
        assert forall|h: u64| #[trigger] g2.votes@.contains_key(h) implies
            g2.entries@.contains_key(h) by {
            assert(g.votes@.contains_key(h));
            assert(g.has(h));
            assert(g2.entries@.dom().contains(h));
        }
    }

    /// Append a vote-node onto the chain-tree. This should only be called
    /// if no node in the tree keeps the target anyway.
    pub fn append<C: Chain>(&mut self, hash: u64, number: u64, chain: &C) -> (r: Result<(), Error>)
        requires
            old(self).wf(),
            chain_map_wf(chain.blocks()),
            chain_sub(old(self).chain_model@, chain.blocks(), old(self).base),
            !old(self).has(hash),
            forall|d: u64| !old(self).edge_contains(d, hash, number),
            chain.blocks().contains_key(hash) ==> chain.blocks()[hash].number == number,
        ensures
            match r {
                Ok(()) => {
                    &&& final(self).wf()
                    &&& strict_desc(chain.blocks(), old(self).base, hash)
                    &&& final(self).chain_model@ == crate::chain::extend_to(
                        old(self).chain_model@,
                        chain.blocks(),
                        old(self).base,
                        hash,
                    )
                    &&& final(self).votes@ == old(self).votes@
                    &&& final(self).base == old(self).base
                    &&& final(self).entries@[final(self).base].number == old(self).entries@[old(
                        self,
                    ).base].number
                    &&& final(self).has(hash)
                    &&& final(self).num(hash) == number
                    &&& final(self).cum(hash) == 0
                    &&& (forall|h: u64|
                        final(self).has(h) <==> old(self).has(h) || h == hash)
                    &&& (forall|h: u64|
                        #[trigger] old(self).has(h) ==> final(self).entries@[h].number == old(
                            self,
                        ).entries@[h].number && final(self).entries@[h].ancestors@ == old(
                            self,
                        ).entries@[h].ancestors@ && final(self).entries@[h].cumulative_vote == old(
                            self,
                        ).entries@[h].cumulative_vote)
                },
                Err(e) => {
                    &&& *final(self) == *old(self)
                    &&& e == Error::NotDescendent
                    &&& !strict_desc(chain.blocks(), old(self).base, hash)
                },
            },
    {
        let ghost g = *old(self);
        let ghost c = chain.blocks();
        let ghost bn = g.entries@[g.base].number;
        proof {
            assert(g.entry_ok(g.base));
            assert(c[g.base].number == bn);
        }
        let mut ancestry = match chain.ancestry(self.base, hash) {
            Ok(v) => v,
            Err(e) => {
                return Err(e);
            },
        };
        let ghost anc_full = ancestry@;
        proof {
            assert(anc_full == crate::chain::ancestry_seq(c, hash, bn));
            assert(c.contains_key(hash));
            assert(c[hash].number == number);
            assert(anc_full.len() == number - bn);
        }
        let mut i: usize = 0;
        let mut have: bool = false;
        while i < ancestry.len() && !have
            invariant
                *self == g,
                ancestry@ == anc_full,
                i <= anc_full.len(),
                have ==> i < anc_full.len() && g.has(anc_full[i as int]),
                forall|k: int| 0 <= k < i ==> !g.has(#[trigger] anc_full[k]),
            decreases anc_full.len() - i + (if have {
                0int
            } else {
                1int
            }),
        {
            if self.entries.contains_key(&ancestry[i]) {
                have = true;
            } else {
                i = i + 1;
            }
        }
        proof {
            if !have {
                assert(anc_full[anc_full.len() - 1] == chain_anc(
                    c,
                    hash,
                    (number - 1 - (anc_full.len() - 1)) as u64,
                ));
                assert(chain_anc(c, hash, c[g.base].number) == g.base);
                assert(!g.has(g.base));
                assert(false);
            }
        }
        let ancestor_index = i;
        let ancestor_hash = ancestry[ancestor_index];
        let mut a_entry = self.entries.remove(&ancestor_hash).unwrap();
        let ghost a_old = g.entries@[ancestor_hash];
        a_entry.descendents.push(hash);
        self.entries.insert(ancestor_hash, a_entry);
        ancestry.truncate(ancestor_index + 1);
        self.entries.insert(
            hash,
            Entry { number, ancestors: ancestry, descendents: Vec::new(), cumulative_vote: 0 },
        );
        vec_remove_value(&mut self.heads, ancestor_hash);
        let ghost heads_removed = self.heads@;
        self.heads.push(hash);
        self.chain_model = Ghost(crate::chain::extend_to(g.chain_model@, c, g.base, hash));
        proof {
            let g2 = *self;
            assert(g2.entries@ =~= g.entries@.insert(ancestor_hash, g2.entries@[ancestor_hash
            ]).insert(hash, g2.entries@[hash]));
            assert(g2.entries@.dom() =~= g.entries@.dom().insert(hash));
            assert(g2.entries@[hash].ancestors@ == anc_full.subrange(0, ancestor_index + 1));
            assert(g2.entries@[ancestor_hash].number == a_old.number);
            assert(g2.entries@[ancestor_hash].ancestors@ == a_old.ancestors@);
            assert(g2.entries@[ancestor_hash].descendents@ == a_old.descendents@.push(hash));
            assert(g2.entries@[ancestor_hash].cumulative_vote == a_old.cumulative_vote);
            assert(!g.heads@.contains(hash)) by {
                if g.heads@.contains(hash) {
                    let k = choose|k: int| 0 <= k < g.heads@.len() && g.heads@[k] == hash;
                    assert(g.has(g.heads@[k]));
                }
            }
            assert forall|x: u64| #[trigger] g2.heads@.contains(x) implies ((g.heads@.contains(x)
                && x != ancestor_hash) || x == hash) by {
                let k = choose|k: int| 0 <= k < g2.heads@.len() && g2.heads@[k] == x;
                if k < g2.heads@.len() - 1 {
                    assert(heads_removed[k] == x);
                    assert(heads_removed.contains(x));
                }
            }
            assert forall|x: u64| ((g.heads@.contains(x) && x != ancestor_hash) || x == hash)
                implies #[trigger] g2.heads@.contains(x) by {
                if x == hash {
                    assert(g2.heads@[g2.heads@.len() - 1] == hash);
                } else {
                    assert(heads_removed.contains(x));
                    let k = choose|k: int| 0 <= k < heads_removed.len() && heads_removed[k] == x;
                    assert(g2.heads@[k] == x);
                }
            }
            assert forall|i2: int, j2: int| 0 <= i2 < j2 < g2.heads@.len() implies g2.heads@[i2]
                != g2.heads@[j2] by {
                if j2 == g2.heads@.len() - 1 {
                    assert(g2.heads@[i2] == heads_removed[i2]);
                    assert(heads_removed.contains(heads_removed[i2]));
                } else {
                    assert(g2.heads@[i2] == heads_removed[i2] && g2.heads@[j2]
                        == heads_removed[j2]);
                }
            }
            VoteGraph::lemma_append_wf(g, g2, c, hash, number, ancestor_index as int, ancestor_hash);
            assert forall|h: u64| #[trigger] g.has(h) implies g2.has(h) by {
                assert(g2.entries@.dom().contains(h));
            }
            assert forall|h: u64| g2.has(h) && h != hash implies g.has(h) by {
                assert(g2.entries@.dom().contains(h));
            }
            assert(g2.entries@[g2.base].number == bn) by {
                if g.base != ancestor_hash {
                    assert(g.has(g.base));
                }
            }
        }
        Ok(())
    }

    #[verifier::rlimit(100)]
    #[verifier::spinoff_prover]
    proof fn lemma_branch_wf(g: VoteGraph, g2: VoteGraph, hash: u64, number: u64, cvec: Seq<u64>, prev: u64)
        requires
            g.wf(),
            !g.has(hash),
            cvec.len() >= 1,
            forall|i: int| 0 <= i < cvec.len() ==> g.edge_contains(
                #[trigger] cvec[i],
                hash,
                number,
            ),
            forall|i: int, j: int| 0 <= i < j < cvec.len() ==> cvec[i] != cvec[j],
            forall|d: u64| g.edge_contains(d, hash, number) ==> cvec.contains(d),
            prev == g.anc_key(cvec[0]),
            g2.base == g.base,
            g2.votes@ == g.votes@,
            g2.chain_model@ == g.chain_model@,
            g2.heads@ == g.heads@,
            g2.entries@.dom() =~= g.entries@.dom().insert(hash),
            g2.entries@[hash].number == number,
            g2.entries@[hash].ancestors@ == g.anc_of(cvec[0]).subrange(
                g.num(cvec[0]) - number,
                g.anc_of(cvec[0]).len() as int,
            ),
            g2.entries@[hash].descendents@ == cvec,
            g2.entries@[hash].cumulative_vote as nat == g.sum_cum(cvec),
            forall|i: int|
                0 <= i < cvec.len() ==> {
                    let d = #[trigger] cvec[i];
                    &&& g2.entries@[d].number == g.entries@[d].number
                    &&& g2.entries@[d].cumulative_vote == g.entries@[d].cumulative_vote
                    &&& g2.entries@[d].descendents@ == g.entries@[d].descendents@
                    &&& g2.entries@[d].ancestors@ == g.anc_of(d).subrange(0, g.num(d) - number)
                },
            g2.entries@[prev].number == g.entries@[prev].number,
            g2.entries@[prev].ancestors@ == g.entries@[prev].ancestors@,
            g2.entries@[prev].cumulative_vote == g.entries@[prev].cumulative_vote,
            forall|y: u64| #[trigger] g2.desc_of(prev).contains(y) ==> ((g.desc_of(prev).contains(
                y,
            ) && !cvec.contains(y)) || y == hash),
            forall|y: u64| (g.desc_of(prev).contains(y) && !cvec.contains(y)) || y == hash
                ==> #[trigger] g2.desc_of(prev).contains(y),
            forall|i: int, j: int|
                0 <= i < j < g2.desc_of(prev).len() ==> g2.desc_of(prev)[i] != g2.desc_of(prev)[j],
            forall|h: u64| #[trigger] g.has(h) && h != prev && !cvec.contains(h)
                ==> g2.entries@[h] == g.entries@[h],
        ensures
            g2.wf(),
            g2.num(hash) == number,
    {
        let cm = g.chain_model@;
        let bn = g.entries@[g.base].number;
        let first = cvec[0];
        assert(cvec.contains(first));
        assert(g.edge_contains(first, hash, number));
        g.lemma_containing_bottom(hash, number, first);
        assert(g.has(prev)) by {
            assert(g.entry_ok(first));
        }
        assert(g.num(prev) == g.num(first) - g.anc_of(first).len());
        assert(g.num(prev) < number);
        assert(prev != hash);
        assert(!cvec.contains(prev)) by {
            if cvec.contains(prev) {
                let i = choose|i: int| 0 <= i < cvec.len() && cvec[i] == prev;
                assert(g.edge_contains(cvec[i], hash, number));
                assert(number < g.num(prev));
            }
        }
        // every containing node is a child of `prev`
        assert forall|i: int| 0 <= i < cvec.len() implies g.anc_key(#[trigger] cvec[i]) == prev
            && g.desc_of(prev).contains(cvec[i]) && g.num(cvec[i]) > number && g.anc_of(
            cvec[i],
        ).len() >= 1 by {
            g.lemma_containing_share_ancestor(hash, number, first, cvec[i]);
            assert(g.entry_ok(cvec[i]));
        }
        // facts about the block in the chain model
        assert(cm.contains_key(hash) && cm[hash].number == number);
        assert(g2.entries@.contains_key(hash)) by {
            assert(g2.entries@.dom().contains(hash));
        }
        assert forall|h: u64| #[trigger] g.has(h) implies g2.entries@.contains_key(h) by {
            assert(g2.entries@.dom().contains(h));
        }
        assert forall|h: u64| g2.entries@.contains_key(h) && h != hash implies g.has(h) by {
            assert(g2.entries@.dom().contains(h));
        }
        let na = g2.entries@[hash].ancestors@;
        let off0 = g.num(first) - number;
        assert(1 <= off0 < g.anc_of(first).len());
        assert(na.len() == g.anc_of(first).len() - off0);
        assert(na.len() >= 1);
        assert(na.last() == g.anc_of(first).last());
        assert(na.last() == prev);
        // positions of the new entry's ancestors in the chain model
        assert(g.entry_ok(first));
        assert(g.num(prev) >= bn) by {
            assert(g.entry_ok(prev));
            assert(cm[prev].number >= bn);
        }
        assert(number - na.len() == g.num(prev));
        assert forall|k: int| 0 <= k < na.len() implies na[k] == chain_anc(
            cm,
            hash,
            (number - 1 - k) as u64,
        ) by {
            assert(na[k] == g.anc_of(first)[off0 + k]);
            assert(g.anc_of(first)[off0 + k] == chain_anc(
                cm,
                first,
                (g.num(first) - 1 - (off0 + k)) as u64,
            ));
            assert(g.num(first) - 1 - (off0 + k) == number - 1 - k);
            assert(number - 1 - k >= g.num(prev) >= bn);
            crate::chain::lemma_chain_anc_trans(
                cm,
                g.base,
                bn,
                first,
                number,
                (number - 1 - k) as u64,
            ) ;
            assert(hash == chain_anc(cm, first, number)) by {
                assert(g.anc_of(first)[g.num(first) - number - 1] == chain_anc(cm, first, number));
            }
        }
        // structural soundness of every entry
        assert forall|h: u64| g2.entries@.contains_key(h) implies #[trigger] g2.entry_ok(h) by {
            if h == hash {
                assert(g2.anc_of(hash).len() <= number) by {
                    assert(number - na.len() == g.num(prev) >= 0);
                }
                assert(hash != g2.base);
                assert(g2.entries@.contains_key(prev));
                assert(g2.entries@[prev].number == number - na.len());
                assert(g2.desc_of(prev).contains(hash));
                assert forall|k: int| 0 <= k < na.len() - 1 implies !g2.entries@.contains_key(
                    na[k],
                ) by {
                    assert(na[k] == g.anc_of(first)[off0 + k]);
                    assert(off0 + k < g.anc_of(first).len() - 1);
                    assert(!g.has(na[k]));
                    assert(na[k] != hash) by {
                        assert(na[k] == chain_anc(cm, hash, (number - 1 - k) as u64));
                        crate::chain::lemma_chain_anc_props(
                            cm,
                            g.base,
                            bn,
                            hash,
                            (number - 1 - k) as u64,
                        ) ;
                    }
                }
                assert forall|i: int| 0 <= i < g2.desc_of(hash).len() implies {
                    let d = #[trigger] g2.desc_of(hash)[i];
                    &&& g2.entries@.contains_key(d)
                    &&& g2.entries@[d].ancestors@.len() >= 1
                    &&& g2.entries@[d].ancestors@.last() == h
                } by {
                    let d = g2.desc_of(hash)[i];
                    assert(d == cvec[i]);
                    assert(g.edge_contains(d, hash, number));
                    assert(g2.entries@[d].ancestors@ == g.anc_of(d).subrange(
                        0,
                        g.num(d) - number,
                    ));
                    assert(g2.entries@[d].ancestors@.len() == g.num(d) - number >= 1);
                    assert(g2.entries@[d].ancestors@.last() == g.anc_of(d)[g.num(d) - number - 1]);
                }
                assert(g2.entry_ok(hash));
            } else if cvec.contains(h) {
                let i = choose|i: int| 0 <= i < cvec.len() && cvec[i] == h;
                assert(g.edge_contains(h, hash, number));
                assert(g.entry_ok(h));
                let e2 = g2.entries@[h];
                let off = g.num(h) - number;
                assert(1 <= off < g.anc_of(h).len()) by {
                    g.lemma_containing_bottom(hash, number, h);
                }
                assert(e2.ancestors@ == g.anc_of(h).subrange(0, off));
                assert(e2.ancestors@.len() == off);
                assert(e2.ancestors@.last() == g.anc_of(h)[off - 1]);
                assert(e2.ancestors@.last() == hash);
                assert(g2.entries@[hash].number == e2.number - e2.ancestors@.len());
                assert(g2.desc_of(hash).contains(h)) by {
                    assert(g2.desc_of(hash)[i] == h);
                }
                assert(h != g2.base) by {
                    assert(g.anc_of(h).len() >= 1);
                }
                assert forall|k: int| 0 <= k < e2.ancestors@.len() implies e2.ancestors@[k]
                    == chain_anc(g2.chain_model@, h, (e2.number - 1 - k) as u64) by {
                    assert(e2.ancestors@[k] == g.anc_of(h)[k]);
                }
                assert forall|k: int| 0 <= k < e2.ancestors@.len() - 1 implies
                    !g2.entries@.contains_key(e2.ancestors@[k]) by {
                    assert(e2.ancestors@[k] == g.anc_of(h)[k]);
                    assert(k < g.anc_of(h).len() - 1);
                    assert(!g.has(g.anc_of(h)[k]));
                    assert(g.anc_of(h)[k] != hash) by {
                        assert(g.anc_of(h)[k] == chain_anc(cm, h, (g.num(h) - 1 - k) as u64));
                        crate::chain::lemma_chain_anc_props(
                            cm,
                            g.base,
                            bn,
                            h,
                            (g.num(h) - 1 - k) as u64,
                        ) ;
                        assert(g.num(h) - 1 - k > number);
                    }
                }
                assert forall|i2: int| 0 <= i2 < g2.desc_of(h).len() implies {
                    let d = #[trigger] g2.desc_of(h)[i2];
                    &&& g2.entries@.contains_key(d)
                    &&& g2.entries@[d].ancestors@.len() >= 1
                    &&& g2.entries@[d].ancestors@.last() == h
                } by {
                    let d = g2.desc_of(h)[i2];
                    assert(d == g.desc_of(h)[i2]);
                    assert(g.entry_ok(d)) by {
                        assert(g.has(d));
                    }
                    assert(d != prev) by {
                        assert(g.anc_of(d).last() == h);
                        assert(g.num(d) > g.num(h)) by {
                            assert(g.num(d) - g.anc_of(d).len() == g.num(h));
                        }
                        assert(g.num(prev) < number < g.num(h));
                    }
                    assert(!cvec.contains(d)) by {
                        if cvec.contains(d) {
                            let i3 = choose|i3: int| 0 <= i3 < cvec.len() && cvec[i3] == d;
                            assert(g.anc_key(cvec[i3]) == prev);
                            assert(g.anc_of(d).last() == h);
                            assert(h != prev) by {
                                assert(g.num(h) > number > g.num(prev));
                            }
                        }
                    }
                    assert(g.has(d) && d != prev && !cvec.contains(d) ==> g2.entries@[d]
                        == g.entries@[d]);
                    assert(g2.entries@[d] == g.entries@[d]);
                }
                assert(cm.contains_key(h) && cm[h].number == e2.number);
                assert(e2.ancestors@.len() <= e2.number);
                assert(g2.entries@.contains_key(hash));
                assert(g2.entries@[hash].descendents@.contains(h));
                assert(forall|i2: int, j2: int|
                    0 <= i2 < j2 < e2.descendents@.len() ==> e2.descendents@[i2]
                        != e2.descendents@[j2]);
                assert(h != g2.base ==> {
                    let a2 = e2.ancestors@.last();
                    &&& g2.entries@.contains_key(a2)
                    &&& g2.entries@[a2].number == e2.number - e2.ancestors@.len()
                    &&& g2.entries@[a2].descendents@.contains(h)
                });
                assert(forall|k: int|
                    0 <= k < e2.ancestors@.len() ==> e2.ancestors@[k] == chain_anc(
                        g2.chain_model@,
                        h,
                        (e2.number - 1 - k) as u64,
                    ));
                assert(forall|k: int|
                    0 <= k < e2.ancestors@.len() - 1 ==> !g2.entries@.contains_key(
                        e2.ancestors@[k],
                    ));
                assert forall|i2: int| 0 <= i2 < e2.descendents@.len() implies {
                    let d = #[trigger] e2.descendents@[i2];
                    &&& g2.entries@.contains_key(d)
                    &&& g2.entries@[d].ancestors@.len() >= 1
                    &&& g2.entries@[d].ancestors@.last() == h
                } by {
                    assert(e2.descendents@[i2] == g2.desc_of(h)[i2]);
                }
                assert(g2.entry_ok(h));
            } else if h == prev {
                assert(g.entry_ok(prev));
                let e2 = g2.entries@[prev];
                assert(e2.number == g.entries@[prev].number);
                assert(e2.ancestors@ == g.entries@[prev].ancestors@);
                if prev != g.base {
                    let ah = e2.ancestors@.last();
                    assert(g.has(ah)) by {
                        assert(g.entry_ok(prev));
                    }
                    assert(ah != prev) by {
                        assert(g.entries@[ah].number < g.num(prev));
                    }
                    assert(!cvec.contains(ah)) by {
                        if cvec.contains(ah) {
                            let i3 = choose|i3: int| 0 <= i3 < cvec.len() && cvec[i3] == ah;
                            assert(g.num(cvec[i3]) > number);
                            assert(g.entries@[ah].number < g.num(prev) < number);
                        }
                    }
                    assert(g2.entries@[ah] == g.entries@[ah]);
                    assert(g2.desc_of(ah).contains(prev));
                }
                assert forall|i2: int| 0 <= i2 < g2.desc_of(prev).len() implies {
                    let d = #[trigger] g2.desc_of(prev)[i2];
                    &&& g2.entries@.contains_key(d)
                    &&& g2.entries@[d].ancestors@.len() >= 1
                    &&& g2.entries@[d].ancestors@.last() == prev
                } by {
                    let d = g2.desc_of(prev)[i2];
                    assert(g2.desc_of(prev).contains(d));
                    if d == hash {
                        assert(g2.entries@[hash].ancestors@.last() == prev);
                    } else {
                        assert(g.desc_of(prev).contains(d) && !cvec.contains(d));
                        assert(g.has(d)) by {
                            assert(g.entry_ok(prev));
                            let i3 = choose|i3: int|
                                0 <= i3 < g.desc_of(prev).len() && g.desc_of(prev)[i3] == d;
                        }
                        assert(d != prev) by {
                            assert(g.entry_ok(d));
                            assert(g.anc_of(d).last() == prev);
                            assert(g.entries@[prev].number < g.num(d));
                        }
                        assert(g2.entries@[d] == g.entries@[d]);
                        assert(g.entry_ok(d));
                    }
                }
                assert(forall|k: int|
                    0 <= k < e2.ancestors@.len() ==> e2.ancestors@[k] == chain_anc(
                        g2.chain_model@,
                        prev,
                        (e2.number - 1 - k) as u64,
                    ));
                assert forall|k: int| 0 <= k < e2.ancestors@.len() - 1 implies
                    !g2.entries@.contains_key(e2.ancestors@[k]) by {
                    assert(e2.ancestors@[k] == g.anc_of(prev)[k]);
                    assert(!g.has(g.anc_of(prev)[k]));
                    if e2.ancestors@[k] == hash {
                        let n_k = (e2.number - 1 - k) as u64;
                        assert(g.anc_of(prev)[k] == chain_anc(cm, prev, n_k));
                        assert(g.num(prev) - g.anc_of(prev).len() >= bn) by {
                            assert(g.has(g.anc_of(prev).last()));
                            assert(g.entry_ok(g.anc_of(prev).last()));
                            assert(cm[g.anc_of(prev).last()].number >= bn);
                        }
                        crate::chain::lemma_chain_anc_props(cm, g.base, bn, prev, n_k) ;
                        assert(cm[hash].number == n_k);
                        assert(n_k < g.num(prev) < number);
                    }
                }
                assert forall|i2: int| 0 <= i2 < e2.descendents@.len() implies {
                    let d = #[trigger] e2.descendents@[i2];
                    &&& g2.entries@.contains_key(d)
                    &&& g2.entries@[d].ancestors@.len() >= 1
                    &&& g2.entries@[d].ancestors@.last() == prev
                } by {
                    assert(e2.descendents@[i2] == g2.desc_of(prev)[i2]);
                }
                assert forall|i2: int, j2: int| 0 <= i2 < j2 < e2.descendents@.len() implies
                    e2.descendents@[i2] != e2.descendents@[j2] by {
                    assert(e2.descendents@[i2] == g2.desc_of(prev)[i2]);
                    assert(e2.descendents@[j2] == g2.desc_of(prev)[j2]);
                }
                assert(cm.contains_key(prev) && cm[prev].number == e2.number);
                assert(e2.ancestors@.len() <= e2.number);
                assert(prev == g2.base <==> e2.ancestors@.len() == 0);
                assert(g2.entry_ok(prev));
            } else {
                assert(g.has(h));
                assert(g.entry_ok(h));
                assert(g2.entries@[h] == g.entries@[h]);
                let e2 = g2.entries@[h];
                if h != g.base {
                    let ah = e2.ancestors@.last();
                    assert(g.has(ah));
                    assert(g2.entries@.contains_key(ah));
                    if ah == prev {
                        assert(g.desc_of(prev).contains(h));
                        assert(!cvec.contains(h));
                        assert(g2.desc_of(prev).contains(h));
                    } else if cvec.contains(ah) {
                        let i3 = choose|i3: int| 0 <= i3 < cvec.len() && cvec[i3] == ah;
                        assert(g2.entries@[ah].descendents@ == g.entries@[ah].descendents@);
                        assert(g2.entries@[ah].number == g.entries@[ah].number);
                        assert(g2.desc_of(ah).contains(h));
                    } else {
                        assert(g2.entries@[ah] == g.entries@[ah]);
                        assert(g2.desc_of(ah).contains(h));
                    }
                }
                assert forall|k: int| 0 <= k < e2.ancestors@.len() - 1 implies
                    !g2.entries@.contains_key(e2.ancestors@[k]) by {
                    assert(!g.has(e2.ancestors@[k]));
                    if e2.ancestors@[k] == hash {
                        let n_k = (e2.number - 1 - k) as u64;
                        assert(e2.ancestors@[k] == chain_anc(cm, h, n_k));
                        assert(g.num(h) - g.anc_of(h).len() >= bn) by {
                            assert(g.has(g.anc_of(h).last()));
                            assert(g.entry_ok(g.anc_of(h).last()));
                            assert(cm[g.anc_of(h).last()].number >= bn);
                        }
                        crate::chain::lemma_chain_anc_props(cm, g.base, bn, h, n_k) ;
                        assert(n_k == number);
                        assert(g.edge_contains(h, hash, number));
                        assert(cvec.contains(h));
                    }
                }
                assert forall|i2: int| 0 <= i2 < g2.desc_of(h).len() implies {
                    let d = #[trigger] g2.desc_of(h)[i2];
                    &&& g2.entries@.contains_key(d)
                    &&& g2.entries@[d].ancestors@.len() >= 1
                    &&& g2.entries@[d].ancestors@.last() == h
                } by {
                    let d = g2.desc_of(h)[i2];
                    assert(d == g.desc_of(h)[i2]);
                    assert(g.has(d)) by {
                        assert(g.entry_ok(h));
                    }
                    assert(g.anc_of(d).last() == h);
                    if cvec.contains(d) {
                        let i3 = choose|i3: int| 0 <= i3 < cvec.len() && cvec[i3] == d;
                        assert(g.anc_key(cvec[i3]) == prev);
                        assert(h == prev);
                    } else if d != prev {
                        assert(g2.entries@[d] == g.entries@[d]);
                    } else {
                        assert(g.anc_of(prev).last() == h);
                    }
                }
                assert(forall|k: int|
                    0 <= k < e2.ancestors@.len() ==> e2.ancestors@[k] == chain_anc(
                        g2.chain_model@,
                        h,
                        (e2.number - 1 - k) as u64,
                    ));
                assert forall|i2: int| 0 <= i2 < e2.descendents@.len() implies {
                    let d = #[trigger] e2.descendents@[i2];
                    &&& g2.entries@.contains_key(d)
                    &&& g2.entries@[d].ancestors@.len() >= 1
                    &&& g2.entries@[d].ancestors@.last() == h
                } by {
                    assert(e2.descendents@[i2] == g2.desc_of(h)[i2]);
                }
                assert(forall|i2: int, j2: int|
                    0 <= i2 < j2 < e2.descendents@.len() ==> e2.descendents@[i2]
                        != e2.descendents@[j2]);
                assert(cm.contains_key(h) && cm[h].number == e2.number);
                assert(e2.ancestors@.len() <= e2.number);
                assert(h == g2.base <==> e2.ancestors@.len() == 0);
                assert(h != g2.base ==> {
                    let a2 = e2.ancestors@.last();
                    &&& g2.entries@.contains_key(a2)
                    &&& g2.entries@[a2].number == e2.number - e2.ancestors@.len()
                    &&& g2.entries@[a2].descendents@.contains(h)
                });
                assert(g2.entry_ok(h));
            }
        }
        // heads
        assert forall|h: u64| g2.entries@.contains_key(h) implies #[trigger] g2.head_ok(h) by {
            if h == hash {
                assert(!g2.heads@.contains(hash)) by {
                    if g.heads@.contains(hash) {
                        let k = choose|k: int| 0 <= k < g.heads@.len() && g.heads@[k] == hash;
                        assert(g.has(g.heads@[k]));
                    }
                }
                assert(g2.desc_of(hash).len() >= 1);
            } else {
                assert(g.has(h));
                assert(g.head_ok(h));
                if h == prev {
                    assert(g2.desc_of(prev).contains(hash));
                    assert(g2.desc_of(prev).len() > 0) by {
                        let k = choose|k: int|
                            0 <= k < g2.desc_of(prev).len() && g2.desc_of(prev)[k] == hash;
                    }
                    assert(g.desc_of(prev).contains(cvec[0])) by {
                        assert(g.anc_key(cvec[0]) == prev);
                    }
                    assert(g.desc_of(prev).len() > 0) by {
                        let k = choose|k: int|
                            0 <= k < g.desc_of(prev).len() && g.desc_of(prev)[k] == cvec[0];
                    }
                    assert(!g.heads@.contains(prev));
                } else if cvec.contains(h) {
                    let i = choose|i: int| 0 <= i < cvec.len() && cvec[i] == h;
                    assert(g2.desc_of(h) == g.desc_of(h));
                } else {
                    assert(g2.entries@[h] == g.entries@[h]);
                }
            }
        }
        // sums
        assert forall|x: u64| g.has(x) implies g2.cum(x) == g.cum(x) && g2.vote_on(x) == g.vote_on(
            x,
        ) by {
            if x == prev {
            } else if cvec.contains(x) {
                let i = choose|i: int| 0 <= i < cvec.len() && cvec[i] == x;
            } else {
                assert(g2.entries@[x] == g.entries@[x]);
            }
        }
        assert forall|h: u64| g2.entries@.contains_key(h) implies #[trigger] g2.sums_ok_at(h) by {
            if h == hash {
                assert(g.votes@.contains_key(hash) ==> g.has(hash));
                assert(g2.vote_on(hash) == 0);
                assert forall|i: int| 0 <= i < cvec.len() implies g.cum(#[trigger] cvec[i])
                    == g2.cum(cvec[i]) by {
                    assert(g.has(cvec[i]));
                }
                g.lemma_sum_cum_congruent(g2, cvec);
                assert(g2.sum_cum(cvec) == g.sum_cum(cvec));
            } else if h == prev {
                assert(g.sums_ok_at(prev));
                assert(g.entry_ok(prev));
                assert(g2.desc_of(prev).contains(hash));
                let ilast = choose|k: int|
                    0 <= k < g2.desc_of(prev).len() && g2.desc_of(prev)[k] == hash;
                g2.lemma_sum_cum_remove(g2.desc_of(prev), ilast);
                Self::lemma_seq_remove_facts(g2.desc_of(prev), ilast);
                let kept2 = g2.desc_of(prev).remove(ilast);
                assert forall|p: int| 0 <= p < cvec.len() implies g.desc_of(prev).contains(
                    #[trigger] cvec[p],
                ) by {
                    assert(g.anc_key(cvec[p]) == prev);
                }
                assert forall|y: u64| #[trigger] kept2.contains(y) implies (g.desc_of(
                    prev,
                ).contains(y) && !cvec.contains(y)) by {
                    assert(g2.desc_of(prev).contains(y));
                    assert(y != hash);
                }
                assert forall|y: u64| g.desc_of(prev).contains(y) && !cvec.contains(y) implies
                    #[trigger] kept2.contains(y) by {
                    assert(g2.desc_of(prev).contains(y));
                    assert(y != hash) by {
                        if y == hash {
                            let k = choose|k: int|
                                0 <= k < g.desc_of(prev).len() && g.desc_of(prev)[k] == y;
                            assert(g.has(g.desc_of(prev)[k])) by {
                                assert(g.entry_ok(prev));
                            }
                        }
                    }
                }
                g.lemma_sum_cum_split(g.desc_of(prev), cvec, kept2);
                assert forall|i: int| 0 <= i < kept2.len() implies g.cum(#[trigger] kept2[i])
                    == g2.cum(kept2[i]) by {
                    assert(kept2.contains(kept2[i]));
                    assert(g.desc_of(prev).contains(kept2[i]));
                    let k = choose|k: int|
                        0 <= k < g.desc_of(prev).len() && g.desc_of(prev)[k] == kept2[i];
                    assert(g.has(g.desc_of(prev)[k])) by {
                        assert(g.entry_ok(prev));
                    }
                }
                g.lemma_sum_cum_congruent(g2, kept2);
                assert(g2.sum_cum(g2.desc_of(prev)) == g2.cum(hash) + g2.sum_cum(kept2));
                assert(g2.cum(hash) as nat == g.sum_cum(cvec));
                assert(g2.sum_cum(g2.desc_of(prev)) == g.sum_cum(g.desc_of(prev)));
            } else {
                assert(g.has(h));
                assert(g.sums_ok_at(h));
                assert(g.entry_ok(h));
                assert(g2.desc_of(h) == g.desc_of(h)) by {
                    if cvec.contains(h) {
                        let i = choose|i: int| 0 <= i < cvec.len() && cvec[i] == h;
                    } else {
                        assert(g2.entries@[h] == g.entries@[h]);
                    }
                }
                assert forall|i: int| 0 <= i < g.desc_of(h).len() implies g.cum(
                    #[trigger] g.desc_of(h)[i],
                ) == g2.cum(g.desc_of(h)[i]) by {
                    assert(g.has(g.desc_of(h)[i]));
                }
                g.lemma_sum_cum_congruent(g2, g.desc_of(h));
            }
        }
        // remaining invariant plumbing
        assert(g2.entries@.contains_key(g2.base));
        assert(g2.entries@[g2.base].number == bn) by {
            if g.base == prev {
            } else {
                assert(g.has(g.base));
                assert(!cvec.contains(g.base)) by {
                    if cvec.contains(g.base) {
                        let i = choose|i: int| 0 <= i < cvec.len() && cvec[i] == g.base;
                        assert(g.anc_of(cvec[i]).len() >= 1);
                        assert(g.entry_ok(g.base));
                    }
                }
                assert(g2.entries@[g.base] == g.entries@[g.base]);
            }
        }
        assert forall|h: u64| #[trigger] g2.votes@.contains_key(h) implies
            g2.entries@.contains_key(h) by {
            assert(g.has(h));
        }
        assert forall|i: int| 0 <= i < g2.heads@.len() implies g2.entries@.contains_key(
            #[trigger] g2.heads@[i],
        ) by {
            assert(g.has(g.heads@[i]));
        }
    }

    /// Introduce a branch at the given block: split every listed entry's
    /// ancestor-edge there, and collect them under a new vote-node.
    /// `descendents` must be exactly the entries whose edges hold the block.
    pub fn introduce_branch(
        &mut self,
        descendents: Vec<u64>,
        ancestor_hash: u64,
        ancestor_number: u64,
    )
        requires
            old(self).wf(),
            !old(self).has(ancestor_hash),
            descendents@.len() >= 1,
            forall|i: int| 0 <= i < descendents@.len() ==> old(self).edge_contains(
                #[trigger] descendents@[i],
                ancestor_hash,
                ancestor_number,
            ),
            forall|i: int, j: int| 0 <= i < j < descendents@.len() ==> descendents@[i]
                != descendents@[j],
            forall|d: u64| old(self).edge_contains(d, ancestor_hash, ancestor_number)
                ==> descendents@.contains(d),
        ensures
            final(self).wf(),
            final(self).has(ancestor_hash),
            final(self).num(ancestor_hash) == ancestor_number,
            final(self).cum(ancestor_hash) == old(self).sum_cum(descendents@),
            final(self).votes@ == old(self).votes@,
            final(self).chain_model@ == old(self).chain_model@,
            final(self).base == old(self).base,
            final(self).heads@ == old(self).heads@,
            final(self).entries@[final(self).base].number == old(self).entries@[old(
                self,
            ).base].number,
            forall|h: u64| final(self).has(h) <==> old(self).has(h) || h == ancestor_hash,
            forall|h: u64| #[trigger] old(self).has(h) ==> final(self).entries@[h].number == old(
                self,
            ).entries@[h].number && final(self).entries@[h].cumulative_vote == old(
                self,
            ).entries@[h].cumulative_vote,
    {
        let ghost g = *old(self);
        let ghost cvec = descendents@;
        proof {
            assert(cvec.contains(cvec[0]));
            assert forall|i: int| 0 <= i < cvec.len() implies g.anc_key(#[trigger] cvec[i])
                == g.anc_key(cvec[0]) && g.desc_of(g.anc_key(cvec[0])).contains(cvec[i])
                && ancestor_number < g.num(cvec[i]) && g.anc_of(cvec[i]).len() >= 1 && g.has(
                cvec[i],
            ) by {
                g.lemma_containing_share_ancestor(
                    ancestor_hash,
                    ancestor_number,
                    cvec[0],
                    cvec[i],
                );
                assert(g.entry_ok(cvec[i]));
            }
            g.lemma_containing_bottom(ancestor_hash, ancestor_number, cvec[0]);
            assert(g.has(g.anc_key(cvec[0]))) by {
                assert(g.entry_ok(cvec[0]));
            }
        }
        let first = descendents[0];
        let fe = self.entries.get(&first).unwrap();
        let prev_ancestor = fe.ancestors[fe.ancestors.len() - 1];
        proof {
            assert(prev_ancestor == g.anc_key(cvec[0]));
            assert(g.num(prev_ancestor) < ancestor_number);
            assert(!cvec.contains(prev_ancestor)) by {
                if cvec.contains(prev_ancestor) {
                    let i = choose|i: int| 0 <= i < cvec.len() && cvec[i] == prev_ancestor;
                    assert(ancestor_number < g.num(cvec[i]));
                }
            }
        }
        let mut total: u64 = 0;
        let mut new_ancestors: Vec<u64> = Vec::new();
        let mut j: usize = 0;
        while j < descendents.len()
            invariant
                g.wf(),
                !g.has(ancestor_hash),
                cvec == descendents@,
                cvec.len() >= 1,
                j <= cvec.len(),
                self.base == g.base,
                self.heads@ == g.heads@,
                self.chain_model@ == g.chain_model@,
                self.votes@ == g.votes@,
                self.entries@.dom() =~= g.entries@.dom(),
                forall|i: int| 0 <= i < cvec.len() ==> g.edge_contains(
                    #[trigger] cvec[i],
                    ancestor_hash,
                    ancestor_number,
                ),
                forall|i: int, j2: int| 0 <= i < j2 < cvec.len() ==> cvec[i] != cvec[j2],
                forall|i: int| 0 <= i < cvec.len() ==> g.anc_key(#[trigger] cvec[i])
                    == prev_ancestor && g.desc_of(prev_ancestor).contains(cvec[i])
                    && ancestor_number < g.num(cvec[i]) && g.anc_of(cvec[i]).len() >= 1 && g.has(
                    cvec[i],
                ),
                g.has(prev_ancestor),
                !cvec.contains(prev_ancestor),
                prev_ancestor == g.anc_key(cvec[0]),
                forall|k: int|
                    0 <= k < j ==> {
                        let d = #[trigger] cvec[k];
                        &&& self.entries@[d].number == g.entries@[d].number
                        &&& self.entries@[d].cumulative_vote == g.entries@[d].cumulative_vote
                        &&& self.entries@[d].descendents@ == g.entries@[d].descendents@
                        &&& self.entries@[d].ancestors@ == g.anc_of(d).subrange(
                            0,
                            g.num(d) - ancestor_number,
                        )
                    },
                forall|h: u64| #[trigger] g.has(h) && !cvec.subrange(0, j as int).contains(h)
                    ==> self.entries@[h] == g.entries@[h],
                total as nat == g.sum_cum(cvec.subrange(0, j as int)),
                j >= 1 ==> new_ancestors@ == g.anc_of(cvec[0]).subrange(
                    g.num(cvec[0]) - ancestor_number,
                    g.anc_of(cvec[0]).len() as int,
                ),
            decreases cvec.len() - j,
        {
            let d = descendents[j];
            proof {
                assert(g.has(d));
                assert(!cvec.subrange(0, j as int).contains(d)) by {
                    if cvec.subrange(0, j as int).contains(d) {
                        let k = choose|k: int| 0 <= k < j && cvec.subrange(0, j as int)[k] == d;
                        assert(cvec[k] == cvec[j as int]);
                    }
                }
                assert(self.entries@[d] == g.entries@[d]);
                assert(self.entries@.dom().contains(d));
                assert(self.entries@.contains_key(d));
            }
            let ghost pre = *self;
            let mut e = self.entries.remove(&d).unwrap();
            let offset = e.number - ancestor_number;
            let la = e.ancestors.len();
            proof {
                g.lemma_containing_bottom(ancestor_hash, ancestor_number, d);
                assert(offset <= la);
                assert(offset as usize as int == offset as int);
            }
            let low = e.ancestors.split_off(#[verifier::truncate] (offset as usize));
            if j == 0 {
                new_ancestors = low;
            }
            proof {
                // the running total stays within the parent's cumulative vote
                assert(cvec.subrange(0, j + 1) =~= cvec.subrange(0, j as int).push(d));
                g.lemma_sum_cum_push(cvec.subrange(0, j as int), d);
                assert(g.entry_ok(prev_ancestor));
                assert forall|p: int| 0 <= p < cvec.subrange(0, j + 1).len() implies g.desc_of(
                    prev_ancestor,
                ).contains(#[trigger] cvec.subrange(0, j + 1)[p]) by {
                    assert(cvec.subrange(0, j + 1)[p] == cvec[p]);
                }
                g.lemma_sum_cum_le_subset(cvec.subrange(0, j + 1), g.desc_of(prev_ancestor));
                assert(g.sums_ok_at(prev_ancestor));
                assert(g.sum_cum(cvec.subrange(0, j + 1)) <= g.cum(prev_ancestor));
                assert(e.cumulative_vote == g.entries@[d].cumulative_vote);
            }
            total = total + e.cumulative_vote;
            self.entries.insert(d, e);
            j = j + 1;
            proof {
                assert forall|k: int| 0 <= k < j implies {
                    let d2 = #[trigger] cvec[k];
                    &&& self.entries@[d2].number == g.entries@[d2].number
                    &&& self.entries@[d2].cumulative_vote == g.entries@[d2].cumulative_vote
                    &&& self.entries@[d2].descendents@ == g.entries@[d2].descendents@
                    &&& self.entries@[d2].ancestors@ == g.anc_of(d2).subrange(
                        0,
                        g.num(d2) - ancestor_number,
                    )
                } by {
                    if k < j - 1 {
                        assert(cvec[k] != d);
                        assert(self.entries@[cvec[k]] == pre.entries@[cvec[k]]);
                    } else {
                        assert(cvec[k] == d);
                        assert(self.entries@[d].ancestors@ == g.anc_of(d).subrange(0, offset as int));
                    }
                }

                assert forall|h: u64| #[trigger] g.has(h) && !cvec.subrange(
                    0,
                    j as int,
                ).contains(h) implies self.entries@[h] == g.entries@[h] by {
                    assert(!cvec.subrange(0, j - 1).contains(h)) by {
                        let sub = cvec.subrange(0, j - 1);
                        if sub.contains(h) {
                            let k = choose|k: int| 0 <= k < sub.len() && sub[k] == h;
                            assert(cvec.subrange(0, j as int)[k] == h);
                        }
                    }
                    assert(h != d) by {
                        assert(cvec.subrange(0, j as int)[j - 1] == d);
                    }
                    assert(pre.entries@[h] == g.entries@[h]);
                }
            }
        }
        proof {
            assert(cvec.subrange(0, cvec.len() as int) =~= cvec);
            assert(g.has(prev_ancestor) && !cvec.contains(prev_ancestor));
            assert(self.entries@[prev_ancestor] == g.entries@[prev_ancestor]);
            assert(self.entries@.dom().contains(prev_ancestor));
        }
        let mut pa = self.entries.remove(&prev_ancestor).unwrap();
        let ghost pa_desc = pa.descendents@;
        proof {
            assert(pa.descendents@ == g.desc_of(prev_ancestor));
            assert(g.entry_ok(prev_ancestor));
            assert forall|p: int, q: int| 0 <= p < q < pa_desc.len() implies pa_desc[p]
                != pa_desc[q] by {
                assert(pa_desc[p] == g.desc_of(prev_ancestor)[p]);
                assert(pa_desc[q] == g.desc_of(prev_ancestor)[q]);
            }
            assert forall|p: int| 0 <= p < pa_desc.len() implies g.has(#[trigger] pa_desc[p]) by {
                assert(pa_desc[p] == g.desc_of(prev_ancestor)[p]);
            }
        }
        let mut kept: Vec<u64> = Vec::new();
        let mut k2: usize = 0;
        while k2 < pa.descendents.len()
            invariant
                cvec == descendents@,
                k2 <= pa_desc.len(),
                pa.descendents@ == pa_desc,
                forall|p: int, q: int| 0 <= p < q < pa_desc.len() ==> pa_desc[p] != pa_desc[q],
                forall|y: u64| #[trigger] kept@.contains(y) ==> (pa_desc.subrange(
                    0,
                    k2 as int,
                ).contains(y) && !cvec.contains(y)),
                forall|y: u64| pa_desc.subrange(0, k2 as int).contains(y) && !cvec.contains(y)
                    ==> #[trigger] kept@.contains(y),
                forall|p: int, q: int| 0 <= p < q < kept@.len() ==> kept@[p] != kept@[q],
            decreases pa_desc.len() - k2,
        {
            let y = pa.descendents[k2];
            let ghost pre_kept = kept@;
            let ghost next = k2 as int + 1;
            let keep_it = !vec_has(&descendents, y);
            if keep_it {
                proof {
                    assert(!kept@.contains(y)) by {
                        if kept@.contains(y) {
                            assert(pa_desc.subrange(0, k2 as int).contains(y));
                            let sub = pa_desc.subrange(0, k2 as int);
                            let p = choose|p: int| 0 <= p < sub.len() && sub[p] == y;
                            assert(pa_desc[p] == pa_desc[k2 as int]);
                        }
                    }
                }
                kept.push(y);
                proof {
                    assert(kept@ =~= pre_kept.push(y));
                    assert forall|z: u64| pre_kept.contains(z) implies kept@.contains(z) by {
                        let p = choose|p: int| 0 <= p < pre_kept.len() && pre_kept[p] == z;
                        assert(kept@[p] == z);
                    }
                    assert(kept@[kept@.len() - 1] == y);
                    assert forall|z: u64| pa_desc.subrange(0, next).contains(z) && !cvec.contains(
                        z,
                    ) implies kept@.contains(z) by {
                        let sub = pa_desc.subrange(0, next);
                        let p = choose|p: int| 0 <= p < sub.len() && sub[p] == z;
                        if p < next - 1 {
                            assert(pa_desc.subrange(0, k2 as int).contains(z)) by {
                                assert(pa_desc.subrange(0, k2 as int)[p] == z);
                            }
                            assert(pre_kept.contains(z));
                        } else {
                            assert(z == pa_desc[k2 as int]);
                        }
                    }
                    assert forall|z: u64| #[trigger] kept@.contains(z) implies (pa_desc.subrange(
                        0,
                        next,
                    ).contains(z) && !cvec.contains(z)) by {
                        if pre_kept.contains(z) {
                            assert(pa_desc.subrange(0, k2 as int).contains(z));
                            let sub1 = pa_desc.subrange(0, k2 as int);
                            let p = choose|p: int| 0 <= p < sub1.len() && sub1[p] == z;
                            assert(pa_desc.subrange(0, next)[p] == z);
                        } else {
                            let q = choose|q: int| 0 <= q < kept@.len() && kept@[q] == z;
                            assert(q == kept@.len() - 1) by {
                                if q < kept@.len() - 1 {
                                    assert(pre_kept[q] == z);
                                }
                            }
                            assert(z == y);
                            assert(pa_desc.subrange(0, next)[next - 1] == pa_desc[k2 as int]);
                        }
                    }
                }
            } else {
                proof {
                    assert(cvec.contains(y));
                    assert forall|z: u64| pa_desc.subrange(0, next).contains(z) && !cvec.contains(
                        z,
                    ) implies kept@.contains(z) by {
                        let sub = pa_desc.subrange(0, next);
                        let p = choose|p: int| 0 <= p < sub.len() && sub[p] == z;
                        if p < next - 1 {
                            assert(pa_desc.subrange(0, k2 as int).contains(z)) by {
                                assert(pa_desc.subrange(0, k2 as int)[p] == z);
                            }
                        } else {
                            assert(z == pa_desc[k2 as int]);
                            assert(z == y);
                        }
                    }
                    assert forall|z: u64| #[trigger] kept@.contains(z) implies (pa_desc.subrange(
                        0,
                        next,
                    ).contains(z) && !cvec.contains(z)) by {
                        assert(pa_desc.subrange(0, k2 as int).contains(z));
                        let sub1 = pa_desc.subrange(0, k2 as int);
                        let p = choose|p: int| 0 <= p < sub1.len() && sub1[p] == z;
                        assert(pa_desc.subrange(0, next)[p] == z);
                    }
                }
            }
            k2 = k2 + 1;
        }
        proof {
            assert(pa_desc.subrange(0, pa_desc.len() as int) =~= pa_desc);
        }
        pa.descendents = kept;
        pa.descendents.push(ancestor_hash);
        self.entries.insert(prev_ancestor, pa);
        self.entries.insert(
            ancestor_hash,
            Entry {
                number: ancestor_number,
                ancestors: new_ancestors,
                descendents,
                cumulative_vote: total,
            },
        );
        proof {
            let g2 = *self;
            assert(g2.entries@.dom() =~= g.entries@.dom().insert(ancestor_hash));
            assert(g2.entries@[ancestor_hash].descendents@ == cvec);
            assert(g2.entries@[ancestor_hash].cumulative_vote as nat == g.sum_cum(cvec));
            assert(ancestor_hash != prev_ancestor);
            assert forall|y: u64| #[trigger] g2.desc_of(prev_ancestor).contains(y) implies ((
            g.desc_of(prev_ancestor).contains(y) && !cvec.contains(y)) || y == ancestor_hash) by {
                let p = choose|p: int|
                    0 <= p < g2.desc_of(prev_ancestor).len() && g2.desc_of(prev_ancestor)[p] == y;
                if p < g2.desc_of(prev_ancestor).len() - 1 {
                    assert(kept@[p] == y);
                    assert(kept@.contains(y));
                }
            }
            assert forall|y: u64| ((g.desc_of(prev_ancestor).contains(y) && !cvec.contains(y))
                || y == ancestor_hash) implies #[trigger] g2.desc_of(prev_ancestor).contains(
                y,
            ) by {
                if y == ancestor_hash {
                    assert(g2.desc_of(prev_ancestor)[g2.desc_of(prev_ancestor).len() - 1] == y);
                } else {
                    assert(kept@.contains(y));
                    let p = choose|p: int| 0 <= p < kept@.len() && kept@[p] == y;
                    assert(g2.desc_of(prev_ancestor)[p] == y);
                }
            }
            assert forall|p: int, q: int| 0 <= p < q < g2.desc_of(prev_ancestor).len() implies
                g2.desc_of(prev_ancestor)[p] != g2.desc_of(prev_ancestor)[q] by {
                if q == g2.desc_of(prev_ancestor).len() - 1 {
                    assert(g2.desc_of(prev_ancestor)[p] == kept@[p]);
                    assert(kept@.contains(kept@[p]));
                    assert(pa_desc.contains(kept@[p]));
                    let pp = choose|pp: int| 0 <= pp < pa_desc.len() && pa_desc[pp] == kept@[p];
                    assert(g.has(pa_desc[pp]));
                } else {
                    assert(g2.desc_of(prev_ancestor)[p] == kept@[p] && g2.desc_of(prev_ancestor)[q]
                        == kept@[q]);
                }
            }
            assert forall|h: u64| #[trigger] g.has(h) && h != prev_ancestor && !cvec.contains(h)
                implies g2.entries@[h] == g.entries@[h] by {
                assert(h != ancestor_hash);
            }
            VoteGraph::lemma_branch_wf(g, g2, ancestor_hash, ancestor_number, cvec, prev_ancestor);
            assert forall|h: u64| #[trigger] g.has(h) implies g2.has(h) by {
                assert(g2.entries@.dom().contains(h));
            }
            assert forall|h: u64| g2.has(h) && h != ancestor_hash implies g.has(h) by {
                assert(g2.entries@.dom().contains(h));
            }
            assert forall|h: u64| #[trigger] g.has(h) implies g2.entries@[h].number
                == g.entries@[h].number && g2.entries@[h].cumulative_vote
                == g.entries@[h].cumulative_vote by {
                if h == prev_ancestor {
                } else if cvec.contains(h) {
                    let i = choose|i: int| 0 <= i < cvec.len() && cvec[i] == h;
                } else {
                    assert(g2.entries@[h] == g.entries@[h]);
                }
            }
            assert(g2.entries@[g2.base].number == g.entries@[g.base].number) by {
                assert(g.has(g.base));
            }
        }
    }

    proof fn lemma_same_structure_wf(gs: VoteGraph, g2: VoteGraph)
        requires
            gs.wf(),
            g2.base == gs.base,
            g2.chain_model@ == gs.chain_model@,
            g2.heads@ == gs.heads@,
            g2.entries@.dom() =~= gs.entries@.dom(),
            forall|x: u64| #[trigger] gs.has(x) ==> g2.entries@[x].number == gs.entries@[x].number
                && g2.entries@[x].ancestors@ == gs.entries@[x].ancestors@
                && g2.entries@[x].descendents@ == gs.entries@[x].descendents@,
            forall|h: u64| gs.has(h) ==> #[trigger] g2.sums_ok_at(h),
            forall|h: u64| #[trigger] g2.votes@.contains_key(h) ==> gs.entries@.contains_key(h),
        ensures
            g2.wf(),
    {
        assert forall|h: u64| g2.entries@.contains_key(h) implies #[trigger] g2.entry_ok(h) by {
            assert(gs.has(h)) by {
                assert(g2.entries@.dom().contains(h));
            }
            assert(gs.entry_ok(h));
            let e2 = g2.entries@[h];
            assert(e2.number == gs.entries@[h].number);
            assert(e2.ancestors@ == gs.entries@[h].ancestors@);
            assert(e2.descendents@ == gs.entries@[h].descendents@);
            if h != gs.base {
                let ah = e2.ancestors@.last();
                assert(gs.has(ah));
                assert(g2.entries@.contains_key(ah)) by {
                    assert(g2.entries@.dom().contains(ah));
                }
                assert(g2.entries@[ah].number == gs.entries@[ah].number);
                assert(g2.entries@[ah].descendents@ == gs.entries@[ah].descendents@);
            }
            assert(forall|k: int|
                0 <= k < e2.ancestors@.len() ==> e2.ancestors@[k] == chain_anc(
                    g2.chain_model@,
                    h,
                    (e2.number - 1 - k) as u64,
                ));
            assert forall|k: int| 0 <= k < e2.ancestors@.len() - 1 implies
                !g2.entries@.contains_key(e2.ancestors@[k]) by {
                assert(!gs.has(e2.ancestors@[k]));
                if g2.entries@.contains_key(e2.ancestors@[k]) {
                    assert(g2.entries@.dom().contains(e2.ancestors@[k]));
                }
            }
            assert forall|i: int| 0 <= i < e2.descendents@.len() implies {
                let d = #[trigger] e2.descendents@[i];
                &&& g2.entries@.contains_key(d)
                &&& g2.entries@[d].ancestors@.len() >= 1
                &&& g2.entries@[d].ancestors@.last() == h
            } by {
                let d = e2.descendents@[i];
                assert(d == gs.desc_of(h)[i]);
                assert(gs.has(d));
                assert(g2.entries@.dom().contains(d));
                assert(g2.entries@[d].ancestors@ == gs.entries@[d].ancestors@);
            }
            assert forall|i: int, j: int| 0 <= i < j < e2.descendents@.len() implies
                e2.descendents@[i] != e2.descendents@[j] by {
                assert(e2.descendents@[i] == gs.desc_of(h)[i]);
                assert(e2.descendents@[j] == gs.desc_of(h)[j]);
            }
        }
        assert forall|h: u64| g2.entries@.contains_key(h) implies #[trigger] g2.head_ok(h) by {
            assert(gs.has(h)) by {
                assert(g2.entries@.dom().contains(h));
            }
            assert(gs.head_ok(h));
            assert(g2.desc_of(h) == gs.desc_of(h));
        }
        assert forall|h: u64| g2.entries@.contains_key(h) implies #[trigger] g2.sums_ok_at(h) by {
            assert(gs.has(h)) by {
                assert(g2.entries@.dom().contains(h));
            }
        }
        assert(g2.entries@.contains_key(g2.base)) by {
            assert(g2.entries@.dom().contains(gs.base));
        }
        assert(g2.entries@[g2.base].number == gs.entries@[gs.base].number) by {
            assert(gs.has(gs.base));
        }
        assert forall|i: int| 0 <= i < g2.heads@.len() implies g2.entries@.contains_key(
            #[trigger] g2.heads@[i],
        ) by {
            assert(gs.has(gs.heads@[i]));
            assert(g2.entries@.dom().contains(g2.heads@[i]));
        }
        assert forall|h: u64| #[trigger] g2.votes@.contains_key(h) implies
            g2.entries@.contains_key(h) by {
            assert(g2.entries@.dom().contains(h));
        }
    }

    /// Insert a vote with given value into the graph at given hash and
    /// number: the graph learns of the block if needed, and the vote's
    /// weight is added to the block and to every vote-node below it.
    pub fn insert<C: Chain>(&mut self, hash: u64, number: u64, vote: u64, chain: &C) -> (r: Result<
        (),
        Error,
    >)
        requires
            old(self).wf(),
            chain_map_wf(chain.blocks()),
            chain_sub(old(self).chain_model@, chain.blocks(), old(self).base),
            chain.blocks().contains_key(hash) ==> chain.blocks()[hash].number == number,
            old(self).cum(old(self).base) + vote <= u64::MAX,
        ensures
            match r {
                Ok(()) => {
                    &&& final(self).wf()
                    &&& (hash == old(self).base || strict_desc(
                        chain.blocks(),
                        old(self).base,
                        hash,
                    ))
                    &&& final(self).votes@ == bumped(old(self).votes@, hash, vote as nat)
                    &&& final(self).chain_model@ == crate::chain::extend_to(
                        old(self).chain_model@,
                        chain.blocks(),
                        old(self).base,
                        hash,
                    )
                    &&& final(self).base == old(self).base
                    &&& final(self).entries@[final(self).base].number == old(self).entries@[old(
                        self,
                    ).base].number
                    &&& final(self).has(hash)
                    &&& final(self).cum(final(self).base) == old(self).cum(old(self).base) + vote
                    &&& (forall|h: u64|
                        #[trigger] final(self).has(h) <==> (old(self).has(h) || h == hash))
                    &&& (forall|h: u64|
                        #[trigger] old(self).has(h) ==> final(self).cum(h) >= old(self).cum(h))
                    &&& (forall|h: u64|
                        #[trigger] old(self).has(h) ==> final(self).cum(h) == old(self).cum(h) + (
                        if final(self).entries@[h].number <= number && chain_anc(
                            final(self).chain_model@,
                            hash,
                            final(self).entries@[h].number,
                        ) == h {
                            vote as nat
                        } else {
                            0
                        }))
                    &&& (old(self).has(hash) ==> {
                        &&& final(self).entries@.dom() == old(self).entries@.dom()
                        &&& final(self).heads@ == old(self).heads@
                        &&& (forall|h: u64|
                            #[trigger] old(self).has(h) ==> final(self).entries@[h].number == old(
                                self,
                            ).entries@[h].number && final(self).entries@[h].ancestors@ == old(
                                self,
                            ).entries@[h].ancestors@ && final(self).entries@[h].descendents@ == old(
                                self,
                            ).entries@[h].descendents@ && final(self).cum(h) == old(self).cum(h) + (
                            if old(self).node_path(hash).contains(h) {
                                vote as nat
                            } else {
                                0
                            }))
                    })
                },
                Err(e) => {
                    &&& *final(self) == *old(self)
                    &&& e == Error::NotDescendent
                    &&& !(hash == old(self).base || strict_desc(
                        chain.blocks(),
                        old(self).base,
                        hash,
                    ))
                },
            },
    {
        let ghost g = *old(self);
        let ghost c = chain.blocks();
        let ghost bn = g.entries@[g.base].number;
        match self.find_containing_nodes(hash, number) {
            Some(containing) => {
                if containing.len() == 0 {
                    proof {
                        assert forall|d: u64| !g.edge_contains(d, hash, number) by {
                            if g.edge_contains(d, hash, number) {
                                assert(containing@.contains(d));
                                let k = choose|k: int|
                                    0 <= k < containing@.len() && containing@[k] == d;
                            }
                        }
                    }
                    match self.append(hash, number, chain) {
                        Ok(()) => {},
                        Err(e) => {
                            return Err(e);
                        },
                    }
                } else {
                    proof {
                        assert(g.edge_contains(containing@[0], hash, number));
                        g.lemma_containing_bottom(hash, number, containing@[0]);
                        assert(g.chain_model@.contains_key(hash));
                        self.lemma_known_desc(g, c, hash);
                        crate::chain::lemma_extend_to_noop(g.chain_model@, c, g.base, bn, hash);
                    }
                    self.introduce_branch(containing, hash, number);
                }
            },
            None => {
                proof {
                    assert(g.entry_ok(hash));
                    assert(g.chain_model@.contains_key(hash));
                    self.lemma_known_desc(g, c, hash);
                    crate::chain::lemma_extend_to_noop(g.chain_model@, c, g.base, bn, hash);
                }
            },
        }
        let ghost gs = *self;
        self.votes = Ghost(bumped(g.votes@, hash, vote as nat));
        let ghost gm = *self;
        let ghost p = gs.node_path(hash);
        proof {
            gs.lemma_path_props(hash);
            // sums of the bumped graph: sound everywhere but at `hash`
            assert forall|h: u64| gs.has(h) && h != hash implies #[trigger] gm.sums_ok_at(h) by {
                assert(gs.sums_ok_at(h));
                assert(gm.vote_on(h) == gs.vote_on(h));
                gm.lemma_sum_cum_congruent(gs, gs.desc_of(h));
            }
            assert(gs.sums_ok_at(hash));
            assert(gm.vote_on(hash) == gs.vote_on(hash) + vote);
            gm.lemma_sum_cum_congruent(gs, gs.desc_of(hash));
            assert(gm.cum(hash) + vote == gm.vote_on(hash) + gm.sum_cum(gm.desc_of(hash)));
            assert(gs.cum(gs.base) <= g.cum(g.base));
        }
        let mut inspecting_hash = hash;
        let ghost mut i: int = 0;
        loop
            invariant_except_break
                gs.wf(),
                gm.votes@ == bumped(g.votes@, hash, vote as nat),
                gs.base == g.base,
                gs.entries@[gs.base].number == bn,
                gs.cum(gs.base) <= g.cum(g.base),
                g.cum(g.base) + vote <= u64::MAX,
                p == gs.node_path(hash),
                gs.has(hash),
                p.len() >= 1 && p[0] == hash && p.last() == gs.base,
                forall|k: int| 0 <= k < p.len() ==> gs.has(#[trigger] p[k]),
                forall|k: int|
                    0 <= k < p.len() - 1 ==> (#[trigger] p[k]) != gs.base && gs.anc_of(
                        p[k],
                    ).len() >= 1 && gs.anc_key(p[k]) == p[k + 1],
                forall|k: int, k2: int|
                    0 <= k < k2 < p.len() ==> gs.num(#[trigger] p[k]) > gs.num(#[trigger] p[k2]),
                0 <= i < p.len(),
                inspecting_hash == p[i],
                self.base == gs.base,
                self.heads@ == gs.heads@,
                self.chain_model@ == gs.chain_model@,
                self.votes@ == gm.votes@,
                self.entries@.dom() =~= gs.entries@.dom(),
                forall|x: u64| #[trigger] gs.has(x) ==> self.entries@[x].number
                    == gs.entries@[x].number && self.entries@[x].ancestors@
                    == gs.entries@[x].ancestors@ && self.entries@[x].descendents@
                    == gs.entries@[x].descendents@,
                forall|x: u64| #[trigger] gs.has(x) ==> self.cum(x) == gs.cum(x) + (
                if p.subrange(0, i).contains(x) {
                    vote as nat
                } else {
                    0
                }),
                forall|h: u64| gs.has(h) && h != p[i] ==> #[trigger] self.sums_ok_at(h),
                self.cum(p[i]) + vote == self.vote_on(p[i]) + self.sum_cum(self.desc_of(p[i])),
            ensures
                self.base == gs.base,
                self.heads@ == gs.heads@,
                self.chain_model@ == gs.chain_model@,
                self.votes@ == gm.votes@,
                self.entries@.dom() =~= gs.entries@.dom(),
                forall|x: u64| #[trigger] gs.has(x) ==> self.entries@[x].number
                    == gs.entries@[x].number && self.entries@[x].ancestors@
                    == gs.entries@[x].ancestors@ && self.entries@[x].descendents@
                    == gs.entries@[x].descendents@,
                forall|x: u64| #[trigger] gs.has(x) ==> self.cum(x) == gs.cum(x) + (
                if p.contains(x) {
                    vote as nat
                } else {
                    0
                }),
                forall|h: u64| gs.has(h) ==> #[trigger] self.sums_ok_at(h),
            decreases gs.num(p[i]),
        {
            proof {
                assert(gs.has(p[i]));
                assert(self.entries@.dom().contains(inspecting_hash));
                assert(!p.subrange(0, i).contains(p[i])) by {
                    let sub = p.subrange(0, i);
                    if sub.contains(p[i]) {
                        let k = choose|k: int| 0 <= k < sub.len() && sub[k] == p[i];
                        assert(gs.num(p[k]) > gs.num(p[i]));
                    }
                }
                assert(self.cum(inspecting_hash) == gs.cum(inspecting_hash));
                gs.lemma_cum_le_base(inspecting_hash);
            }
            let ghost pre = *self;
            let mut active_entry = self.entries.remove(&inspecting_hash).unwrap();
            active_entry.cumulative_vote = active_entry.cumulative_vote + vote;
            let anc = active_entry.ancestor_node();
            self.entries.insert(inspecting_hash, active_entry);
            proof {
                let cur = p[i];
                assert(self.entries@.dom() =~= gs.entries@.dom());
                assert(self.cum(cur) == pre.cum(cur) + vote);
                assert forall|x: u64| #[trigger] gs.has(x) && x != cur implies self.entries@[x]
                    == pre.entries@[x] by {
                    assert(pre.entries@.dom().contains(x));
                }
                assert forall|x: u64| #[trigger] gs.has(x) implies self.cum(x) == gs.cum(x) + (
                if p.subrange(0, i + 1).contains(x) {
                    vote as nat
                } else {
                    0
                }) by {
                    if x == cur {
                        assert(p.subrange(0, i + 1).contains(cur)) by {
                            assert(p.subrange(0, i + 1)[i] == cur);
                        }
                    } else {
                        assert(self.cum(x) == pre.cum(x));
                        assert(p.subrange(0, i + 1).contains(x) == p.subrange(0, i).contains(
                            x,
                        )) by {
                            let sa = p.subrange(0, i);
                            let sb = p.subrange(0, i + 1);
                            if sa.contains(x) {
                                let k = choose|k: int| 0 <= k < sa.len() && sa[k] == x;
                                assert(sb[k] == x);
                            }
                            if sb.contains(x) {
                                let k = choose|k: int| 0 <= k < sb.len() && sb[k] == x;
                                assert(k < i);
                                assert(sa[k] == x);
                            }
                        }
                    }
                }
                // the deficit moves one step down the path
                assert(self.sums_ok_at(cur)) by {
                    assert(self.vote_on(cur) == pre.vote_on(cur));
                    assert(pre.desc_of(cur) == gs.desc_of(cur));
                    assert(self.desc_of(cur) == gs.desc_of(cur));
                    assert forall|k: int| 0 <= k < pre.desc_of(cur).len() implies self.cum(
                        #[trigger] pre.desc_of(cur)[k],
                    ) == pre.cum(pre.desc_of(cur)[k]) by {
                        let d = pre.desc_of(cur)[k];
                        assert(gs.has(d)) by {
                            assert(gs.entry_ok(cur));
                            assert(gs.desc_of(cur)[k] == d);
                        }
                        assert(d != cur) by {
                            assert(gs.entry_ok(cur));
                            assert(gs.entries@[d].ancestors@.last() == cur);
                            assert(gs.entry_ok(d));
                            assert(gs.num(d) > gs.entries@[cur].number);
                        }
                    }
                    self.lemma_sum_cum_congruent(pre, pre.desc_of(cur)) ;
                }
                assert forall|h: u64| gs.has(h) && h != cur && (i + 1 >= p.len() || h != p[i + 1])
                    implies #[trigger] self.sums_ok_at(h) by {
                    assert(pre.sums_ok_at(h));
                    assert(self.cum(h) == pre.cum(h));
                    assert(self.vote_on(h) == pre.vote_on(h));
                    assert(!gs.desc_of(h).contains(cur)) by {
                        if gs.desc_of(h).contains(cur) {
                            let k = choose|k: int|
                                0 <= k < gs.desc_of(h).len() && gs.desc_of(h)[k] == cur;
                            assert(gs.entry_ok(h));
                            assert(gs.entries@[cur].ancestors@.last() == h);
                            assert(cur != gs.base);
                            assert(i < p.len() - 1);
                            assert(gs.anc_key(cur) == p[i + 1]);
                            assert(h == p[i + 1]);
                        }
                    }
                    self.lemma_sum_cum_congruent(pre, gs.desc_of(h)) ;
                    assert forall|k: int| 0 <= k < gs.desc_of(h).len() implies self.cum(
                        #[trigger] gs.desc_of(h)[k],
                    ) == pre.cum(gs.desc_of(h)[k]) by {
                        let d = gs.desc_of(h)[k];
                        assert(gs.has(d)) by {
                            assert(gs.entry_ok(h));
                        }
                        assert(d != cur);
                    }
                    assert(self.desc_of(h) == gs.desc_of(h));
                    assert(pre.desc_of(h) == gs.desc_of(h));
                }
                if i < p.len() - 1 {
                    let nxt = p[i + 1];
                    assert(pre.sums_ok_at(nxt)) by {
                        assert(nxt != cur);
                    }
                    assert(gs.desc_of(nxt).contains(cur)) by {
                        assert(gs.entry_ok(cur));
                        assert(gs.anc_key(cur) == nxt);
                    }
                    assert(self.cum(nxt) + vote == self.vote_on(nxt) + self.sum_cum(
                        self.desc_of(nxt),
                    )) by {
                        assert forall|k: int| 0 <= k < gs.desc_of(nxt).len() && gs.desc_of(
                            nxt,
                        )[k] != cur implies self.cum(#[trigger] gs.desc_of(nxt)[k]) == pre.cum(
                            gs.desc_of(nxt)[k],
                        ) by {
                            assert(gs.has(gs.desc_of(nxt)[k])) by {
                                assert(gs.entry_ok(nxt));
                            }
                        }
                        assert(forall|k: int, k2: int|
                            0 <= k < k2 < gs.desc_of(nxt).len() ==> gs.desc_of(nxt)[k]
                                != gs.desc_of(nxt)[k2]) by {
                            assert(gs.entry_ok(nxt));
                        }
                        assert(self.cum(cur) == pre.cum(cur) + vote);
                        pre.lemma_sum_cum_delta(*self, gs.desc_of(nxt), cur, vote as nat) ;
                        assert(self.cum(nxt) == pre.cum(nxt));
                        assert(self.vote_on(nxt) == pre.vote_on(nxt));
                        assert(self.desc_of(nxt) == gs.desc_of(nxt));
                        assert(pre.desc_of(nxt) == gs.desc_of(nxt));
                    }
                }
            }
            match anc {
                Some(parent) => {
                    proof {
                        assert(gs.anc_of(p[i]).len() >= 1);
                        assert(p[i] != gs.base) by {
                            assert(gs.entry_ok(p[i]));
                        }
                        assert(i < p.len() - 1) by {
                            if i == p.len() - 1 {
                                assert(p[i] == gs.base);
                            }
                        }
                        assert(parent == gs.anc_key(p[i]));
                        assert(parent == p[i + 1]);
                        assert(gs.num(p[i + 1]) < gs.num(p[i]));
                        i = i + 1;
                    }
                    inspecting_hash = parent;
                },
                None => {
                    proof {
                        assert(gs.anc_of(p[i]).len() == 0);
                        assert(p[i] == gs.base) by {
                            assert(gs.entry_ok(p[i]));
                        }
                        assert(i == p.len() - 1) by {
                            if i < p.len() - 1 {
                                assert(p[i] != gs.base);
                            }
                        }
                        assert forall|x: u64| #[trigger] gs.has(x) implies self.cum(x) == gs.cum(
                            x,
                        ) + (if p.contains(x) {
                            vote as nat
                        } else {
                            0
                        }) by {
                            assert(p.subrange(0, i + 1) =~= p);
                        }
                        assert forall|h: u64| gs.has(h) implies #[trigger] self.sums_ok_at(h) by {
                            if h == p[i] {
                                assert(self.sums_ok_at(p[i]));
                            }
                        }
                    }
                    break ;
                },
            }
        }
        proof {
            let g2 = *self;
            assert forall|h: u64| #[trigger] g2.votes@.contains_key(h) implies
                gs.entries@.contains_key(h) by {
                if h != hash {
                    assert(g.votes@.contains_key(h));
                    assert(g.has(h));
                    assert(gs.has(h));
                }
            }
            assert forall|h: u64| gs.has(h) implies #[trigger] g2.sums_ok_at(h) by {}
            VoteGraph::lemma_same_structure_wf(gs, g2);
            assert(g2.cum(g2.base) == gs.cum(gs.base) + vote) by {
                assert(gs.has(gs.base));
                assert(p.contains(gs.base)) by {
                    assert(p.last() == gs.base);
                }
            }
            assert(gs.cum(gs.base) == g.cum(g.base)) by {
                assert(g.has(g.base));
            }
            assert forall|h: u64| #[trigger] g.has(h) implies g2.has(h) by {
                assert(gs.has(h));
                assert(g2.entries@.dom().contains(h));
            }
            assert forall|h: u64| #[trigger] g2.has(h) implies (g.has(h) || h == hash) by {
                assert(g2.entries@.dom().contains(h));
                assert(gs.has(h));
            }
            assert forall|h: u64| #[trigger] g.has(h) implies g2.cum(h) >= g.cum(h) by {
                assert(gs.has(h));
                assert(gs.cum(h) == g.cum(h));
                assert(g2.cum(h) >= gs.cum(h));
            }
            // the weight lands exactly on the chain from the base to the
            // inserted block
            gs.lemma_path_is_chain(hash);
            assert(gs.entries@[hash].number == number) by {
                if g.has(hash) {
                    assert(g.entry_ok(hash));
                    assert(g.chain_model@[hash].number == g.entries@[hash].number);
                    assert(c[hash].number == g.chain_model@[hash].number);
                }
            }
            assert forall|h: u64| #[trigger] g.has(h) implies g2.cum(h) == g.cum(h) + (
            if g2.entries@[h].number <= number && chain_anc(
                g2.chain_model@,
                hash,
                g2.entries@[h].number,
            ) == h {
                vote as nat
            } else {
                0
            }) by {
                assert(gs.has(h));
                assert(gs.cum(h) == g.cum(h));
                assert(g2.entries@[h].number == gs.entries@[h].number);
                assert(g2.chain_model@ == gs.chain_model@);
                assert(p.contains(h) <==> (chain_anc(
                    gs.chain_model@,
                    hash,
                    gs.entries@[h].number,
                ) == h && gs.entries@[h].number <= gs.entries@[hash].number));
                assert(g2.cum(h) == gs.cum(h) + (if p.contains(h) {
                    vote as nat
                } else {
                    0
                }));
            }
            if g.has(hash) {
                assert(gs == g);
                assert(g2.entries@.dom() == g.entries@.dom());
            }
        }
        Ok(())
    }

    /// Given a key, node pair (which must correspond), assuming this node
    /// fulfills the condition, find the highest point at which its
    /// descendents merge, which may be the node itself.
    pub fn ghost_find_merge_point(
        &self,
        node_key: u64,
        active_node: &Entry,
        force_constrain: Option<(u64, u64)>,
        condition: Condition,
    ) -> (r: Subchain)
        requires
            self.wf(),
            self.has(node_key),
            *active_node == self.entries@[node_key],
            passes(condition, self.cum(node_key)),
        ensures
            r.hashes@.len() >= 1,
            r.hashes@[0] == node_key,
            r.best_number == self.num(node_key) + r.hashes@.len() - 1,
            forall|k: int|
                0 <= k < r.hashes@.len() ==> self.chain_model@.contains_key(#[trigger] r.hashes@[k])
                    && self.chain_model@[r.hashes@[k]].number == self.num(node_key) + k
                    && chain_anc(
                    self.chain_model@,
                    r.hashes@[k],
                    self.entries@[node_key].number,
                ) == node_key,
            forall|k: int|
                0 <= k < r.hashes@.len() ==> self.block_has_weight(
                    #[trigger] r.hashes@[k],
                    (self.num(node_key) + k) as u64,
                    condition,
                ),
            forall|b: u64, ds: Seq<u64>, upper: u64|
                upper == r.best_number + 1 && #[trigger] self.straddling_pair(
                    ds,
                    b,
                    upper,
                    r.hashes@.last(),
                    r.best_number,
                    force_constrain,
                ) ==> !passes(condition, self.sum_cum(ds)),
            forall|k: int| 1 <= k < r.hashes@.len() ==> !self.has(#[trigger] r.hashes@[k]),
            forall|k: int|
                0 <= k < r.hashes@.len() ==> chain_anc(
                    self.chain_model@,
                    r.hashes@.last(),
                    (self.entries@[node_key].number + k) as u64,
                ) == #[trigger] r.hashes@[k],
    {
        let ghost cm = self.chain_model@;
        let ghost bn = self.entries@[self.base].number;
        let base_number = active_node.number;
        proof {
            assert(self.entry_ok(node_key));
        }
        let mut descendent_nodes: Vec<u64> = Vec::new();
        let mut di: usize = 0;
        while di < active_node.descendents.len()
            invariant
                self.wf(),
                self.has(node_key),
                cm == self.chain_model@,
                bn == self.entries@[self.base].number,
                *active_node == self.entries@[node_key],
                base_number == self.entries@[node_key].number,
                di <= self.desc_of(node_key).len(),
                forall|p: int| 0 <= p < descendent_nodes@.len() ==> self.desc_of(
                    node_key,
                ).subrange(0, di as int).contains(#[trigger] descendent_nodes@[p]),
                forall|p: int, q: int|
                    0 <= p < q < descendent_nodes@.len() ==> descendent_nodes@[p]
                        != descendent_nodes@[q],
                forall|p: int| 0 <= p < descendent_nodes@.len() ==> self.has(
                    #[trigger] descendent_nodes@[p],
                ) && self.num(descendent_nodes@[p]) > base_number && chain_anc(
                    self.chain_model@,
                    descendent_nodes@[p],
                    base_number,
                ) == node_key && self.desc_of(node_key).contains(descendent_nodes@[p]),
                forall|p: int|
                    0 <= p < di && self.fc_ok(
                        #[trigger] self.desc_of(node_key)[p],
                        force_constrain,
                    ) ==> descendent_nodes@.contains(self.desc_of(node_key)[p]),
            decreases self.desc_of(node_key).len() - di,
        {
            let d = active_node.descendents[di];
            proof {
                assert(self.entry_ok(node_key));
                assert(self.has(d)) by {
                    assert(self.desc_of(node_key)[di as int] == d);
                }
                assert(self.entry_ok(d));
                assert(self.num(d) > base_number && self.anc_key(d) == node_key) by {
                    assert(self.desc_of(node_key)[di as int] == d);
                }
                assert(chain_anc(cm, d, base_number) == node_key) by {
                    let le = self.anc_of(d).len();
                    assert(self.anc_of(d)[le - 1] == chain_anc(
                        cm,
                        d,
                        (self.num(d) - 1 - (le - 1)) as u64,
                    ));
                    assert(self.entries@[node_key].number == self.num(d) - le);
                }
            }
            let keep: bool = match force_constrain {
                Some((fh, fn_)) => {
                    let dn = self.entries.get(&d).unwrap();
                    match dn.in_direct_ancestry(fh, fn_) {
                        Some(true) => true,
                        _ => false,
                    }
                },
                None => true,
            };
            proof {
                assert(keep == self.fc_ok(d, force_constrain));
            }
            if keep {
                proof {
                    assert(!descendent_nodes@.contains(d)) by {
                        if descendent_nodes@.contains(d) {
                            let p = choose|p: int|
                                0 <= p < descendent_nodes@.len() && descendent_nodes@[p] == d;
                            let sub = self.desc_of(node_key).subrange(0, di as int);
                            assert(sub.contains(d));
                            let q = choose|q: int| 0 <= q < sub.len() && sub[q] == d;
                            assert(self.desc_of(node_key)[q] == self.desc_of(node_key)[di as int]);
                        }
                    }
                }
                let ghost pre = descendent_nodes@;
                descendent_nodes.push(d);
                proof {
                    assert forall|p: int| 0 <= p < descendent_nodes@.len() implies self.desc_of(
                        node_key,
                    ).subrange(0, di + 1).contains(#[trigger] descendent_nodes@[p]) by {
                        if p < pre.len() {
                            assert(descendent_nodes@[p] == pre[p]);
                            let sub = self.desc_of(node_key).subrange(0, di as int);
                            assert(sub.contains(pre[p]));
                            let q = choose|q: int| 0 <= q < sub.len() && sub[q] == pre[p];
                            assert(self.desc_of(node_key).subrange(0, di + 1)[q] == pre[p]);
                        } else {
                            assert(descendent_nodes@[p] == d);
                            assert(self.desc_of(node_key).subrange(0, di + 1)[di as int] == d);
                        }
                    }
                    assert forall|p: int|
                        0 <= p < di + 1 && self.fc_ok(
                            #[trigger] self.desc_of(node_key)[p],
                            force_constrain,
                        ) implies descendent_nodes@.contains(self.desc_of(node_key)[p]) by {
                        if p < di {
                            assert(pre.contains(self.desc_of(node_key)[p]));
                            let q = choose|q: int|
                                0 <= q < pre.len() && pre[q] == self.desc_of(node_key)[p];
                            assert(descendent_nodes@[q] == self.desc_of(node_key)[p]);
                        } else {
                            assert(descendent_nodes@[descendent_nodes@.len() - 1] == d);
                        }
                    }
                }
            } else {
                proof {
                    assert forall|p: int| 0 <= p < descendent_nodes@.len() implies self.desc_of(
                        node_key,
                    ).subrange(0, di + 1).contains(#[trigger] descendent_nodes@[p]) by {
                        let sub = self.desc_of(node_key).subrange(0, di as int);
                        assert(sub.contains(descendent_nodes@[p]));
                        let q = choose|q: int| 0 <= q < sub.len() && sub[q] == descendent_nodes@[p];
                        assert(self.desc_of(node_key).subrange(0, di + 1)[q] == descendent_nodes@[p]);
                    }
                    assert forall|p: int|
                        0 <= p < di + 1 && self.fc_ok(
                            #[trigger] self.desc_of(node_key)[p],
                            force_constrain,
                        ) implies descendent_nodes@.contains(self.desc_of(node_key)[p]) by {
                        if p == di as int {
                            assert(self.desc_of(node_key)[p] == d);
                            assert(!self.fc_ok(d, force_constrain));
                        }
                    }
                }
            }
            di = di + 1;
        }
        let mut best_number = base_number;
        let mut hashes: Vec<u64> = Vec::new();
        hashes.push(node_key);
        proof {
            assert(hashes@[0] == node_key);
            assert(cm.contains_key(node_key) && cm[node_key].number == base_number) by {
                assert(self.entry_ok(node_key));
            }
            assert(self.block_has_weight(node_key, base_number, condition));
            assert(chain_anc(cm, hashes@.last(), base_number) == node_key);
            assert forall|d: u64| #[trigger] self.edge_contains(d, hashes@.last(), best_number)
                && self.fc_ok(d, force_constrain) implies descendent_nodes@.contains(d) by {
                assert(self.has(d));
                assert(self.entry_ok(d));
                let le = self.anc_of(d).len();
                let idx2 = self.num(d) - base_number - 1;
                assert(self.anc_of(d)[idx2] == node_key);
                if idx2 < le - 1 {
                    assert(!self.has(self.anc_of(d)[idx2]));
                }
                assert(self.anc_key(d) == node_key);
                assert(self.desc_of(node_key).contains(d)) by {
                    assert(self.entry_ok(d));
                }
                let p = choose|p: int|
                    0 <= p < self.desc_of(node_key).len() && self.desc_of(node_key)[p] == d;
                assert(self.fc_ok(self.desc_of(node_key)[p], force_constrain));
            }
        }
        loop
            invariant_except_break
                self.wf(),
                self.has(node_key),
                cm == self.chain_model@,
                bn == self.entries@[self.base].number,
                base_number == self.entries@[node_key].number,
                passes(condition, self.cum(node_key)),
                best_number >= base_number,
                hashes@.len() == best_number - base_number + 1,
                hashes@[0] == node_key,
                forall|p: int| 0 <= p < descendent_nodes@.len() ==> self.has(
                    #[trigger] descendent_nodes@[p],
                ) && self.num(descendent_nodes@[p]) > best_number && chain_anc(
                    cm,
                    descendent_nodes@[p],
                    best_number,
                ) == hashes@.last() && self.desc_of(node_key).contains(descendent_nodes@[p]),
                forall|p: int, q: int|
                    0 <= p < q < descendent_nodes@.len() ==> descendent_nodes@[p]
                        != descendent_nodes@[q],
                forall|k: int|
                    0 <= k < hashes@.len() ==> cm.contains_key(#[trigger] hashes@[k])
                        && cm[hashes@[k]].number == base_number + k && chain_anc(
                        cm,
                        hashes@[k],
                        base_number,
                    ) == node_key,
                forall|k: int|
                    0 <= k < hashes@.len() ==> self.block_has_weight(
                        #[trigger] hashes@[k],
                        (base_number + k) as u64,
                        condition,
                    ),
                forall|d: u64| #[trigger] self.edge_contains(d, hashes@.last(), best_number)
                    && self.fc_ok(d, force_constrain) ==> descendent_nodes@.contains(d),
                forall|k: int| 1 <= k < hashes@.len() ==> !self.has(#[trigger] hashes@[k]),
                forall|k: int|
                    0 <= k < hashes@.len() ==> chain_anc(
                        cm,
                        hashes@.last(),
                        (base_number + k) as u64,
                    ) == #[trigger] hashes@[k],
            ensures
                best_number >= base_number,
                hashes@.len() == best_number - base_number + 1,
                hashes@[0] == node_key,
                forall|k: int|
                    0 <= k < hashes@.len() ==> cm.contains_key(#[trigger] hashes@[k])
                        && cm[hashes@[k]].number == base_number + k && chain_anc(
                        cm,
                        hashes@[k],
                        base_number,
                    ) == node_key,
                forall|k: int|
                    0 <= k < hashes@.len() ==> self.block_has_weight(
                        #[trigger] hashes@[k],
                        (base_number + k) as u64,
                        condition,
                    ),
                forall|b: u64, ds: Seq<u64>, upper: u64|
                    upper == best_number + 1 && #[trigger] self.straddling_pair(
                        ds,
                        b,
                        upper,
                        hashes@.last(),
                        best_number,
                        force_constrain,
                    ) ==> !passes(condition, self.sum_cum(ds)),
                forall|k: int| 1 <= k < hashes@.len() ==> !self.has(#[trigger] hashes@[k]),
                forall|k: int|
                    0 <= k < hashes@.len() ==> chain_anc(
                        cm,
                        hashes@.last(),
                        (base_number + k) as u64,
                    ) == #[trigger] hashes@[k],
            decreases u64::MAX - best_number,
        {
            if descendent_nodes.len() == 0 {
                proof {
                    assert forall|b: u64, ds: Seq<u64>, upper: u64|
                        upper == best_number + 1 && #[trigger] self.straddling_pair(
                            ds,
                            b,
                            upper,
                            hashes@.last(),
                            best_number,
                            force_constrain,
                        ) implies !passes(condition, self.sum_cum(ds)) by {
                        assert(self.edge_contains(ds[0], hashes@.last(), best_number));
                        assert(self.fc_ok(ds[0], force_constrain));
                        assert(descendent_nodes@.contains(ds[0]));
                        let p = choose|p: int|
                            0 <= p < descendent_nodes@.len() && descendent_nodes@[p] == ds[0];
                    }
                }
                break ;
            }
            proof {
                assert(self.num(descendent_nodes@[0]) > best_number);
                assert(self.num(descendent_nodes@[0]) <= u64::MAX);
            }
            let target = best_number + 1;
            let mut blocks: Vec<(u64, u64)> = Vec::new();
            let ghost mut contribs: Seq<Seq<u64>> = Seq::empty();
            let mut new_best: Option<u64> = None;
            let ghost mut nb_witness: Seq<u64> = Seq::empty();
            let mut dj: usize = 0;
            while dj < descendent_nodes.len() && new_best.is_none()
                invariant
                    self.wf(),
                    cm == self.chain_model@,
                    dj <= descendent_nodes@.len(),
                    target == best_number + 1,
                    base_number <= best_number,
                    forall|p: int| 0 <= p < descendent_nodes@.len() ==> self.has(
                        #[trigger] descendent_nodes@[p],
                    ) && self.num(descendent_nodes@[p]) > best_number && self.desc_of(
                        node_key,
                    ).contains(descendent_nodes@[p]),
                    forall|p: int, q: int|
                        0 <= p < q < descendent_nodes@.len() ==> descendent_nodes@[p]
                            != descendent_nodes@[q],
                    self.has(node_key),
                    base_number == self.entries@[node_key].number,
                    contribs.len() == blocks@.len(),
                    forall|x: int|
                        0 <= x < blocks@.len() ==> (#[trigger] blocks@[x]).1 as nat == self.sum_cum(
                            contribs[x],
                        ),
                    forall|x: int, p: int|
                        0 <= x < contribs.len() && 0 <= p < contribs[x].len()
                            ==> descendent_nodes@.subrange(0, dj as int).contains(
                            #[trigger] contribs[x][p],
                        ),
                    forall|x: int, p: int, q: int|
                        0 <= x < contribs.len() && 0 <= p < q < contribs[x].len() ==> contribs[x][p]
                            != contribs[x][q],
                    forall|x: int, p: int|
                        0 <= x < contribs.len() && 0 <= p < contribs[x].len()
                            ==> self.edge_contains(#[trigger] contribs[x][p], blocks@[x].0, target),
                    forall|x: int, y: int|
                        0 <= x < y < blocks@.len() ==> (#[trigger] blocks@[x]).0 != (
                        #[trigger] blocks@[y]).0,
                    forall|p: int, bb: u64|
                        0 <= p < dj && #[trigger] self.edge_contains(descendent_nodes@[p], bb, target) ==> exists|x: int|
                            0 <= x < blocks@.len() && (#[trigger] blocks@[x]).0 == bb
                                && contribs[x].contains(descendent_nodes@[p]),
                    new_best is None ==> forall|x: int|
                        0 <= x < blocks@.len() && contribs[x].len() >= 2 ==> !passes(
                            condition,
                            (#[trigger] blocks@[x]).1 as nat,
                        ),
                    new_best is Some ==> self.weight_witness(
                        nb_witness,
                        new_best.unwrap(),
                        target,
                        condition,
                    ) && nb_witness.len() >= 1,
                    new_best is Some ==> forall|p: int|
                        0 <= p < nb_witness.len() ==> descendent_nodes@.contains(
                            #[trigger] nb_witness[p],
                        ),
                decreases descendent_nodes@.len() - dj,
            {
                let d = descendent_nodes[dj];
                let dn = self.entries.get(&d).unwrap();
                proof {
                    assert(self.entry_ok(d));
                }
                match dn.ancestor_block(target) {
                    Some(b) => {
                        proof {
                            assert(self.edge_contains(d, b, target));
                        }
                        let mut idx: usize = 0;
                        let mut found: bool = false;
                        while idx < blocks.len() && !found
                            invariant
                                idx <= blocks@.len(),
                                !found ==> forall|x: int| 0 <= x < idx ==> (
                                #[trigger] blocks@[x]).0 != b,
                                found ==> idx < blocks@.len() && blocks@[idx as int].0 == b,
                            decreases blocks@.len() - idx + (if found {
                                0int
                            } else {
                                1int
                            }),
                        {
                            if blocks[idx].0 == b {
                                found = true;
                            } else {
                                idx = idx + 1;
                            }
                        }
                        if found {
                            proof {
                                assert(!contribs[idx as int].contains(d)) by {
                                    if contribs[idx as int].contains(d) {
                                        let p = choose|p: int|
                                            0 <= p < contribs[idx as int].len()
                                                && contribs[idx as int][p] == d;
                                        let sub = descendent_nodes@.subrange(0, dj as int);
                                        assert(sub.contains(d));
                                        let q = choose|q: int| 0 <= q < sub.len() && sub[q] == d;
                                        assert(descendent_nodes@[q] == descendent_nodes@[dj as int]);
                                    }
                                }
                                let w2 = contribs[idx as int].push(d);
                                assert forall|p: int| 0 <= p < w2.len() implies
                                    descendent_nodes@.contains(#[trigger] w2[p]) by {
                                    if p < w2.len() - 1 {
                                        let sub = descendent_nodes@.subrange(0, dj as int);
                                        assert(sub.contains(w2[p]));
                                        let q = choose|q: int|
                                            0 <= q < sub.len() && sub[q] == w2[p];
                                        assert(descendent_nodes@[q] == w2[p]);
                                    } else {
                                        assert(w2[p] == descendent_nodes@[dj as int]);
                                    }
                                }
                                self.lemma_sum_cum_le_subset(w2, descendent_nodes@);
                                assert(self.entry_ok(node_key));
                                assert forall|p: int| 0 <= p < descendent_nodes@.len() implies
                                    self.desc_of(node_key).contains(
                                    #[trigger] descendent_nodes@[p],
                                ) by {}
                                self.lemma_sum_cum_le_subset(
                                    descendent_nodes@,
                                    self.desc_of(node_key),
                                );
                                assert(self.sums_ok_at(node_key));
                                self.lemma_sum_cum_push(contribs[idx as int], d);
                                assert(self.sum_cum(w2) <= self.cum(node_key) <= u64::MAX);
                            }
                            let w = blocks[idx].1 + dn.cumulative_vote;
                            let ghost pre_blocks = blocks@;
                            let ghost pre_contribs = contribs;
                            let _ = blocks.remove(idx);
                            blocks.insert(idx, (b, w));
                            proof {
                                assert(blocks@ =~= pre_blocks.update(idx as int, (b, w)));
                                contribs = contribs.update(idx as int, contribs[idx as int].push(d));
                                assert(blocks@.len() == pre_blocks.len());
                                assert forall|x: int, y: int| 0 <= x < y < blocks@.len() implies (
                                #[trigger] blocks@[x]).0 != (#[trigger] blocks@[y]).0 by {
                                    assert(pre_blocks[x].0 != pre_blocks[y].0);
                                    assert(blocks@[x] == pre_blocks.update(idx as int, (b, w))[x]);
                                    assert(blocks@[y] == pre_blocks.update(idx as int, (b, w))[y]);
                                    if x == idx as int {
                                        assert(pre_blocks[x].0 == b);
                                        assert(blocks@[x].0 == b);
                                    } else {
                                        assert(blocks@[x] == pre_blocks[x]);
                                    }
                                    if y == idx as int {
                                        assert(pre_blocks[y].0 == b);
                                        assert(blocks@[y].0 == b);
                                    } else {
                                        assert(blocks@[y] == pre_blocks[y]);
                                    }
                                }
                                assert(contribs[idx as int].last() == d);
                                assert forall|p: int, bb: u64|
                                    0 <= p < dj + 1 && #[trigger] self.edge_contains(descendent_nodes@[p], bb, target) implies exists|x: int|
                                    0 <= x < blocks@.len() && (#[trigger] blocks@[x]).0 == bb
                                        && contribs[x].contains(descendent_nodes@[p]) by {
                                    if p < dj {
                                        let x0 = choose|x0: int|
                                            0 <= x0 < pre_blocks.len() && (#[trigger] pre_blocks[
                                            x0]).0 == bb && pre_contribs[x0].contains(
                                                descendent_nodes@[p],
                                            );
                                        assert(blocks@[x0].0 == bb);
                                        if x0 == idx as int {
                                            let q = choose|q: int|
                                                0 <= q < pre_contribs[x0].len()
                                                    && pre_contribs[x0][q] == descendent_nodes@[p];
                                            assert(contribs[x0][q] == descendent_nodes@[p]);
                                            assert(contribs[x0].contains(descendent_nodes@[p]));
                                        } else {
                                            assert(contribs[x0] == pre_contribs[x0]);
                                        }
                                    } else {
                                        assert(descendent_nodes@[p] == d);
                                        assert(self.edge_contains(d, bb, target));
                                        assert(bb == b) by {
                                            assert(self.anc_of(d)[self.num(d) - target - 1] == bb);
                                            assert(self.anc_of(d)[self.num(d) - target - 1] == b);
                                        }
                                        assert(blocks@[idx as int].0 == b);
                                        assert(contribs[idx as int].contains(d)) by {
                                            assert(contribs[idx as int][contribs[idx
                                                as int].len() - 1] == d);
                                        }
                                    }
                                }
                            }
                            if condition.check(w) {
                                new_best = Some(b);
                                proof {
                                    nb_witness = contribs[idx as int];
                                    assert(self.weight_witness(nb_witness, b, target, condition));
                                    assert forall|p: int| 0 <= p < nb_witness.len() implies
                                        descendent_nodes@.contains(#[trigger] nb_witness[p]) by {
                                        if p == nb_witness.len() - 1 {
                                            assert(nb_witness[p] == d);
                                            assert(descendent_nodes@[dj as int] == d);
                                        } else {
                                            let sub = descendent_nodes@.subrange(0, dj as int);
                                            assert(sub.contains(nb_witness[p]));
                                            let q = choose|q: int|
                                                0 <= q < sub.len() && sub[q] == nb_witness[p];
                                            assert(descendent_nodes@[q] == nb_witness[p]);
                                        }
                                    }
                                }
                            } else {
                                proof {
                                    assert(!passes(condition, w as nat));
                                    assert forall|x: int|
                                        0 <= x < blocks@.len() && contribs[x].len() >= 2 implies
                                        !passes(condition, (#[trigger] blocks@[x]).1 as nat) by {
                                        if x == idx as int {
                                            assert(blocks@[x].1 == w);
                                        } else {
                                            assert(blocks@[x] == pre_blocks[x]);
                                            assert(contribs[x] == pre_contribs[x]);
                                        }
                                    }
                                }
                            }
                        } else {
                            let ghost pre_blocks = blocks@;
                            let ghost pre_contribs = contribs;
                            blocks.push((b, dn.cumulative_vote));
                            proof {
                                contribs = contribs.push(seq![d]);
                                assert(contribs[contribs.len() - 1] =~= seq![d]);
                                assert(self.sum_cum(seq![d]) == self.cum(d)) by {
                                    assert(seq![d][0] == d);
                                    assert(seq![d].drop_first() =~= Seq::<u64>::empty());
                                    assert(self.sum_cum(Seq::<u64>::empty()) == 0);
                                    assert(self.sum_cum(seq![d]) == self.cum(seq![d][0])
                                        + self.sum_cum(seq![d].drop_first()));
                                }
                                assert forall|x: int, y: int| 0 <= x < y < blocks@.len() implies (
                                #[trigger] blocks@[x]).0 != (#[trigger] blocks@[y]).0 by {
                                    if y == blocks@.len() - 1 {
                                        assert(blocks@[x] == pre_blocks[x]);
                                        assert(blocks@[y].0 == b);
                                    } else {
                                        assert(blocks@[x] == pre_blocks[x]);
                                        assert(blocks@[y] == pre_blocks[y]);
                                    }
                                }
                                assert forall|p: int, bb: u64|
                                    0 <= p < dj + 1 && #[trigger] self.edge_contains(descendent_nodes@[p], bb, target) implies exists|x: int|
                                    0 <= x < blocks@.len() && (#[trigger] blocks@[x]).0 == bb
                                        && contribs[x].contains(descendent_nodes@[p]) by {
                                    if p < dj {
                                        let x0 = choose|x0: int|
                                            0 <= x0 < pre_blocks.len() && (#[trigger] pre_blocks[
                                            x0]).0 == bb && pre_contribs[x0].contains(
                                                descendent_nodes@[p],
                                            );
                                        assert(blocks@[x0].0 == bb);
                                        assert(contribs[x0] == pre_contribs[x0]);
                                    } else {
                                        assert(descendent_nodes@[p] == d);
                                        assert(self.edge_contains(d, bb, target));
                                        assert(bb == b) by {
                                            assert(self.anc_of(d)[self.num(d) - target - 1] == bb);
                                            assert(self.anc_of(d)[self.num(d) - target - 1] == b);
                                        }
                                        assert(blocks@[blocks@.len() - 1].0 == b);
                                        assert(contribs[contribs.len() - 1].contains(d)) by {
                                            assert(contribs[contribs.len() - 1][0] == d);
                                        }
                                    }
                                }
                                assert forall|x: int|
                                    0 <= x < blocks@.len() && contribs[x].len() >= 2 implies
                                    !passes(condition, (#[trigger] blocks@[x]).1 as nat) by {
                                    if x < blocks@.len() - 1 {
                                        assert(blocks@[x] == pre_blocks[x]);
                                        assert(contribs[x] == pre_contribs[x]);
                                    } else {
                                        assert(contribs[x].len() == 1);
                                    }
                                }
                            }
                        }
                    },
                    None => {
                        proof {
                            assert forall|bb: u64| !self.edge_contains(d, bb, target) by {
                                assert(self.entry_ok(d));
                            }
                            assert forall|p: int, bb: u64|
                                0 <= p < dj + 1 && #[trigger] self.edge_contains(descendent_nodes@[p], bb, target) implies exists|x: int|
                                0 <= x < blocks@.len() && (#[trigger] blocks@[x]).0 == bb
                                    && contribs[x].contains(descendent_nodes@[p]) by {
                                if p == dj as int {
                                    assert(descendent_nodes@[p] == d);
                                    assert(!self.edge_contains(d, bb, target));
                                }
                            }
                        }
                    },
                }
                dj = dj + 1;
                proof {
                    assert forall|x: int, p: int|
                        0 <= x < contribs.len() && 0 <= p < contribs[x].len() implies
                        descendent_nodes@.subrange(0, dj as int).contains(
                        #[trigger] contribs[x][p],
                    ) by {
                        let sub0 = descendent_nodes@.subrange(0, dj - 1);
                        if sub0.contains(contribs[x][p]) {
                            let q = choose|q: int| 0 <= q < sub0.len() && sub0[q] == contribs[x][p];
                            assert(descendent_nodes@.subrange(0, dj as int)[q] == contribs[x][p]);
                        } else {
                            assert(contribs[x][p] == descendent_nodes@[dj - 1]);
                            assert(descendent_nodes@.subrange(0, dj as int)[dj - 1]
                                == descendent_nodes@[dj - 1]);
                        }
                    }
                }
            }
            match new_best {
                Some(nb) => {
                    proof {
                        let w0 = nb_witness[0];
                        assert(self.edge_contains(w0, nb, target));
                        assert(self.entry_ok(w0));
                        assert(nb == chain_anc(cm, w0, target)) by {
                            assert(self.anc_of(w0)[self.num(w0) - target - 1] == chain_anc(
                                cm,
                                w0,
                                target,
                            ));
                        }
                        assert(descendent_nodes@.contains(w0));
                        let q0 = choose|q: int|
                            0 <= q < descendent_nodes@.len() && descendent_nodes@[q] == w0;
                        assert(chain_anc(cm, w0, best_number) == hashes@.last());
                        assert(self.num(w0) - self.anc_of(w0).len() >= bn) by {
                            assert(self.has(self.anc_key(w0)));
                            assert(self.entry_ok(self.anc_key(w0)));
                            assert(cm.contains_key(self.anc_key(w0)));
                            assert(cm[self.anc_key(w0)].number >= bn);
                            assert(self.entries@[self.anc_key(w0)].number == self.num(w0)
                                - self.anc_of(w0).len());
                        }
                        assert(target >= bn);
                        crate::chain::lemma_chain_anc_props(cm, self.base, bn, w0, target);
                        assert(cm.contains_key(nb) && cm[nb].number == target);
                        crate::chain::lemma_chain_anc_trans(cm, self.base, bn, w0, target, best_number);
                        assert(chain_anc(cm, nb, best_number) == hashes@.last());
                        crate::chain::lemma_chain_anc_trans(cm, self.base, bn, w0, target, base_number) ;
                        crate::chain::lemma_chain_anc_trans(cm, self.base, bn, w0, best_number, base_number) ;
                        assert(chain_anc(cm, nb, base_number) == chain_anc(
                            cm,
                            hashes@.last(),
                            base_number,
                        ));
                        assert(chain_anc(cm, hashes@.last(), base_number) == node_key);
                        // the advanced-to block is interior to `w0`'s edge, so
                        // it is no vote-node itself
                        assert(!self.has(nb)) by {
                            assert(self.desc_of(node_key).contains(w0));
                            assert(self.entry_ok(node_key));
                            assert(self.anc_key(w0) == node_key);
                            assert(self.num(w0) - self.anc_of(w0).len() == base_number);
                            assert(self.num(w0) - target - 1 < self.anc_of(w0).len() - 1);
                        }
                    }
                    let ghost pre_hashes = hashes@;
                    let ghost pre_nodes = descendent_nodes@;
                    let ghost pre_best = best_number;
                    hashes.push(nb);
                    best_number = target;
                    let mut retained: Vec<u64> = Vec::new();
                    let mut rk: usize = 0;
                    while rk < descendent_nodes.len()
                        invariant
                            self.wf(),
                            cm == self.chain_model@,
                            descendent_nodes@ == pre_nodes,
                            rk <= pre_nodes.len(),
                            best_number == target,
                            forall|p: int| 0 <= p < pre_nodes.len() ==> self.has(
                                #[trigger] pre_nodes[p],
                            ) && self.desc_of(node_key).contains(pre_nodes[p]),
                            forall|p: int, q: int|
                                0 <= p < q < pre_nodes.len() ==> pre_nodes[p] != pre_nodes[q],
                            forall|p: int| 0 <= p < retained@.len() ==> pre_nodes.subrange(
                                0,
                                rk as int,
                            ).contains(#[trigger] retained@[p]),
                            forall|p: int, q: int|
                                0 <= p < q < retained@.len() ==> retained@[p] != retained@[q],
                            forall|p: int| 0 <= p < retained@.len() ==> self.has(
                                #[trigger] retained@[p],
                            ) && self.num(retained@[p]) > best_number && chain_anc(
                                cm,
                                retained@[p],
                                best_number,
                            ) == nb && self.desc_of(node_key).contains(retained@[p]),
                            forall|p: int|
                                0 <= p < rk && self.edge_contains(
                                    #[trigger] pre_nodes[p],
                                    nb,
                                    target,
                                ) ==> retained@.contains(pre_nodes[p]),
                        decreases pre_nodes.len() - rk,
                    {
                        let d2 = descendent_nodes[rk];
                        let dn2 = self.entries.get(&d2).unwrap();
                        let keep2 = match dn2.in_direct_ancestry(nb, target) {
                            Some(true) => true,
                            _ => false,
                        };
                        if keep2 {
                            proof {
                                assert(self.entry_ok(d2));
                                assert(self.edge_contains(d2, nb, best_number));
                                assert(chain_anc(cm, d2, best_number) == nb) by {
                                    assert(self.anc_of(d2)[self.num(d2) - best_number - 1]
                                        == chain_anc(cm, d2, best_number));
                                }
                                assert(!retained@.contains(d2)) by {
                                    if retained@.contains(d2) {
                                        let p = choose|p: int|
                                            0 <= p < retained@.len() && retained@[p] == d2;
                                        let sub = pre_nodes.subrange(0, rk as int);
                                        assert(sub.contains(d2));
                                        let q = choose|q: int| 0 <= q < sub.len() && sub[q] == d2;
                                        assert(pre_nodes[q] == pre_nodes[rk as int]);
                                    }
                                }
                            }
                            let ghost pre_ret = retained@;
                            retained.push(d2);
                            proof {
                                assert forall|p: int| 0 <= p < retained@.len() implies
                                    pre_nodes.subrange(0, rk + 1).contains(
                                    #[trigger] retained@[p],
                                ) by {
                                    if p < pre_ret.len() {
                                        let sub = pre_nodes.subrange(0, rk as int);
                                        assert(sub.contains(pre_ret[p]));
                                        let q = choose|q: int|
                                            0 <= q < sub.len() && sub[q] == pre_ret[p];
                                        assert(pre_nodes.subrange(0, rk + 1)[q] == pre_ret[p]);
                                    } else {
                                        assert(retained@[p] == d2);
                                        assert(pre_nodes.subrange(0, rk + 1)[rk as int] == d2);
                                    }
                                }
                                assert forall|p: int|
                                    0 <= p < rk + 1 && self.edge_contains(
                                        #[trigger] pre_nodes[p],
                                        nb,
                                        target,
                                    ) implies retained@.contains(pre_nodes[p]) by {
                                    if p < rk {
                                        assert(pre_ret.contains(pre_nodes[p]));
                                        let q = choose|q: int|
                                            0 <= q < pre_ret.len() && pre_ret[q] == pre_nodes[p];
                                        assert(retained@[q] == pre_nodes[p]);
                                    } else {
                                        assert(retained@[retained@.len() - 1] == d2);
                                    }
                                }
                            }
                        } else {
                            proof {
                                assert forall|p: int| 0 <= p < retained@.len() implies
                                    pre_nodes.subrange(0, rk + 1).contains(
                                    #[trigger] retained@[p],
                                ) by {
                                    let sub = pre_nodes.subrange(0, rk as int);
                                    assert(sub.contains(retained@[p]));
                                    let q = choose|q: int|
                                        0 <= q < sub.len() && sub[q] == retained@[p];
                                    assert(pre_nodes.subrange(0, rk + 1)[q] == retained@[p]);
                                }
                                assert(!self.edge_contains(d2, nb, target)) by {
                                    assert(self.entry_ok(d2));
                                }
                                assert forall|p: int|
                                    0 <= p < rk + 1 && self.edge_contains(
                                        #[trigger] pre_nodes[p],
                                        nb,
                                        target,
                                    ) implies retained@.contains(pre_nodes[p]) by {
                                    if p == rk as int {
                                        assert(pre_nodes[p] == d2);
                                    }
                                }
                            }
                        }
                        rk = rk + 1;
                    }
                    descendent_nodes = retained;
                    proof {
                        assert(hashes@ =~= pre_hashes.push(nb));
                        assert forall|k: int| 0 <= k < hashes@.len() implies cm.contains_key(
                            #[trigger] hashes@[k],
                        ) && cm[hashes@[k]].number == base_number + k && chain_anc(
                            cm,
                            hashes@[k],
                            base_number,
                        ) == node_key by {
                            if k < hashes@.len() - 1 {
                                assert(hashes@[k] == pre_hashes[k]);
                            } else {
                                assert(hashes@[k] == nb);
                            }
                        }
                        assert forall|k: int| 0 <= k < hashes@.len() implies self.block_has_weight(
                            #[trigger] hashes@[k],
                            (base_number + k) as u64,
                            condition,
                        ) by {
                            if k < hashes@.len() - 1 {
                                assert(hashes@[k] == pre_hashes[k]);
                            } else {
                                assert(hashes@[k] == nb);
                                assert(self.weight_witness(nb_witness, nb, target, condition));
                            }
                        }
                        // every node whose edge still holds the new block was
                        // already tracked and has been retained
                        assert(hashes@.last() == nb);
                        assert forall|k: int| 1 <= k < hashes@.len() implies !self.has(
                            #[trigger] hashes@[k],
                        ) by {
                            if k < hashes@.len() - 1 {
                                assert(hashes@[k] == pre_hashes[k]);
                            } else {
                                assert(hashes@[k] == nb);
                            }
                        }
                        assert(base_number >= bn) by {
                            assert(self.entry_ok(node_key));
                            assert(cm[node_key].number >= bn);
                        }
                        assert forall|k: int| 0 <= k < hashes@.len() implies chain_anc(
                            cm,
                            hashes@.last(),
                            (base_number + k) as u64,
                        ) == #[trigger] hashes@[k] by {
                            if k == hashes@.len() - 1 {
                                assert(hashes@[k] == nb);
                                assert(cm[nb].number == base_number + k);
                            } else {
                                assert(hashes@[k] == pre_hashes[k]);
                                crate::chain::lemma_chain_anc_trans(
                                    cm,
                                    self.base,
                                    bn,
                                    nb,
                                    pre_best,
                                    (base_number + k) as u64,
                                ) ;
                                assert(chain_anc(cm, nb, pre_best) == pre_hashes.last());
                                assert(chain_anc(cm, pre_hashes.last(), (base_number + k) as u64)
                                    == pre_hashes[k]);
                            }
                        }
                        assert forall|d: u64| #[trigger] self.edge_contains(
                            d,
                            hashes@.last(),
                            best_number,
                        ) && self.fc_ok(d, force_constrain) implies descendent_nodes@.contains(
                            d,
                        ) by {
                            assert(self.has(d));
                            assert(self.entry_ok(d));
                            let le = self.anc_of(d).len();
                            let idx2 = self.num(d) - target - 1;
                            assert(self.anc_of(d)[idx2] == nb);
                            if idx2 == le - 1 {
                                assert(self.anc_key(d) == nb);
                                assert(self.has(self.anc_key(d)));
                            }
                            assert(self.num(d) - le < target);
                            assert(self.anc_of(d)[self.num(d) - pre_best - 1] == chain_anc(
                                cm,
                                d,
                                pre_best,
                            ));
                            assert(self.anc_of(d)[idx2] == chain_anc(cm, d, target));
                            assert(pre_best >= bn) by {
                                assert(self.entry_ok(node_key));
                                assert(cm[node_key].number >= bn);
                            }
                            crate::chain::lemma_chain_anc_trans(
                                cm,
                                self.base,
                                bn,
                                d,
                                target,
                                pre_best,
                            ) ;
                            assert(chain_anc(cm, d, pre_best) == chain_anc(cm, nb, pre_best));
                            assert(chain_anc(cm, nb, pre_best) == pre_hashes.last());
                            assert(self.edge_contains(d, pre_hashes.last(), pre_best));
                            assert(pre_nodes.contains(d));
                            let pq = choose|pq: int|
                                0 <= pq < pre_nodes.len() && pre_nodes[pq] == d;
                            assert(descendent_nodes@.contains(pre_nodes[pq]));
                        }
                    }
                },
                None => {
                    proof {
                        {
                            assert(dj == descendent_nodes@.len());
                            assert forall|b: u64, ds: Seq<u64>, upper: u64|
                                upper == best_number + 1 && #[trigger] self.straddling_pair(
                                ds,
                                b,
                                upper,
                                hashes@.last(),
                                best_number,
                                force_constrain,
                            ) implies !passes(condition, self.sum_cum(ds)) by {
                                assert forall|i: int| 0 <= i < ds.len() implies
                                    descendent_nodes@.contains(#[trigger] ds[i]) by {
                                    assert(self.edge_contains(ds[i], hashes@.last(), best_number));
                                    assert(self.fc_ok(ds[i], force_constrain));
                                }
                                assert(descendent_nodes@.contains(ds[0]));
                                let p0 = choose|p: int|
                                    0 <= p < descendent_nodes@.len() && descendent_nodes@[p]
                                        == ds[0];
                                assert(self.edge_contains(descendent_nodes@[p0], b, target));
                                let x = choose|x: int|
                                    0 <= x < blocks@.len() && (#[trigger] blocks@[x]).0 == b
                                        && contribs[x].contains(descendent_nodes@[p0]);
                                assert forall|i: int| 0 <= i < ds.len() implies contribs[
                                x].contains(#[trigger] ds[i]) by {
                                    let p = choose|p: int|
                                        0 <= p < descendent_nodes@.len() && descendent_nodes@[p]
                                            == ds[i];
                                    assert(self.edge_contains(descendent_nodes@[p], b, target));
                                    let x2 = choose|x2: int|
                                        0 <= x2 < blocks@.len() && (#[trigger] blocks@[x2]).0 == b
                                            && contribs[x2].contains(descendent_nodes@[p]);
                                    assert(x2 == x) by {
                                        if x2 < x {
                                            assert(blocks@[x2].0 != blocks@[x].0);
                                        }
                                        if x < x2 {
                                            assert(blocks@[x].0 != blocks@[x2].0);
                                        }
                                    }
                                }
                                assert(ds[0] != ds[1]);
                                assert(contribs[x].contains(ds[0]));
                                assert(contribs[x].contains(ds[1]));
                                assert(contribs[x].len() >= 2) by {
                                    let q0 = choose|q: int|
                                        0 <= q < contribs[x].len() && contribs[x][q] == ds[0];
                                    let q1 = choose|q: int|
                                        0 <= q < contribs[x].len() && contribs[x][q] == ds[1];
                                    assert(q0 != q1);
                                }
                                assert(!passes(condition, blocks@[x].1 as nat));
                                self.lemma_sum_cum_le_subset(ds, contribs[x]);
                                if passes(condition, self.sum_cum(ds)) {
                                    condition.monotone(
                                        self.sum_cum(ds),
                                        self.sum_cum(contribs[x]),
                                    );
                                }
                            }
                        }
                    }
                    break ;
                },
            }
        }
        Subchain { hashes, best_number }
    }

    /// Find the best GHOST descendent of the given block: the block with
    /// highest number for which the cumulative votes of descendents and
    /// itself pass the condition. This assumes that the condition is one
    /// which at most a single descendent of a block can pass, in that only
    /// one fork of a block can be heavy enough to cross a threshold.
    pub fn find_ghost(&self, current_best: Option<(u64, u64)>, condition: Condition) -> (r: Option<
        (u64, u64),
    >)
        requires
            self.wf(),
        ensures
            match current_best {
                None => r is Some <==> passes(condition, self.cum(self.base)),
                Some((h, n)) => {
                    &&& (self.has(h) ==> (r is Some <==> passes(condition, self.cum(h))))
                    &&& (!self.has(h) ==> forall|d: u64|
                        #[trigger] self.edge_contains(d, h, n) ==> (r is Some <==> passes(
                            condition,
                            self.cum(self.anc_key(d)),
                        )))
                    &&& (!self.knows(h, n) ==> r is None)
                },
            },
            match r {
                Some((gh, gn)) => {
                    &&& self.block_has_weight(gh, gn, condition)
                    &&& self.chain_model@.contains_key(gh)
                    &&& self.chain_model@[gh].number == gn
                    &&& (current_best is None ==> gn >= self.base_num())
                    &&& (match current_best {
                        Some((h, n)) => self.has(h) ==> gn >= self.num(h),
                        None => true,
                    })
                    &&& (match current_best {
                        Some((h, n)) => (!self.has(h) && (exists|d: u64|
                            self.edge_contains(d, h, n) && passes(condition, self.cum(d))))
                            ==> gn >= n,
                        None => true,
                    })
                    &&& (forall|b: u64, ds: Seq<u64>, upper: u64, fcc: Option<(u64, u64)>|
                        upper == gn + 1 && fcc == self.search_constraint(current_best)
                            && #[trigger] self.straddling_pair(ds, b, upper, gh, gn, fcc)
                            ==> !passes(condition, self.sum_cum(ds)))
                    &&& (forall|e: u64|
                        self.has(e) && self.entries@[e].number > gn && chain_anc(
                            self.chain_model@,
                            e,
                            gn,
                        ) == gh && self.fc_ok(e, self.search_constraint(current_best)) ==> !passes(
                            condition,
                            #[trigger] self.cum(e),
                        ))
                },
                None => true,
            },
    {
        let ghost cm = self.chain_model@;
        let (node_key0, force0): (u64, bool) = match current_best {
            Some((h, n)) => {
                match self.find_containing_nodes(h, n) {
                    None => (h, false),
                    Some(x) => {
                        if x.len() > 0 {
                            proof {
                                assert(self.edge_contains(x@[0], h, n));
                                self.lemma_containing_bottom(h, n, x@[0]);
                            }
                            let e0 = self.entries.get(&x[0]).unwrap();
                            let a = e0.ancestor_node().unwrap();
                            proof {
                                assert(a == self.anc_key(x@[0]));
                                assert forall|d: u64| #[trigger] self.edge_contains(d, h, n)
                                    implies self.anc_of(d).len() >= 1 && self.anc_key(d) == a by {
                                    self.lemma_containing_share_ancestor(h, n, x@[0], d);
                                }
                                assert(self.has(a)) by {
                                    assert(self.entry_ok(x@[0]));
                                }
                            }
                            (a, true)
                        } else {
                            proof {
                                assert(!self.knows(h, n)) by {
                                    if self.knows(h, n) {
                                        let d = choose|d: u64| self.edge_contains(d, h, n);
                                        assert(x@.contains(d));
                                    }
                                }
                            }
                            return None;
                        }
                    },
                }
            },
            None => (self.base, false),
        };
        let ghost start_num = self.entries@[node_key0].number;
        let mut node_key = node_key0;
        let mut active_node = self.entries.get(&node_key).unwrap();
        if !condition.check(active_node.cumulative_vote) {
            return None;
        }
        let mut constrain = force0;
        loop
            invariant_except_break
                self.wf(),
                cm == self.chain_model@,
                self.has(node_key),
                *active_node == self.entries@[node_key],
                passes(condition, self.cum(node_key)),
                self.entries@[node_key].number >= start_num,
                constrain ==> node_key == node_key0,
                constrain ==> force0,
                force0 ==> current_best is Some,
                (force0 && !constrain) ==> (match current_best {
                    Some((h2, n2)) => self.entries@[node_key].number > n2,
                    None => true,
                }),
                constrain ==> (match current_best {
                    Some((h2, n2)) => forall|d: u64| #[trigger] self.edge_contains(d, h2, n2)
                        ==> self.anc_of(d).len() >= 1 && self.anc_key(d) == node_key,
                    None => true,
                }),
            ensures
                self.wf(),
                self.has(node_key),
                *active_node == self.entries@[node_key],
                passes(condition, self.cum(node_key)),
                self.entries@[node_key].number >= start_num,
                constrain ==> node_key == node_key0,
                constrain ==> force0,
                (force0 && !constrain) ==> (match current_best {
                    Some((h2, n2)) => self.entries@[node_key].number > n2,
                    None => true,
                }),
                constrain ==> (match current_best {
                    Some((h2, n2)) => forall|d: u64| #[trigger] self.edge_contains(d, h2, n2)
                        ==> self.anc_of(d).len() >= 1 && self.anc_key(d) == node_key,
                    None => true,
                }),
                forall|p: int|
                    0 <= p < self.desc_of(node_key).len() ==> !(self.fc_ok(
                        #[trigger] self.desc_of(node_key)[p],
                        if constrain {
                            current_best
                        } else {
                            None
                        },
                    ) && passes(condition, self.cum(self.desc_of(node_key)[p]))),
            decreases u64::MAX - self.entries@[node_key].number,
        {
            let mut next: Option<u64> = None;
            let mut di: usize = 0;
            while di < active_node.descendents.len() && next.is_none()
                invariant
                    self.wf(),
                    self.has(node_key),
                    *active_node == self.entries@[node_key],
                    di <= self.desc_of(node_key).len(),
                    force0 ==> current_best is Some,
                    constrain ==> force0,
                    match next {
                        Some(k) => self.has(k) && passes(condition, self.cum(k))
                            && self.desc_of(node_key).contains(k) && (constrain ==> (
                        match current_best {
                            Some((h2, n2)) => self.edge_contains(k, h2, n2),
                            None => true,
                        })),
                        None => forall|p: int|
                            0 <= p < di ==> !(self.fc_ok(
                                #[trigger] self.desc_of(node_key)[p],
                                if constrain {
                                    current_best
                                } else {
                                    None
                                },
                            ) && passes(condition, self.cum(self.desc_of(node_key)[p]))),
                    },
                decreases self.desc_of(node_key).len() - di,
            {
                let d = active_node.descendents[di];
                proof {
                    assert(self.entry_ok(node_key));
                    assert(self.has(d)) by {
                        assert(self.desc_of(node_key)[di as int] == d);
                    }
                    assert(self.desc_of(node_key).contains(d)) by {
                        assert(self.desc_of(node_key)[di as int] == d);
                    }
                }
                let dn = self.entries.get(&d).unwrap();
                let ok_constrain: bool = if constrain {
                    match current_best {
                        Some((h, n)) => {
                            match dn.in_direct_ancestry(h, n) {
                                Some(true) => true,
                                _ => false,
                            }
                        },
                        None => true,
                    }
                } else {
                    true
                };
                proof {
                    assert(ok_constrain == self.fc_ok(
                        d,
                        if constrain {
                            current_best
                        } else {
                            None
                        },
                    )) by {
                        assert(self.entry_ok(d));
                    }
                }
                if ok_constrain && condition.check(dn.cumulative_vote) {
                    next = Some(d);
                }
                di = di + 1;
            }
            match next {
                Some(k) => {
                    proof {
                        assert(self.entry_ok(k));
                        assert(self.num(k) > self.num(node_key)) by {
                            assert(self.entry_ok(node_key));
                            let i = choose|i: int|
                                0 <= i < self.desc_of(node_key).len() && self.desc_of(node_key)[i]
                                    == k;
                            assert(self.anc_key(k) == node_key);
                        }
                        if constrain {
                            match current_best {
                                Some((h2, n2)) => {
                                    assert(self.edge_contains(k, h2, n2));
                                    assert(self.num(k) > n2);
                                },
                                None => {},
                            }
                        }
                    }
                    constrain = false;
                    node_key = k;
                    active_node = self.entries.get(&node_key).unwrap();
                },
                None => {
                    break ;
                },
            }
        }
        let fc: Option<(u64, u64)> = if constrain {
            current_best
        } else {
            None
        };
        let subchain = self.ghost_find_merge_point(node_key, active_node, fc, condition);
        proof {
            assert(subchain.hashes@.len() >= 1);
        }
        let best = subchain.best();
        match best {
            Some((gh, gn)) => {
                proof {
                    let k = subchain.hashes@.len() - 1;
                    assert(subchain.hashes@.last() == subchain.hashes@[k]);
                    assert(self.block_has_weight(gh, (self.num(node_key) + k) as u64, condition));
                    assert(cm[gh].number == self.num(node_key) + k);
                    // the conditional height bound for a current best inside
                    // an edge: a passing constrained container forces a hop
                    match current_best {
                        Some((h, n)) => {
                            if !self.has(h) && exists|d: u64|
                                self.edge_contains(d, h, n) && passes(condition, self.cum(d)) {
                                let d = choose|d: u64|
                                    self.edge_contains(d, h, n) && passes(
                                        condition,
                                        self.cum(d),
                                    );
                                if constrain {
                                    assert(node_key == node_key0);
                                    self.lemma_containing_share_ancestor(h, n, d, d);
                                    assert(self.anc_key(d) == node_key) by {
                                        assert(self.edge_contains(d, h, n));
                                    }
                                    assert(self.desc_of(node_key).contains(d)) by {
                                        assert(self.entry_ok(d));
                                    }
                                    let p = choose|p: int|
                                        0 <= p < self.desc_of(node_key).len() && self.desc_of(
                                            node_key,
                                        )[p] == d;
                                    assert(self.fc_ok(self.desc_of(node_key)[p], current_best));
                                    assert(false);
                                } else {
                                    assert(force0);
                                    assert(self.entries@[node_key].number > n);
                                    assert(gn >= self.num(node_key));
                                }
                            }
                        },
                        None => {},
                    }
                    // the merge stop clause, under the constraint the search
                    // may still have been holding
                    assert forall|b: u64, ds: Seq<u64>, upper: u64, fcc: Option<(u64, u64)>|
                        upper == gn + 1 && fcc == self.search_constraint(current_best)
                            && #[trigger] self.straddling_pair(
                            ds,
                            b,
                            upper,
                            gh,
                            gn,
                            fcc,
                        ) implies !passes(condition, self.sum_cum(ds)) by {
                        assert(self.straddling_pair(ds, b, upper, gh, gn, fc)) by {
                            assert forall|i: int| 0 <= i < ds.len() implies self.fc_ok(
                                #[trigger] ds[i],
                                fc,
                            ) by {
                                if constrain {
                                    assert(fc == current_best);
                                    assert(fcc == current_best);
                                    assert(self.fc_ok(ds[i], fcc));
                                } else {
                                    assert(fc is None);
                                }
                            }
                        }
                    }
                    // no single vote-node above the result passes either:
                    // it reduces to a frontier node the descent exhausted
                    assert forall|e: u64|
                        self.has(e) && self.entries@[e].number > gn && chain_anc(cm, e, gn) == gh
                            && self.fc_ok(e, self.search_constraint(current_best)) implies !passes(
                        condition,
                        #[trigger] self.cum(e),
                    ) by {
                        if constrain {
                            match current_best {
                                Some((h2, n2)) => {
                                    assert(self.edge_contains(e, h2, n2));
                                    assert(self.anc_of(e).len() >= 1 && self.anc_key(e)
                                        == node_key);
                                    assert(self.desc_of(node_key).contains(e)) by {
                                        assert(self.entry_ok(e));
                                    }
                                    let p = choose|p: int|
                                        0 <= p < self.desc_of(node_key).len() && self.desc_of(
                                            node_key,
                                        )[p] == e;
                                    assert(!(self.fc_ok(
                                        self.desc_of(node_key)[p],
                                        current_best,
                                    ) && passes(condition, self.cum(self.desc_of(node_key)[p]))));
                                },
                                None => {},
                            }
                        } else {
                            assert(gn == self.entries@[node_key].number
                                + subchain.hashes@.len() - 1);
                            self.lemma_entry_above_reduces(e, node_key, subchain.hashes@);
                            let f = choose|f: u64|
                                #[trigger] self.desc_of(node_key).contains(f) && self.has(f)
                                    && self.cum(e) <= self.cum(f);
                            let p = choose|p: int|
                                0 <= p < self.desc_of(node_key).len() && self.desc_of(
                                    node_key,
                                )[p] == f;
                            assert(!(self.fc_ok(self.desc_of(node_key)[p], None) && passes(
                                condition,
                                self.cum(self.desc_of(node_key)[p]),
                            )));
                            if passes(condition, self.cum(e)) {
                                condition.monotone(self.cum(e), self.cum(f));
                            }
                        }
                    }
                }
                Some((gh, gn))
            },
            None => {
                proof {
                    assert(false);
                }
                None
            },
        }
    }

    /// Find the highest block which is an ancestor of or equal to the given
    /// block and which fulfills the condition.
    pub fn find_ancestor(&self, hash: u64, number: u64, condition: Condition) -> (r: Option<
        (u64, u64),
    >)
        requires
            self.wf(),
            self.has(hash) ==> self.num(hash) == number,
        ensures
            r is Some <==> (self.knows(hash, number) && passes(condition, self.cum(self.base))),
            match r {
                Some((ah, an)) => {
                    &&& an <= number
                    &&& self.chain_model@.contains_key(hash)
                    &&& self.chain_model@[hash].number == number
                    &&& self.chain_model@.contains_key(ah)
                    &&& self.chain_model@[ah].number == an
                    &&& chain_anc(self.chain_model@, hash, an) == ah
                    &&& self.block_has_weight(ah, an, condition)
                    &&& (forall|e: u64|
                        self.has(e) && an < self.entries@[e].number <= number && chain_anc(
                            self.chain_model@,
                            hash,
                            self.entries@[e].number,
                        ) == e ==> !passes(condition, #[trigger] self.cum(e)))
                    &&& (an == number || (forall|b: u64, ds: Seq<u64>, upper: u64|
                        upper == an + 1 && #[trigger] self.straddling_pair(
                            ds,
                            b,
                            upper,
                            ah,
                            an,
                            None,
                        ) ==> !passes(condition, self.sum_cum(ds))) || (exists|y: u64|
                        #[trigger] self.chain_model@.contains_key(y) && self.chain_model@[y].number
                            == an + 1 && y != chain_anc(self.chain_model@, hash, (an + 1) as u64)
                            && self.block_has_weight(y, (an + 1) as u64, condition)))
                },
                None => true,
            },
    {
        let ghost cm = self.chain_model@;
        let ghost bn = self.entries@[self.base].number;
        let (node_key0, canonical0): (u64, u64) = match self.find_containing_nodes(hash, number) {
            None => {
                let node = self.entries.get(&hash).unwrap();
                proof {
                    assert(self.entry_ok(hash));
                }
                if condition.check(node.cumulative_vote) {
                    proof {
                        self.lemma_cum_le_base(hash);
                        condition.monotone(self.cum(hash), self.cum(self.base));
                        assert(chain_anc(cm, hash, number) == hash);
                    }
                    return Some((hash, number));
                }
                match node.ancestor_node() {
                    Some(a) => {
                        proof {
                            assert(self.has(a));
                            assert(self.num(a) == self.num(hash) - self.anc_of(hash).len());
                            assert(self.num(a) < number);
                        }
                        (a, hash)
                    },
                    None => {
                        proof {
                            assert(hash == self.base);
                            assert(!passes(condition, self.cum(self.base)));
                        }
                        return None;
                    },
                }
            },
            Some(x) => {
                if x.len() > 0 {
                    proof {
                        assert(self.edge_contains(x@[0], hash, number));
                        self.lemma_containing_bottom(hash, number, x@[0]);
                        assert(self.has(self.anc_key(x@[0]))) by {
                            assert(self.entry_ok(x@[0]));
                        }
                    }
                    let e0 = self.entries.get(&x[0]).unwrap();
                    let a = e0.ancestor_node().unwrap();
                    proof {
                        assert(self.entry_ok(x@[0]));
                        assert(chain_anc(cm, x@[0], number) == hash) by {
                            assert(self.anc_of(x@[0])[self.num(x@[0]) - number - 1] == chain_anc(
                                cm,
                                x@[0],
                                number,
                            ));
                        }
                        assert(self.num(a) == self.num(x@[0]) - self.anc_of(x@[0]).len());
                        assert(self.num(a) < number);
                        assert(self.num(x@[0]) > number);
                    }
                    (a, x[0])
                } else {
                    proof {
                        assert(!self.knows(hash, number)) by {
                            if self.knows(hash, number) {
                                let d = choose|d: u64| self.edge_contains(d, hash, number);
                                assert(x@.contains(d));
                            }
                        }
                    }
                    return None;
                }
            },
        };
        proof {
            // the canonical entry relates to the target block
            assert(self.knows(hash, number));
            assert(cm.contains_key(hash) && cm[hash].number == number) by {
                if self.has(hash) {
                    assert(self.entry_ok(hash));
                } else {
                    assert(self.edge_contains(canonical0, hash, number));
                    self.lemma_containing_bottom(hash, number, canonical0);
                }
            }
            // hash's chain passes through the starting vote-node, and no
            // vote-node passing the condition sits on it above that node
            // and at or under the target height
            assert(chain_anc(cm, hash, self.entries@[node_key0].number) == node_key0) by {
                if self.has(hash) {
                    assert(self.entry_ok(hash));
                    let le = self.anc_of(hash).len();
                    assert(self.anc_of(hash)[le - 1] == chain_anc(
                        cm,
                        hash,
                        (self.num(hash) - 1 - (le - 1)) as u64,
                    ));
                } else {
                    assert(self.entry_ok(canonical0));
                    let le = self.anc_of(canonical0).len();
                    assert(self.anc_of(canonical0)[le - 1] == chain_anc(
                        cm,
                        canonical0,
                        (self.num(canonical0) - 1 - (le - 1)) as u64,
                    ));
                    assert(chain_anc(cm, canonical0, number) == hash) by {
                        assert(self.anc_of(canonical0)[self.num(canonical0) - number - 1]
                            == chain_anc(cm, canonical0, number));
                    }
                    assert(self.entry_ok(node_key0));
                    assert(cm.contains_key(node_key0));
                    assert(cm[node_key0].number == self.entries@[node_key0].number);
                    assert(cm[node_key0].number >= bn);
                    assert(self.entries@[node_key0].number < number);
                    assert(cm[canonical0].number == self.entries@[canonical0].number);
                    assert(number <= cm[canonical0].number);
                    crate::chain::lemma_chain_anc_trans(
                        cm,
                        self.base,
                        bn,
                        canonical0,
                        number,
                        self.entries@[node_key0].number,
                    ) ;
                }
            }
            assert forall|e: u64|
                self.has(e) && self.entries@[node_key0].number < self.entries@[e].number <= number
                    && chain_anc(cm, hash, self.entries@[e].number) == e implies !passes(
                condition,
                #[trigger] self.cum(e),
            ) by {
                assert(self.entry_ok(e));
                let m = self.entries@[e].number;
                assert(cm[e].number == m);
                assert(m >= bn);
                if self.has(hash) {
                    if m == number {
                        assert(chain_anc(cm, hash, m) == hash);
                        assert(e == hash);
                        assert(!passes(condition, self.cum(hash)));
                    } else {
                        assert(self.entry_ok(hash));
                        let k = self.num(hash) - m - 1;
                        assert(self.anc_of(hash)[k] == chain_anc(cm, hash, m));
                        assert(k < self.anc_of(hash).len() - 1);
                        assert(!self.has(self.anc_of(hash)[k]));
                    }
                } else {
                    assert(self.entry_ok(canonical0));
                    assert(chain_anc(cm, canonical0, number) == hash) by {
                        assert(self.anc_of(canonical0)[self.num(canonical0) - number - 1]
                            == chain_anc(cm, canonical0, number));
                    }
                    crate::chain::lemma_chain_anc_trans(cm, self.base, bn, canonical0, number, m) ;
                    assert(chain_anc(cm, canonical0, m) == e);
                    if m == number {
                        assert(e == hash);
                    } else {
                        let k = self.num(canonical0) - m - 1;
                        assert(self.anc_of(canonical0)[k] == chain_anc(cm, canonical0, m));
                        assert(k < self.anc_of(canonical0).len() - 1);
                        assert(!self.has(self.anc_of(canonical0)[k]));
                    }
                }
            }
        }
        let mut node_key = node_key0;
        let mut canonical_key = canonical0;
        let mut active_node = self.entries.get(&node_key).unwrap();
        loop
            invariant_except_break
                self.wf(),
                cm == self.chain_model@,
                bn == self.entries@[self.base].number,
                self.has(node_key),
                self.has(canonical_key),
                *active_node == self.entries@[node_key],
                self.anc_of(canonical_key).len() >= 1,
                self.anc_key(canonical_key) == node_key,
                cm.contains_key(hash) && cm[hash].number == number,
                self.knows(hash, number),
                canonical_key == hash || (self.num(canonical_key) > number && chain_anc(
                    cm,
                    canonical_key,
                    number,
                ) == hash) || (self.num(canonical_key) <= number && chain_anc(
                    cm,
                    hash,
                    self.entries@[canonical_key].number,
                ) == canonical_key),
                self.num(node_key) < number,
                chain_anc(cm, hash, self.entries@[node_key].number) == node_key,
                forall|e: u64|
                    self.has(e) && self.entries@[node_key].number < self.entries@[e].number
                        <= number && chain_anc(cm, hash, self.entries@[e].number) == e ==> !passes(
                        condition,
                        #[trigger] self.cum(e),
                    ),
            ensures
                self.wf(),
                cm == self.chain_model@,
                bn == self.entries@[self.base].number,
                self.has(node_key),
                self.has(canonical_key),
                *active_node == self.entries@[node_key],
                self.anc_of(canonical_key).len() >= 1,
                self.anc_key(canonical_key) == node_key,
                cm.contains_key(hash) && cm[hash].number == number,
                self.knows(hash, number),
                passes(condition, self.cum(node_key)),
                canonical_key == hash || (self.num(canonical_key) > number && chain_anc(
                    cm,
                    canonical_key,
                    number,
                ) == hash) || (self.num(canonical_key) <= number && chain_anc(
                    cm,
                    hash,
                    self.entries@[canonical_key].number,
                ) == canonical_key),
                self.num(node_key) < number,
                chain_anc(cm, hash, self.entries@[node_key].number) == node_key,
                forall|e: u64|
                    self.has(e) && self.entries@[node_key].number < self.entries@[e].number
                        <= number && chain_anc(cm, hash, self.entries@[e].number) == e ==> !passes(
                        condition,
                        #[trigger] self.cum(e),
                    ),
            decreases self.entries@[node_key].number,
        {
            if condition.check(active_node.cumulative_vote) {
                break ;
            }
            match active_node.ancestor_node() {
                Some(a) => {
                    proof {
                        assert(self.entry_ok(node_key));
                        assert(self.has(a));
                        assert(self.num(a) < self.num(node_key));
                        // the old node key becomes canonical: it is an
                        // ancestor of the target or the target itself
                        assert(self.entries@[node_key].number == self.num(canonical_key)
                            - self.anc_of(canonical_key).len()) by {
                            assert(self.entry_ok(canonical_key));
                        }
                        if canonical_key == hash {
                            assert(self.entry_ok(hash));
                            assert(cm[hash].number == self.entries@[hash].number);
                            assert(self.num(hash) == number);
                            assert(chain_anc(cm, hash, self.entries@[node_key].number)
                                == node_key) by {
                                let le = self.anc_of(hash).len();
                                assert(self.entry_ok(hash));
                                assert(self.anc_of(hash)[le - 1] == chain_anc(
                                    cm,
                                    hash,
                                    (self.num(hash) - 1 - (le - 1)) as u64,
                                ));
                            }
                        } else if self.num(canonical_key) > number {
                            assert(chain_anc(cm, canonical_key, number) == hash);
                            assert(chain_anc(
                                cm,
                                canonical_key,
                                self.entries@[node_key].number,
                            ) == node_key) by {
                                let le = self.anc_of(canonical_key).len();
                                assert(self.entry_ok(canonical_key));
                                assert(self.anc_of(canonical_key)[le - 1] == chain_anc(
                                    cm,
                                    canonical_key,
                                    (self.num(canonical_key) - 1 - (le - 1)) as u64,
                                ));
                            }
                            crate::chain::lemma_chain_anc_trans(
                                cm,
                                self.base,
                                bn,
                                canonical_key,
                                number,
                                self.entries@[node_key].number as u64,
                            ) ;
                            assert(chain_anc(cm, hash, self.entries@[node_key].number)
                                == node_key) by {
                                assert(self.num(node_key) >= bn) by {
                                    assert(self.entry_ok(node_key));
                                    assert(cm[node_key].number >= bn);
                                }
                            }
                        } else {
                            assert(chain_anc(cm, hash, self.entries@[canonical_key].number)
                                == canonical_key);
                            assert(chain_anc(
                                cm,
                                canonical_key,
                                self.entries@[node_key].number,
                            ) == node_key) by {
                                let le = self.anc_of(canonical_key).len();
                                assert(self.entry_ok(canonical_key));
                                assert(self.anc_of(canonical_key)[le - 1] == chain_anc(
                                    cm,
                                    canonical_key,
                                    (self.num(canonical_key) - 1 - (le - 1)) as u64,
                                ));
                            }
                            assert(self.num(node_key) >= bn) by {
                                assert(self.entry_ok(node_key));
                                assert(cm[node_key].number >= bn);
                            }
                            crate::chain::lemma_chain_anc_trans(
                                cm,
                                self.base,
                                bn,
                                hash,
                                self.entries@[canonical_key].number as u64,
                                self.entries@[node_key].number as u64,
                            ) ;
                        }
                        // the walk moves one vote-node down: the chain still
                        // passes through the new node, and the node it leaves
                        // behind has just failed the condition
                        let num_old = self.entries@[node_key].number;
                        assert(self.entry_ok(node_key));
                        assert(self.entries@[a].number == num_old - self.anc_of(node_key).len());
                        assert(chain_anc(cm, node_key, self.entries@[a].number) == a) by {
                            let le0 = self.anc_of(node_key).len();
                            assert(self.anc_of(node_key)[le0 - 1] == chain_anc(
                                cm,
                                node_key,
                                (num_old - 1 - (le0 - 1)) as u64,
                            ));
                        }
                        assert(cm[a].number >= bn) by {
                            assert(self.entry_ok(a));
                        }
                        crate::chain::lemma_chain_anc_trans(
                            cm,
                            self.base,
                            bn,
                            hash,
                            num_old,
                            self.entries@[a].number,
                        ) ;
                        assert(chain_anc(cm, hash, self.entries@[a].number) == a);
                        assert(!passes(condition, self.cum(node_key)));
                        assert forall|e: u64|
                            self.has(e) && self.entries@[a].number < self.entries@[e].number
                                <= number && chain_anc(cm, hash, self.entries@[e].number) == e
                            implies !passes(condition, #[trigger] self.cum(e)) by {
                            assert(self.entry_ok(e));
                            let m = self.entries@[e].number;
                            assert(cm[e].number == m);
                            assert(m >= bn);
                            if m > num_old {
                            } else if m == num_old {
                                assert(chain_anc(cm, hash, m) == node_key);
                                assert(e == node_key);
                            } else {
                                crate::chain::lemma_chain_anc_trans(
                                    cm,
                                    self.base,
                                    bn,
                                    hash,
                                    num_old,
                                    m,
                                ) ;
                                assert(chain_anc(cm, node_key, m) == e);
                                let k = num_old - m - 1;
                                assert(self.anc_of(node_key)[k] == chain_anc(cm, node_key, m));
                                assert(k < self.anc_of(node_key).len() - 1);
                                assert(!self.has(self.anc_of(node_key)[k]));
                            }
                        }
                    }
                    canonical_key = node_key;
                    node_key = a;
                    active_node = self.entries.get(&node_key).unwrap();
                },
                None => {
                    proof {
                        assert(self.entry_ok(node_key));
                        assert(node_key == self.base);
                        assert(!passes(condition, self.cum(self.base)));
                    }
                    return None;
                },
            }
        }
        let good_subchain = self.ghost_find_merge_point(node_key, active_node, None, condition);
        let rev = good_subchain.blocks_reverse();
        let ghost num0 = self.entries@[node_key].number;
        let mut i: usize = 0;
        while i < rev.len()
            invariant
                self.wf(),
                cm == self.chain_model@,
                bn == self.entries@[self.base].number,
                self.has(node_key),
                self.has(canonical_key),
                self.anc_of(canonical_key).len() >= 1,
                self.anc_key(canonical_key) == node_key,
                cm.contains_key(hash) && cm[hash].number == number,
                self.knows(hash, number),
                num0 == self.entries@[node_key].number,
                canonical_key == hash || (self.num(canonical_key) > number && chain_anc(
                    cm,
                    canonical_key,
                    number,
                ) == hash) || (self.num(canonical_key) <= number && chain_anc(
                    cm,
                    hash,
                    self.entries@[canonical_key].number,
                ) == canonical_key),
                num0 < number,
                passes(condition, self.cum(node_key)),
                forall|e: u64|
                    self.has(e) && num0 < self.entries@[e].number <= number && chain_anc(
                        cm,
                        hash,
                        self.entries@[e].number,
                    ) == e ==> !passes(condition, #[trigger] self.cum(e)),
                i <= rev@.len(),
                forall|j: int|
                    0 <= j < i ==> !((#[trigger] rev@[j]).1 <= number && self.edge_contains(
                        canonical_key,
                        rev@[j].0,
                        rev@[j].1,
                    )),
                rev@.len() == good_subchain.hashes@.len() >= 1,
                good_subchain.hashes@[0] == node_key,
                good_subchain.best_number == num0 + rev@.len() - 1,
                forall|k: int| 0 <= k < rev@.len() ==> #[trigger] rev@[k] == (
                good_subchain.hashes@[rev@.len() - 1 - k],
                (good_subchain.best_number - k) as u64,
                ),
                forall|k: int|
                    0 <= k < good_subchain.hashes@.len() ==> cm.contains_key(
                        #[trigger] good_subchain.hashes@[k],
                    ) && cm[good_subchain.hashes@[k]].number == num0 + k,
                forall|k: int|
                    0 <= k < good_subchain.hashes@.len() ==> self.block_has_weight(
                        #[trigger] good_subchain.hashes@[k],
                        (num0 + k) as u64,
                        condition,
                    ),
                forall|k: int|
                    1 <= k < good_subchain.hashes@.len() ==> !self.has(
                        #[trigger] good_subchain.hashes@[k],
                    ),
                forall|b: u64, ds: Seq<u64>, upper: u64|
                    upper == good_subchain.best_number + 1 && #[trigger] self.straddling_pair(
                        ds,
                        b,
                        upper,
                        good_subchain.hashes@.last(),
                        good_subchain.best_number,
                        None,
                    ) ==> !passes(condition, self.sum_cum(ds)),
            decreases rev@.len() - i,
        {
            let (good_hash, good_number) = rev[i];
            if good_number <= number {
                let ce = self.entries.get(&canonical_key).unwrap();
                match ce.in_direct_ancestry(good_hash, good_number) {
                    Some(true) => {
                        proof {
                            let k = rev@.len() - 1 - i;
                            assert(good_hash == good_subchain.hashes@[k]);
                            assert(good_number == num0 + k);
                            assert(self.block_has_weight(good_hash, good_number, condition));
                            assert(self.edge_contains(canonical_key, good_hash, good_number));
                            assert(chain_anc(cm, canonical_key, good_number) == good_hash) by {
                                assert(self.entry_ok(canonical_key));
                                assert(self.anc_of(canonical_key)[self.num(canonical_key)
                                    - good_number - 1] == chain_anc(
                                    cm,
                                    canonical_key,
                                    good_number,
                                ));
                            }
                            assert(good_number >= bn);
                            if canonical_key == hash {
                                assert(chain_anc(cm, hash, good_number) == good_hash);
                            } else if self.num(canonical_key) > number {
                                crate::chain::lemma_chain_anc_trans(
                                    cm,
                                    self.base,
                                    bn,
                                    canonical_key,
                                    number,
                                    good_number,
                                ) ;
                            } else {
                                crate::chain::lemma_chain_anc_trans(
                                    cm,
                                    self.base,
                                    bn,
                                    hash,
                                    self.entries@[canonical_key].number as u64,
                                    good_number,
                                ) ;
                                assert(good_number <= self.num(canonical_key)) by {
                                    assert(self.entry_ok(canonical_key));
                                }
                            }
                            assert(chain_anc(cm, hash, good_number) == good_hash);
                            self.lemma_cum_le_base(node_key);
                            condition.monotone(self.cum(node_key), self.cum(self.base));
                            assert(good_number >= num0) by {
                                let k = rev@.len() - 1 - i;
                                assert(good_number == good_subchain.best_number - (i as int));
                            }
                            assert forall|e: u64|
                                self.has(e) && good_number < self.entries@[e].number <= number
                                    && chain_anc(cm, hash, self.entries@[e].number) == e implies
                                !passes(condition, #[trigger] self.cum(e)) by {
                                assert(num0 < self.entries@[e].number);
                            }
                            // what stops the answer one level higher: the
                            // query block itself, the merge stop, or a
                            // diverging heavier branch at that height
                            if i == 0 {
                                assert(good_number == good_subchain.best_number);
                                assert(good_hash == good_subchain.hashes@.last()) by {
                                    assert(rev@[0] == (
                                    good_subchain.hashes@[rev@.len() - 1],
                                    (good_subchain.best_number - 0) as u64,
                                    ));
                                }
                            } else if good_number < number {
                                let y = rev@[i - 1].0;
                                let ky = rev@.len() - 1 - (i - 1);
                                assert(rev@[i - 1] == (
                                good_subchain.hashes@[ky],
                                (good_subchain.best_number - (i - 1)) as u64,
                                ));
                                assert(y == good_subchain.hashes@[ky]);
                                assert(rev@[i - 1].1 == good_number + 1);
                                if rev@[i - 1].1 > number {
                                    assert(good_number >= number);
                                } else {
                                    assert(!self.edge_contains(canonical_key, y, (good_number
                                        + 1) as u64));
                                    assert(ky >= 1);
                                    assert(!self.has(y));
                                    assert(cm.contains_key(y) && cm[y].number == num0 + ky);
                                    assert(cm[y].number == good_number + 1);
                                    assert(self.block_has_weight(
                                        y,
                                        (good_number + 1) as u64,
                                        condition,
                                    )) by {
                                        assert(self.block_has_weight(
                                            good_subchain.hashes@[ky],
                                            (num0 + ky) as u64,
                                            condition,
                                        ));
                                    }
                                    // the block at that height on the input's
                                    // own chain is a different one
                                    let x = chain_anc(cm, hash, (good_number + 1) as u64);
                                    assert(self.entry_ok(canonical_key));
                                    assert(cm[canonical_key].number
                                        == self.entries@[canonical_key].number);
                                    assert(self.entries@[node_key].number
                                        == self.num(canonical_key) - self.anc_of(
                                        canonical_key,
                                    ).len());
                                    assert(num0 >= bn) by {
                                        assert(self.entry_ok(node_key));
                                        assert(cm[node_key].number >= bn);
                                    }
                                    if canonical_key == hash {
                                        assert(self.entry_ok(hash));
                                        assert(self.num(hash) == number);
                                        if good_number + 1 == number {
                                            assert(x == hash);
                                            assert(x == canonical_key);
                                        } else {
                                            let kx = self.num(canonical_key) - (good_number + 1)
                                                - 1;
                                            assert(self.anc_of(canonical_key)[kx] == chain_anc(
                                                cm,
                                                canonical_key,
                                                (good_number + 1) as u64,
                                            ));
                                            assert(self.edge_contains(
                                                canonical_key,
                                                x,
                                                (good_number + 1) as u64,
                                            ));
                                        }
                                    } else if self.num(canonical_key) > number {
                                        assert(chain_anc(cm, canonical_key, number) == hash);
                                        crate::chain::lemma_chain_anc_trans(
                                            cm,
                                            self.base,
                                            bn,
                                            canonical_key,
                                            number,
                                            (good_number + 1) as u64,
                                        ) ;
                                        assert(x == chain_anc(
                                            cm,
                                            canonical_key,
                                            (good_number + 1) as u64,
                                        ));
                                        let kx = self.num(canonical_key) - (good_number + 1) - 1;
                                        assert(self.anc_of(canonical_key)[kx] == chain_anc(
                                            cm,
                                            canonical_key,
                                            (good_number + 1) as u64,
                                        ));
                                        assert(self.edge_contains(
                                            canonical_key,
                                            x,
                                            (good_number + 1) as u64,
                                        ));
                                    } else {
                                        assert(chain_anc(
                                            cm,
                                            hash,
                                            self.entries@[canonical_key].number,
                                        ) == canonical_key);
                                        assert(good_number + 1 <= self.num(canonical_key));
                                        crate::chain::lemma_chain_anc_trans(
                                            cm,
                                            self.base,
                                            bn,
                                            hash,
                                            self.entries@[canonical_key].number as u64,
                                            (good_number + 1) as u64,
                                        ) ;
                                        if good_number + 1 == self.num(canonical_key) {
                                            assert(x == canonical_key);
                                        } else {
                                            let kx = self.num(canonical_key) - (good_number + 1)
                                                - 1;
                                            assert(self.anc_of(canonical_key)[kx] == chain_anc(
                                                cm,
                                                canonical_key,
                                                (good_number + 1) as u64,
                                            ));
                                            assert(self.edge_contains(
                                                canonical_key,
                                                x,
                                                (good_number + 1) as u64,
                                            ));
                                        }
                                    }
                                    assert(y != x) by {
                                        if self.edge_contains(
                                            canonical_key,
                                            x,
                                            (good_number + 1) as u64,
                                        ) {
                                        } else {
                                            assert(x == canonical_key);
                                            assert(self.has(canonical_key));
                                        }
                                    }
                                }
                            }
                        }
                        return Some((good_hash, good_number));
                    },
                    _ => {
                        proof {
                            assert(!self.edge_contains(canonical_key, good_hash, good_number)) by {
                                assert(self.entry_ok(canonical_key));
                            }
                        }
                    },
                }
            }
            i = i + 1;
        }
        proof {
            // the walk always accepts at least the active vote-node itself
            assert(rev@[rev@.len() - 1] == (good_subchain.hashes@[0], num0 as u64));
            assert(num0 <= number);
            assert(self.edge_contains(canonical_key, node_key, num0 as u64)) by {
                assert(self.entry_ok(canonical_key));
                let le = self.anc_of(canonical_key).len();
                assert(self.anc_of(canonical_key)[le - 1] == self.anc_key(canonical_key));
                assert(self.entries@[node_key].number == self.num(canonical_key) - le);
            }
            assert(!(rev@[rev@.len() - 1].1 <= number && self.edge_contains(
                canonical_key,
                rev@[rev@.len() - 1].0,
                rev@[rev@.len() - 1].1,
            )));
            assert(false);
        }
        None
    }

    /// Law: every vote-node's cumulative vote equals the weight cast on its
    /// own block plus the cumulative votes of its direct descendent
    /// vote-nodes.
    pub proof fn lemma_cumulative_vote_sums(self, h: u64)
        requires
            self.wf(),
            self.has(h),
        ensures
            self.cum(h) == self.vote_on(h) + self.sum_cum(self.desc_of(h)),
    {
        assert(self.sums_ok_at(h));
    }

    /// Law: a head never appears in any entry's ancestor list — neither as
    /// the nearest ancestor vote-node (it would then have a descendent) nor
    /// as an inner hash (those are never vote-nodes at all).
    pub proof fn lemma_heads_are_leaves(self, x: u64, d: u64)
        requires
            self.wf(),
            self.heads@.contains(x),
            self.has(d),
        ensures
            forall|k: int| 0 <= k < self.anc_of(d).len() ==> self.anc_of(d)[k] != x,
    {
        let i = choose|i: int| 0 <= i < self.heads@.len() && self.heads@[i] == x;
        assert(self.has(x));
        assert(self.head_ok(x));
        assert(self.desc_of(x).len() == 0);
        assert(self.entry_ok(d));
        assert forall|k: int| 0 <= k < self.anc_of(d).len() implies self.anc_of(d)[k] != x by {
            if k < self.anc_of(d).len() - 1 {
                assert(!self.has(self.anc_of(d)[k]));
            } else {
                if self.anc_of(d)[k] == x {
                    assert(self.desc_of(x).contains(d));
                    let j = choose|j: int|
                        0 <= j < self.desc_of(x).len() && self.desc_of(x)[j] == d;
                }
            }
        }
    }
}

/// Law: adding weight `v1` on a block and then `v2` moves the vote model
/// exactly as adding `v1 + v2` at once.
pub proof fn lemma_vote_twice_is_once(votes: Map<u64, nat>, hash: u64, v1: nat, v2: nat)
    ensures
        bumped(bumped(votes, hash, v1), hash, v2) =~= bumped(votes, hash, v1 + v2),
{
}

/// Law: a block the graph's chain model already holds extends the model by
/// nothing, so a repeated insert leaves the chain model exactly where one
/// insert left it.
pub proof fn lemma_rediscovery_is_noop(
    m: Map<u64, BlockMeta>,
    c: Map<u64, BlockMeta>,
    base: u64,
    base_number: u64,
    block: u64,
)
    requires
        rooted(m, base, base_number),
        chain_map_wf(c),
        chain_sub(m, c, base),
        strict_desc(c, base, block) || block == base,
        m.contains_key(base),
    ensures
        crate::chain::extend_to(
            crate::chain::extend_to(m, c, base, block),
            c,
            base,
            block,
        ) =~= crate::chain::extend_to(m, c, base, block),
{
    if block == base {
        crate::chain::lemma_extend_to_noop(m, c, base, base_number, block);
        crate::chain::lemma_extend_to_noop(
            crate::chain::extend_to(m, c, base, block),
            c,
            base,
            base_number,
            block,
        );
    } else {
        crate::chain::lemma_extend_to_props(m, c, base, base_number, block);
        crate::chain::lemma_extend_to_noop(
            crate::chain::extend_to(m, c, base, block),
            c,
            base,
            base_number,
            block,
        );
    }
}

impl VoteGraph {
    proof fn lemma_entry_above_reduces(self, e: u64, node_key: u64, hs: Seq<u64>)
        requires
            self.wf(),
            self.has(node_key),
            self.has(e),
            hs.len() >= 1,
            hs[0] == node_key,
            forall|k: int| 0 <= k < hs.len() ==> self.chain_model@.contains_key(#[trigger] hs[k])
                && self.chain_model@[hs[k]].number == self.entries@[node_key].number + k,
            forall|k: int| 1 <= k < hs.len() ==> !self.has(#[trigger] hs[k]),
            forall|k: int|
                0 <= k < hs.len() ==> chain_anc(
                    self.chain_model@,
                    hs.last(),
                    (self.entries@[node_key].number + k) as u64,
                ) == #[trigger] hs[k],
            self.entries@[e].number > self.entries@[node_key].number + hs.len() - 1,
            chain_anc(
                self.chain_model@,
                e,
                (self.entries@[node_key].number + hs.len() - 1) as u64,
            ) == hs.last(),
        ensures
            exists|f: u64|
                #[trigger] self.desc_of(node_key).contains(f) && self.has(f) && self.cum(e)
                    <= self.cum(f),
        decreases self.entries@[e].number,
    {
        let cm = self.chain_model@;
        let bn = self.entries@[self.base].number;
        let num0 = self.entries@[node_key].number as int;
        let gn = num0 + hs.len() - 1;
        assert(self.entry_ok(e));
        assert(self.entry_ok(node_key));
        assert(cm[node_key].number >= bn);
        let le = self.anc_of(e).len() as int;
        let bottom = self.num(e) - le;
        assert(e != self.base) by {
            assert(cm[e].number == self.entries@[e].number);
            if e == self.base {
                assert(self.entries@[e].number == bn);
            }
        }
        let a = self.anc_key(e);
        assert(self.has(a));
        assert(self.entries@[a].number == bottom);
        assert(self.entry_ok(a));
        assert(cm[a].number == bottom && cm[a].number >= bn);
        assert(self.anc_of(e)[le - 1] == chain_anc(
            cm,
            e,
            (self.num(e) - 1 - (le - 1)) as u64,
        ));
        assert(a == chain_anc(cm, e, bottom as u64));
        if bottom > gn {
            crate::chain::lemma_chain_anc_trans(
                cm,
                self.base,
                bn,
                e,
                bottom as u64,
                gn as u64,
            ) ;
            assert(chain_anc(cm, a, gn as u64) == hs.last());
            self.lemma_cum_le_anc(e);
            self.lemma_entry_above_reduces(a, node_key, hs);
            let f = choose|f: u64|
                #[trigger] self.desc_of(node_key).contains(f) && self.has(f) && self.cum(a)
                    <= self.cum(f);
            assert(self.cum(e) <= self.cum(f));
        } else if bottom == num0 {
            crate::chain::lemma_chain_anc_trans(cm, self.base, bn, e, gn as u64, bottom as u64) ;
            assert(chain_anc(cm, e, bottom as u64) == chain_anc(cm, hs.last(), num0 as u64));
            assert(chain_anc(cm, hs.last(), num0 as u64) == hs[0]);
            assert(a == node_key);
            assert(self.desc_of(node_key).contains(e));
            assert(self.cum(e) <= self.cum(e));
        } else if bottom > num0 {
            crate::chain::lemma_chain_anc_trans(cm, self.base, bn, e, gn as u64, bottom as u64) ;
            assert(chain_anc(cm, e, bottom as u64) == chain_anc(cm, hs.last(), bottom as u64));
            assert(chain_anc(cm, hs.last(), (num0 + (bottom - num0)) as u64) == hs[bottom
                - num0]);
            assert(a == hs[bottom - num0]);
            assert(!self.has(hs[bottom - num0]));
        } else {
            // the walk's node would sit inside this entry's edge
            crate::chain::lemma_chain_anc_trans(cm, self.base, bn, e, gn as u64, num0 as u64) ;
            assert(chain_anc(cm, e, num0 as u64) == chain_anc(cm, hs.last(), num0 as u64));
            assert(chain_anc(cm, hs.last(), num0 as u64) == hs[0]);
            let k0 = self.num(e) - num0 - 1;
            assert(self.anc_of(e)[k0] == chain_anc(cm, e, (self.num(e) - 1 - k0) as u64));
            assert(self.anc_of(e)[k0] == node_key);
            assert(k0 < le - 1);
            assert(!self.has(self.anc_of(e)[k0]));
        }
    }

    proof fn lemma_known_desc(self, g: VoteGraph, c: Map<u64, BlockMeta>, hash: u64)
        requires
            g.wf(),
            chain_map_wf(c),
            chain_sub(g.chain_model@, c, g.base),
            g.chain_model@.contains_key(hash),
        ensures
            hash == g.base || strict_desc(c, g.base, hash),
    {
        let cm = g.chain_model@;
        let bn = g.entries@[g.base].number;
        assert(g.entry_ok(g.base));
        if hash != g.base {
            assert(cm[hash].number > bn);
            crate::chain::lemma_chain_anc_props(cm, g.base, bn, hash, bn);
            crate::chain::lemma_chain_anc_agree(cm, c, g.base, bn, hash, bn);
            assert(c[g.base].number == bn);
        }
    }

    /// Attempt to find the containing node keys for the given hash and
    /// number: `None` if there is a node by that key already, else every
    /// node with the given block in its ancestor-edge.
    pub fn find_containing_nodes(&self, hash: u64, number: u64) -> (r: Option<Vec<u64>>)
        requires
            self.wf(),
        ensures
            r is None <==> self.has(hash),
            match r {
                Some(v) => {
                    &&& forall|i: int| 0 <= i < v@.len() ==> self.edge_contains(
                        #[trigger] v@[i],
                        hash,
                        number,
                    )
                    &&& forall|i: int, j: int| 0 <= i < j < v@.len() ==> v@[i] != v@[j]
                    &&& forall|d: u64| self.edge_contains(d, hash, number) ==> v@.contains(d)
                },
                None => true,
            },
    {
        if self.entries.contains_key(&hash) {
            return None;
        }
        let mut containing: Vec<u64> = Vec::new();
        let mut visited: Vec<u64> = Vec::new();
        let mut hi: usize = 0;
        while hi < self.heads.len()
            invariant
                self.wf(),
                !self.has(hash),
                hi <= self.heads@.len(),
                forall|k: int| 0 <= k < visited@.len() ==> self.has(#[trigger] visited@[k]),
                forall|k: int| 0 <= k < containing@.len() ==> visited@.contains(
                    #[trigger] containing@[k],
                ),
                forall|k: int| 0 <= k < containing@.len() ==> self.edge_contains(
                    #[trigger] containing@[k],
                    hash,
                    number,
                ),
                forall|i: int, j: int|
                    0 <= i < j < containing@.len() ==> containing@[i] != containing@[j],
                forall|x: u64| #[trigger] visited@.contains(x) && self.edge_contains(
                    x,
                    hash,
                    number,
                ) ==> containing@.contains(x),
                self.visited_closed(visited@, number),
                forall|k: int| 0 <= k < hi ==> visited@.contains(#[trigger] self.heads@[k]),
            decreases self.heads@.len() - hi,
        {
            let mut head = self.heads[hi];
            let ghost first = head;
            let ghost outer_visited = visited@;
            loop
                invariant_except_break
                    self.wf(),
                    !self.has(hash),
                    self.has(head),
                    forall|x: u64| #[trigger] outer_visited.contains(x) ==> visited@.contains(x),
                    forall|k: int| 0 <= k < visited@.len() ==> self.has(#[trigger] visited@[k]),
                    forall|k: int| 0 <= k < containing@.len() ==> visited@.contains(
                        #[trigger] containing@[k],
                    ),
                    forall|k: int| 0 <= k < containing@.len() ==> self.edge_contains(
                        #[trigger] containing@[k],
                        hash,
                        number,
                    ),
                    forall|i: int, j: int|
                        0 <= i < j < containing@.len() ==> containing@[i] != containing@[j],
                    forall|x: u64| #[trigger] visited@.contains(x) && self.edge_contains(
                        x,
                        hash,
                        number,
                    ) ==> containing@.contains(x),
                    self.visited_closed_except(visited@, number, head),
                    visited@.contains(first) || head == first,
                ensures
                    self.wf(),
                    !self.has(hash),
                    forall|x: u64| #[trigger] outer_visited.contains(x) ==> visited@.contains(x),
                    forall|k: int| 0 <= k < visited@.len() ==> self.has(#[trigger] visited@[k]),
                    forall|k: int| 0 <= k < containing@.len() ==> visited@.contains(
                        #[trigger] containing@[k],
                    ),
                    forall|k: int| 0 <= k < containing@.len() ==> self.edge_contains(
                        #[trigger] containing@[k],
                        hash,
                        number,
                    ),
                    forall|i: int, j: int|
                        0 <= i < j < containing@.len() ==> containing@[i] != containing@[j],
                    forall|x: u64| #[trigger] visited@.contains(x) && self.edge_contains(
                        x,
                        hash,
                        number,
                    ) ==> containing@.contains(x),
                    self.visited_closed(visited@, number),
                    visited@.contains(first),
                decreases self.num(head),
            {
                let e = self.entries.get(&head).unwrap();
                let found = vec_has(&visited, head);
                if found {
                    proof {
                        assert forall|x: u64| visited@.contains(x) && self.case_continue(x, number)
                            implies visited@.contains(self.anc_key(x)) by {
                            assert(self.visited_closed_except(visited@, number, head));
                        }
                    }
                    break ;
                }
                let ghost pre_visited = visited@;
                let ghost pre_containing = containing@;
                visited.push(head);
                proof {
                    assert(visited@ =~= pre_visited.push(head));
                    assert(visited@.contains(head)) by {
                        assert(visited@[visited@.len() - 1] == head);
                    }
                    assert forall|x: u64| pre_visited.contains(x) implies visited@.contains(x) by {
                        let k = choose|k: int| 0 <= k < pre_visited.len() && pre_visited[k] == x;
                        assert(visited@[k] == x);
                    }
                    assert forall|x: u64| visited@.contains(x) && x != head implies
                        pre_visited.contains(x) by {
                        let k = choose|k: int| 0 <= k < visited@.len() && visited@[k] == x;
                        assert(k < pre_visited.len());
                        assert(pre_visited[k] == x);
                    }
                    assert(!pre_visited.contains(head));
                }
                match e.in_direct_ancestry(hash, number) {
                    Some(true) => {
                        proof {
                            assert(self.edge_contains(head, hash, number));
                            assert(!self.case_continue(head, number));
                            assert(!pre_containing.contains(head)) by {
                                if pre_containing.contains(head) {
                                    let k = choose|k: int|
                                        0 <= k < pre_containing.len() && pre_containing[k] == head;
                                    assert(pre_visited.contains(pre_containing[k]));
                                }
                            }
                        }
                        containing.push(head);
                        proof {
                            assert(containing@ =~= pre_containing.push(head));
                            assert(containing@.contains(head)) by {
                                assert(containing@[containing@.len() - 1] == head);
                            }
                            assert forall|x: u64| pre_containing.contains(x) implies
                                containing@.contains(x) by {
                                let k = choose|k: int|
                                    0 <= k < pre_containing.len() && pre_containing[k] == x;
                                assert(containing@[k] == x);
                            }
                            assert forall|x: u64| visited@.contains(x) && self.edge_contains(
                                x,
                                hash,
                                number,
                            ) implies containing@.contains(x) by {
                                if x != head {
                                    assert(pre_visited.contains(x));
                                    assert(pre_containing.contains(x));
                                }
                            }
                            assert forall|i: int, j: int|
                                0 <= i < j < containing@.len() implies containing@[i]
                                != containing@[j] by {
                                if j == containing@.len() - 1 {
                                    assert(pre_visited.contains(pre_containing[i]));
                                }
                            }
                            assert forall|x: u64| visited@.contains(x) && self.case_continue(
                                x,
                                number,
                            ) implies visited@.contains(self.anc_key(x)) by {
                                assert(x != head);
                                assert(pre_visited.contains(x));
                            }
                        }
                        break ;
                    },
                    Some(false) => {
                        proof {
                            assert(!self.edge_contains(head, hash, number)) by {
                                assert(self.entry_ok(head));
                            }
                            assert(!self.case_continue(head, number));
                            assert forall|x: u64| visited@.contains(x) && self.edge_contains(
                                x,
                                hash,
                                number,
                            ) implies containing@.contains(x) by {
                                assert(x != head);
                                assert(pre_visited.contains(x));
                            }
                            assert forall|x: u64| visited@.contains(x) && self.case_continue(
                                x,
                                number,
                            ) implies visited@.contains(self.anc_key(x)) by {
                                assert(x != head);
                                assert(pre_visited.contains(x));
                            }
                        }
                        break ;
                    },
                    None => {
                        match e.ancestor_node() {
                            Some(prev) => {
                                proof {
                                    assert(self.entry_ok(head));
                                    assert(self.case_continue(head, number));
                                    assert(self.num(prev) < self.num(head));
                                    assert(!self.edge_contains(head, hash, number));
                                    assert forall|x: u64| visited@.contains(x)
                                        && self.edge_contains(x, hash, number) implies
                                        containing@.contains(x) by {
                                        assert(x != head);
                                        assert(pre_visited.contains(x));
                                    }
                                    assert forall|x: u64| visited@.contains(x)
                                        && self.case_continue(x, number) implies visited@.contains(
                                        self.anc_key(x),
                                    ) || self.anc_key(x) == prev by {
                                        if x != head {
                                            assert(pre_visited.contains(x));
                                        }
                                    }
                                }
                                head = prev;
                            },
                            None => {
                                proof {
                                    assert(self.entry_ok(head));
                                    assert(!self.case_continue(head, number));
                                    assert(!self.edge_contains(head, hash, number));
                                    assert forall|x: u64| visited@.contains(x)
                                        && self.edge_contains(x, hash, number) implies
                                        containing@.contains(x) by {
                                        assert(x != head);
                                        assert(pre_visited.contains(x));
                                    }
                                    assert forall|x: u64| visited@.contains(x)
                                        && self.case_continue(x, number) implies visited@.contains(
                                        self.anc_key(x),
                                    ) by {
                                        assert(x != head);
                                        assert(pre_visited.contains(x));
                                    }
                                }
                                break ;
                            },
                        }
                    },
                }
            }
            hi = hi + 1;
        }
        proof {
            assert forall|d: u64| self.edge_contains(d, hash, number) implies containing@.contains(
                d,
            ) by {
                self.lemma_head_above(d);
                let h = self.head_above(d);
                self.lemma_path_props(h);
                let p = self.node_path(h);
                let i = choose|i: int| 0 <= i < p.len() && p[i] == d;
                let k = choose|k: int| 0 <= k < self.heads@.len() && self.heads@[k] == h;
                assert(visited@.contains(h));
                assert forall|j: int| 0 <= j < i implies self.case_continue(
                    #[trigger] p[j],
                    number,
                ) by {
                    assert(self.entry_ok(p[j]));
                    assert(p[j] != self.base && self.anc_key(p[j]) == p[j + 1]);
                    assert(self.num(p[j]) - self.anc_of(p[j]).len() == self.num(p[j + 1]));
                    if j + 1 < i {
                        assert(self.num(p[j + 1]) > self.num(p[i]));
                    }
                    assert(self.num(p[j + 1]) >= self.num(d));
                    assert(number < self.num(d));
                }
                self.lemma_path_visited(h, i, visited@, number);
            }
        }
        Some(containing)
    }
}

} // verus!
