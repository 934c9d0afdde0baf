//! The block tree that votes refer to: a mathematical model of ancestry
//! (each block has a parent one height below it), the `Chain` interface the
//! environment provides, and an in-memory chain used by tests and drivers.

use std::collections::HashMap;
use vstd::prelude::*;

use crate::Error;

verus! {

broadcast use vstd::std_specs::hash::group_hash_axioms;

/// What a chain knows of one block: its parent's hash and its height.
/// A root block is marked by being its own parent.
#[derive(Clone, Copy, PartialEq, Eq, Structural, Debug)]
pub struct BlockMeta {
    pub parent: u64,
    pub number: u64,
}

/// The parent link of one block is sound: either `b` is a root, or its
/// parent is known and sits exactly one height below it.
pub open spec fn block_link_ok(m: Map<u64, BlockMeta>, b: u64) -> bool {
    m[b].parent == b || (m.contains_key(m[b].parent) && m[m[b].parent].number + 1 == m[b].number)
}

/// Every known block's parent link is sound.
pub open spec fn chain_map_wf(m: Map<u64, BlockMeta>) -> bool {
    forall|b: u64| m.contains_key(b) ==> #[trigger] block_link_ok(m, b)
}

/// `base` is the unique root, every block sits at or above it, and no block
/// other than `base` sits at its height.
pub open spec fn rooted(m: Map<u64, BlockMeta>, base: u64, base_number: u64) -> bool {
    &&& chain_map_wf(m)
    &&& m.contains_key(base)
    &&& m[base].number == base_number
    &&& m[base].parent == base
    &&& forall|b: u64| #[trigger] m.contains_key(b) && b != base ==> m[b].number > base_number
        && m[b].parent != b
}

/// The block reached from `b` by walking `k` parent links.
pub open spec fn walk_up(m: Map<u64, BlockMeta>, b: u64, k: nat) -> u64
    decreases k,
{
    if k == 0 {
        b
    } else {
        walk_up(m, m[b].parent, (k - 1) as nat)
    }
}

/// The ancestor of `b` at height `n` (or `b` itself when `n` is not below it).
pub open spec fn chain_anc(m: Map<u64, BlockMeta>, b: u64, n: u64) -> u64 {
    if m.contains_key(b) && m[b].number > n {
        walk_up(m, b, (m[b].number - n) as nat)
    } else {
        b
    }
}

/// `anc` lies on the chain from `desc` down to the root, or equals it.
pub open spec fn in_chain(m: Map<u64, BlockMeta>, anc: u64, desc: u64) -> bool {
    &&& m.contains_key(anc)
    &&& m.contains_key(desc)
    &&& m[anc].number <= m[desc].number
    &&& chain_anc(m, desc, m[anc].number) == anc
}

/// `block` is a strict descendant of `base`.
pub open spec fn strict_desc(m: Map<u64, BlockMeta>, base: u64, block: u64) -> bool {
    &&& m.contains_key(base)
    &&& m.contains_key(block)
    &&& m[base].number < m[block].number
    &&& chain_anc(m, block, m[base].number) == base
}

/// Hashes from `block`'s parent down to the block at height `stop_number`,
/// inclusive: index `k` holds the ancestor at height `number(block) - 1 - k`.
pub open spec fn ancestry_seq(m: Map<u64, BlockMeta>, block: u64, stop_number: u64) -> Seq<u64> {
    Seq::new(
        (m[block].number - stop_number) as nat,
        |k: int| chain_anc(m, block, (m[block].number - 1 - k) as u64),
    )
}

/// `m` agrees with `c` wherever `m` is defined (`base`'s parent excepted:
/// a graph rooted there does not care what lies below).
pub open spec fn chain_sub(m: Map<u64, BlockMeta>, c: Map<u64, BlockMeta>, base: u64) -> bool {
    forall|b: u64| #[trigger] m.contains_key(b) ==> c.contains_key(b) && c[b].number == m[b].number
        && (b != base ==> c[b].parent == m[b].parent)
}

pub proof fn lemma_walk_up_add(m: Map<u64, BlockMeta>, b: u64, j: nat, k: nat)
    ensures
        walk_up(m, b, j + k) == walk_up(m, walk_up(m, b, j), k),
    decreases j,
{
    if j > 0 {
        lemma_walk_up_add(m, m[b].parent, (j - 1) as nat, k);
    }
}

pub proof fn lemma_walk_up_in(m: Map<u64, BlockMeta>, base: u64, base_number: u64, b: u64, k: nat)
    requires
        rooted(m, base, base_number),
        m.contains_key(b),
        k <= m[b].number - base_number,
    ensures
        m.contains_key(walk_up(m, b, k)),
        m[walk_up(m, b, k)].number == m[b].number - k,
    decreases k,
{
    if k > 0 {
        assert(b != base);
        assert(block_link_ok(m, b));
        lemma_walk_up_in(m, base, base_number, m[b].parent, (k - 1) as nat);
    }
}

pub proof fn lemma_chain_anc_props(
    m: Map<u64, BlockMeta>,
    base: u64,
    base_number: u64,
    b: u64,
    n: u64,
)
    requires
        rooted(m, base, base_number),
        m.contains_key(b),
        base_number <= n <= m[b].number,
    ensures
        m.contains_key(chain_anc(m, b, n)),
        m[chain_anc(m, b, n)].number == n,
        n == base_number ==> chain_anc(m, b, n) == base,
        n == m[b].number ==> chain_anc(m, b, n) == b,
{
    if m[b].number > n {
        lemma_walk_up_in(m, base, base_number, b, (m[b].number - n) as nat);
    }
    if n == base_number && chain_anc(m, b, n) != base {
        assert(m[chain_anc(m, b, n)].number > base_number);
    }
}

pub proof fn lemma_chain_anc_trans(
    m: Map<u64, BlockMeta>,
    base: u64,
    base_number: u64,
    b: u64,
    n1: u64,
    n2: u64,
)
    requires
        rooted(m, base, base_number),
        m.contains_key(b),
        base_number <= n2 <= n1 <= m[b].number,
    ensures
        chain_anc(m, b, n2) == chain_anc(m, chain_anc(m, b, n1), n2),
{
    let a1 = chain_anc(m, b, n1);
    lemma_chain_anc_props(m, base, base_number, b, n1);
    if n1 < m[b].number {
        if n2 < n1 {
            lemma_walk_up_add(m, b, (m[b].number - n1) as nat, (n1 - n2) as nat);
        }
    }
}

pub proof fn lemma_chain_anc_agree(
    m: Map<u64, BlockMeta>,
    c: Map<u64, BlockMeta>,
    base: u64,
    base_number: u64,
    b: u64,
    n: u64,
)
    requires
        rooted(m, base, base_number),
        chain_sub(m, c, base),
        m.contains_key(b),
        base_number <= n <= m[b].number,
    ensures
        chain_anc(c, b, n) == chain_anc(m, b, n),
    decreases m[b].number - n,
{
    if m[b].number > n {
        assert(b != base);
        assert(block_link_ok(m, b));
        let p = m[b].parent;
        assert(m.contains_key(p) && m[p].number + 1 == m[b].number);
        lemma_chain_anc_agree(m, c, base, base_number, p, n);
        assert(walk_up(c, b, (c[b].number - n) as nat) == walk_up(
            c,
            p,
            (c[b].number - n - 1) as nat,
        ));
        if c[p].number > n {
            assert(chain_anc(c, p, n) == walk_up(c, p, (c[p].number - n) as nat));
        }
        assert(walk_up(m, b, (m[b].number - n) as nat) == walk_up(
            m,
            p,
            (m[b].number - n - 1) as nat,
        ));
    }
}

/// A parent walk that lands on a block of the right height never stalled at
/// a root, so every intermediate block is known with the expected height.
pub proof fn lemma_walk_clean(m: Map<u64, BlockMeta>, b: u64, k: nat, j: nat)
    requires
        chain_map_wf(m),
        m.contains_key(b),
        m.contains_key(walk_up(m, b, k)),
        m[walk_up(m, b, k)].number == m[b].number - k,
        j <= k,
    ensures
        m.contains_key(walk_up(m, b, j)),
        m[walk_up(m, b, j)].number == m[b].number - j,
    decreases k,
{
    if k > 0 {
        assert(block_link_ok(m, b));
        let p = m[b].parent;
        if p == b {
            lemma_walk_up_root(m, b, k);
            assert(walk_up(m, b, k) == b);
            assert(m[b].number == m[b].number - k);
        } else {
            assert(walk_up(m, b, k) == walk_up(m, p, (k - 1) as nat));
            if j > 0 {
                lemma_walk_clean(m, p, (k - 1) as nat, (j - 1) as nat);
                assert(walk_up(m, b, j) == walk_up(m, p, (j - 1) as nat));
            }
        }
    }
}

/// Both ends and every middle of an ancestor-or-self relation: from a
/// descendant that reaches `anc`, every height between them is reached too.
pub proof fn lemma_in_chain_mid(m: Map<u64, BlockMeta>, anc: u64, desc: u64, n: u64)
    requires
        chain_map_wf(m),
        in_chain(m, anc, desc),
        m[anc].number <= n <= m[desc].number,
    ensures
        m.contains_key(chain_anc(m, desc, n)),
        m[chain_anc(m, desc, n)].number == n,
        in_chain(m, anc, chain_anc(m, desc, n)),
        in_chain(m, chain_anc(m, desc, n), desc),
{
    let k = (m[desc].number - m[anc].number) as nat;
    let j = (m[desc].number - n) as nat;
    if m[desc].number > m[anc].number {
        lemma_walk_clean(m, desc, k, j);
        let mid = chain_anc(m, desc, n);
        assert(mid == walk_up(m, desc, j));
        if n > m[anc].number {
            lemma_walk_up_add(m, desc, j, (k - j) as nat);
            assert(chain_anc(m, mid, m[anc].number) == walk_up(m, mid, (n - m[anc].number) as nat));
        }
    }
}

/// The map that adds to `m` every block on the chain of `c` between `base`
/// and `block`, with the metadata `c` gives it.
pub open spec fn extend_to(
    m: Map<u64, BlockMeta>,
    c: Map<u64, BlockMeta>,
    base: u64,
    block: u64,
) -> Map<u64, BlockMeta> {
    Map::new(
        |b: u64| m.contains_key(b) || (in_chain(c, base, b) && in_chain(c, b, block)),
        |b: u64|
            if m.contains_key(b) {
                m[b]
            } else {
                c[b]
            },
    )
}

/// Extending a rooted discovered chain along a chain of `c` keeps it rooted
/// and in agreement with `c`, and preserves what it already held.
pub proof fn lemma_extend_to_props(
    m: Map<u64, BlockMeta>,
    c: Map<u64, BlockMeta>,
    base: u64,
    base_number: u64,
    block: u64,
)
    requires
        rooted(m, base, base_number),
        chain_map_wf(c),
        chain_sub(m, c, base),
        strict_desc(c, base, block),
    ensures
        rooted(extend_to(m, c, base, block), base, base_number),
        chain_sub(extend_to(m, c, base, block), c, base),
        forall|b: u64| #[trigger] m.contains_key(b) ==> extend_to(
            m,
            c,
            base,
            block,
        ).contains_key(b) && extend_to(m, c, base, block)[b] == m[b],
        extend_to(m, c, base, block).contains_key(block),
        extend_to(m, c, base, block)[block] == c[block],
{
    let x = extend_to(m, c, base, block);
    assert(c[base].number == base_number);
    assert(in_chain(c, base, block)) by {
        assert(chain_anc(c, block, c[base].number) == base);
    }
    assert(in_chain(c, block, block)) by {
        assert(chain_anc(c, block, c[block].number) == block);
    }
    assert(x.contains_key(block));
    assert(!m.contains_key(block) ==> x[block] == c[block]);
    assert(m.contains_key(block) ==> x[block] == m[block] && m[block] == c[block]);
    assert forall|b: u64| x.contains_key(b) && b != base implies x[b].number > base_number
        && x[b].parent != b by {
        if m.contains_key(b) {
        } else {
            assert(in_chain(c, base, b) && in_chain(c, b, block));
            assert(x[b] == c[b]);
            if c[b].number == base_number {
                assert(chain_anc(c, b, c[base].number) == b);
            }
            assert(c[b].number > base_number);
            if c[b].parent == b {
                lemma_walk_up_root(c, b, (c[b].number - base_number) as nat);
                assert(chain_anc(c, b, c[base].number) == b);
            }
        }
    }
    assert forall|b: u64| x.contains_key(b) implies block_link_ok(x, b) by {
        if m.contains_key(b) {
            assert(block_link_ok(m, b));
            if m[b].parent != b {
                assert(x.contains_key(m[b].parent) && x[m[b].parent] == m[m[b].parent]);
            }
        } else {
            assert(in_chain(c, base, b) && in_chain(c, b, block));
            assert(b != base && c[b].number > base_number);
            assert(block_link_ok(c, b));
            assert(c[b].parent != b) by {
                if c[b].parent == b {
                    lemma_walk_up_root(c, b, (c[b].number - base_number) as nat);
                    assert(chain_anc(c, b, c[base].number) == b);
                }
            }
            let p = c[b].parent;
            assert(chain_anc(c, b, (c[b].number - 1) as u64) == p) by {
                assert(walk_up(c, b, 1) == walk_up(c, p, 0));
            }
            lemma_in_chain_mid(c, base, b, (c[b].number - 1) as u64);
            assert(in_chain(c, base, p));
            assert(in_chain(c, p, block)) by {
                lemma_in_chain_mid(c, b, block, c[b].number);
                assert(chain_anc(c, block, c[b].number) == b);
                let j = (c[block].number - c[b].number) as nat;
                lemma_walk_clean(c, block, (c[block].number - base_number) as nat, (j + 1) as nat);
                lemma_walk_up_add(c, block, j, 1);
                assert(walk_up(c, block, j) == b) by {
                    if c[block].number > c[b].number {
                    } else {
                        assert(block == b);
                    }
                }
                assert(walk_up(c, b, 1) == p);
                assert(chain_anc(c, block, (c[b].number - 1) as u64) == walk_up(
                    c,
                    block,
                    (j + 1) as nat,
                ));
            }
            assert(x.contains_key(p));
            assert(x[p].number + 1 == x[b].number) by {
                if m.contains_key(p) {
                    assert(c[p].number == m[p].number);
                }
            }
        }
    }
}

/// Extending by a block the chain already holds changes nothing.
pub proof fn lemma_extend_to_noop(
    m: Map<u64, BlockMeta>,
    c: Map<u64, BlockMeta>,
    base: u64,
    base_number: u64,
    block: u64,
)
    requires
        rooted(m, base, base_number),
        chain_map_wf(c),
        chain_sub(m, c, base),
        m.contains_key(block),
        strict_desc(c, base, block) || block == base,
    ensures
        extend_to(m, c, base, block) =~= m,
{
    let x = extend_to(m, c, base, block);
    assert forall|b: u64| #[trigger] x.dom().contains(b) implies m.dom().contains(b) by {
        assert(x.contains_key(b));
        if !m.contains_key(b) {
            assert(in_chain(c, base, b) && in_chain(c, b, block));
            assert(c[base].number == base_number);
            assert(m[block].number == c[block].number);
            assert(base_number <= c[b].number <= m[block].number);
            lemma_chain_anc_agree(m, c, base, base_number, block, c[b].number);
            lemma_chain_anc_props(m, base, base_number, block, c[b].number);
            assert(chain_anc(c, block, c[b].number) == b);
            assert(m.contains_key(chain_anc(m, block, c[b].number)));
        }
    }
    assert forall|b: u64| #[trigger] m.dom().contains(b) implies x.dom().contains(b) by {
        assert(m.contains_key(b));
        assert(x.contains_key(b));
    }
    assert(x.dom() =~= m.dom());
    assert(x =~= m);
}

/// External view of a block store: ancestry queries against the model
/// `blocks()`. Implementations answer from local storage; the environment
/// of a voter provides one.
pub trait Chain: Sized {
    /// The blocks this chain knows, with their parents and heights.
    spec fn blocks(&self) -> Map<u64, BlockMeta>;

    /// The chain of hashes from `block`'s parent down to and including
    /// `base`; fails when `block` is not a strict descendant of `base`.
    fn ancestry(&self, base: u64, block: u64) -> (r: Result<Vec<u64>, Error>)
        requires
            chain_map_wf(self.blocks()),
        ensures
            match r {
                Ok(v) => strict_desc(self.blocks(), base, block) && v@ == ancestry_seq(
                    self.blocks(),
                    block,
                    self.blocks()[base].number,
                ),
                Err(e) => e == Error::NotDescendent && !strict_desc(self.blocks(), base, block),
            },
    ;

    /// Whether `base` equals `block` or lies in its ancestry.
    fn is_equal_or_descendent_of(&self, base: u64, block: u64) -> (r: bool)
        requires
            chain_map_wf(self.blocks()),
        ensures
            r == in_chain(self.blocks(), base, block),
    ;

    /// The head of the locally best chain that contains `base`, if any.
    fn best_chain_containing(&self, base: u64) -> (r: Option<(u64, u64)>)
        requires
            chain_map_wf(self.blocks()),
        ensures
            match r {
                Some((h, n)) => in_chain(self.blocks(), base, h) && n == self.blocks()[h].number,
                None => true,
            },
    ;
}

pub proof fn lemma_walk_up_root(m: Map<u64, BlockMeta>, r: u64, k: nat)
    requires
        m[r].parent == r,
    ensures
        walk_up(m, r, k) == r,
    decreases k,
{
    if k > 0 {
        lemma_walk_up_root(m, r, (k - 1) as nat);
    }
}

/// The first `i` blocks of a pushed run sit in `m` as a chain of children
/// of `parent`, whose height is `pn`.
pub open spec fn pushed_run(
    m: Map<u64, BlockMeta>,
    parent: u64,
    pn: u64,
    hashes: Seq<u64>,
    i: int,
) -> bool
    decreases i,
{
    i <= 0 || (m.contains_key(hashes[i - 1]) && m[hashes[i - 1]] == (BlockMeta {
        parent: if i == 1 {
            parent
        } else {
            hashes[i - 2]
        },
        number: (pn + i) as u64,
    }) && pushed_run(m, parent, pn, hashes, i - 1))
}

proof fn lemma_pushed_run_insert(
    m: Map<u64, BlockMeta>,
    parent: u64,
    pn: u64,
    hashes: Seq<u64>,
    i: int,
    h: u64,
    meta: BlockMeta,
)
    requires
        pushed_run(m, parent, pn, hashes, i),
        i <= hashes.len(),
        forall|k: int| 0 <= k < i ==> hashes[k] != h,
    ensures
        pushed_run(m.insert(h, meta), parent, pn, hashes, i),
    decreases i,
{
    if i > 0 {
        assert(hashes[i - 1] != h);
        lemma_pushed_run_insert(m, parent, pn, hashes, i - 1, h, meta);
    }
}

proof fn lemma_pushed_run_index(
    m: Map<u64, BlockMeta>,
    parent: u64,
    pn: u64,
    hashes: Seq<u64>,
    i: int,
    k: int,
)
    requires
        pushed_run(m, parent, pn, hashes, i),
        0 <= k < i,
    ensures
        m.contains_key(hashes[k]),
        m[hashes[k]] == (BlockMeta {
            parent: if k == 0 {
                parent
            } else {
                hashes[k - 1]
            },
            number: (pn + 1 + k) as u64,
        }),
    decreases i,
{
    if k < i - 1 {
        lemma_pushed_run_index(m, parent, pn, hashes, i - 1, k);
    }
}

/// Every block of a pushed run is known to `m`, as a chain of children of
/// `parent`, whose height is `pn`.
pub open spec fn pushed_seq_ok(
    m: Map<u64, BlockMeta>,
    parent: u64,
    pn: int,
    hashes: Seq<u64>,
) -> bool {
    forall|i: int| 0 <= i < hashes.len() ==> m.contains_key(hashes[i]) && m[hashes[i]].parent == (
    if i == 0 {
        parent
    } else {
        hashes[i - 1]
    }) && m[hashes[i]].number == pn + 1 + i
}

/// A chain held in memory: blocks are pushed as children of known blocks,
/// and the highest pushed block is remembered as the best head.
pub struct MemChain {
    pub store: HashMap<u64, BlockMeta>,
    pub best: u64,
}

impl MemChain {
    /// A chain holding only its root block.
    pub fn new(genesis: u64, number: u64) -> (c: MemChain)
        ensures
            c.store@ == Map::<u64, BlockMeta>::empty().insert(
                genesis,
                BlockMeta { parent: genesis, number },
            ),
            rooted(c.store@, genesis, number),
            c.best == genesis,
    {
        let mut store: HashMap<u64, BlockMeta> = HashMap::new();
        store.insert(genesis, BlockMeta { parent: genesis, number });
        MemChain { store, best: genesis }
    }

    /// The height of a known block.
    pub fn number(&self, hash: u64) -> (n: u64)
        requires
            self.store@.contains_key(hash),
        ensures
            n == self.store@[hash].number,
    {
        self.store.get(&hash).unwrap().number
    }

    /// Append a run of fresh blocks, each the child of the one before it,
    /// the first a child of `parent`. The last block becomes the best head
    /// if it is at least as high as the current one.
    pub fn push_blocks(&mut self, parent: u64, hashes: &[u64])
        requires
            chain_map_wf(old(self).store@),
            old(self).store@.contains_key(parent),
            old(self).store@[parent].number + hashes@.len() <= u64::MAX,
            forall|i: int| 0 <= i < hashes@.len() ==> !old(self).store@.contains_key(hashes@[i]),
            forall|i: int, j: int| 0 <= i < j < hashes@.len() ==> hashes@[i] != hashes@[j],
        ensures
            chain_map_wf(final(self).store@),
            forall|b: u64| #[trigger] old(self).store@.contains_key(b)
                ==> final(self).store@.contains_key(b)
                && final(self).store@[b] == old(self).store@[b],
            forall|b: u64| #[trigger] final(self).store@.contains_key(b)
                ==> old(self).store@.contains_key(b) || hashes@.contains(b),
            pushed_seq_ok(
                final(self).store@,
                parent,
                old(self).store@[parent].number as int,
                hashes@,
            ),
    {
        let ghost old_map = self.store@;
        let pn = self.store.get(&parent).unwrap().number;
        let mut i: usize = 0;
        let mut prev: u64 = parent;
        while i < hashes.len()
            invariant
                chain_map_wf(self.store@),
                i <= hashes@.len(),
                pn == old_map[parent].number,
                pn + hashes@.len() <= u64::MAX,
                old_map.contains_key(parent),
                prev == if i == 0 {
                    parent
                } else {
                    hashes@[i - 1]
                },
                self.store@.contains_key(prev),
                self.store@[prev].number == pn + i,
                self.best == old(self).best,
                forall|k: int| 0 <= k < hashes@.len() ==> !old_map.contains_key(hashes@[k]),
                forall|k: int, j: int| 0 <= k < j < hashes@.len() ==> hashes@[k] != hashes@[j],
                forall|b: u64| #[trigger] old_map.contains_key(b) ==> self.store@.contains_key(b)
                    && self.store@[b] == old_map[b],
                forall|b: u64| #[trigger] self.store@.contains_key(b) ==> old_map.contains_key(b)
                    || (exists|k: int| 0 <= k < i && hashes@[k] == b),
                pushed_run(self.store@, parent, pn, hashes@, i as int),
            decreases hashes@.len() - i,
        {
            let h = hashes[i];
            let ghost pre = self.store@;
            let meta = BlockMeta { parent: prev, number: pn + 1 + i as u64 };
            self.store.insert(h, meta);
            proof {
                assert forall|b: u64| self.store@.contains_key(b) implies #[trigger] block_link_ok(
                    self.store@,
                    b,
                ) by {
                    if b == h {
                        assert(self.store@[h] == meta);
                        assert(self.store@.contains_key(prev));
                    } else {
                        assert(pre.contains_key(b));
                        assert(self.store@[b] == pre[b]);
                        assert(block_link_ok(pre, b));
                        if pre[b].parent != b {
                            assert(pre[b].parent != h);
                            assert(self.store@.contains_key(pre[b].parent));
                        }
                    }
                }
                assert forall|k: int| 0 <= k < i as int implies hashes@[k] != h by {
                    assert(hashes@[k] != hashes@[i as int]);
                }
                lemma_pushed_run_insert(pre, parent, pn, hashes@, i as int, h, meta);
                assert(pushed_run(self.store@, parent, pn, hashes@, i + 1));
            }
            prev = h;
            i = i + 1;
        }
        if hashes.len() > 0 {
            let last = hashes[hashes.len() - 1];
            let last_n = self.store.get(&last).unwrap().number;
            let keep = match self.store.get(&self.best) {
                Some(b) => b.number > last_n,
                None => false,
            };
            if !keep {
                self.best = last;
            }
        }
        proof {
            assert(pushed_seq_ok(self.store@, parent, pn as int, hashes@)) by {
                assert forall|k: int| 0 <= k < hashes@.len() implies self.store@.contains_key(
                    hashes@[k],
                ) && self.store@[hashes@[k]].parent == (if k == 0 {
                    parent
                } else {
                    hashes@[k - 1]
                }) && self.store@[hashes@[k]].number == pn + 1 + k by {
                    lemma_pushed_run_index(
                        self.store@,
                        parent,
                        pn,
                        hashes@,
                        hashes@.len() as int,
                        k,
                    );
                }
            }
        }
    }
}

impl Chain for MemChain {
    open spec fn blocks(&self) -> Map<u64, BlockMeta> {
        self.store@
    }

    fn ancestry(&self, base: u64, block: u64) -> (r: Result<Vec<u64>, Error>) {
        let ghost m = self.store@;
        let bm = match self.store.get(&base) {
            Some(x) => *x,
            None => {
                return Err(Error::NotDescendent);
            },
        };
        let mut cur_meta = match self.store.get(&block) {
            Some(x) => *x,
            None => {
                return Err(Error::NotDescendent);
            },
        };
        if cur_meta.number <= bm.number {
            return Err(Error::NotDescendent);
        }
        let mut cur = block;
        let mut out: Vec<u64> = Vec::new();
        while cur_meta.number > bm.number
            invariant
                chain_map_wf(m),
                m == self.store@,
                m.contains_key(base),
                bm == m[base],
                m.contains_key(block),
                m[block].number > bm.number,
                m.contains_key(cur),
                cur_meta == m[cur],
                cur == walk_up(m, block, out@.len()),
                cur_meta.number == m[block].number - out@.len(),
                cur_meta.number >= bm.number,
                forall|k: int| 0 <= k < out@.len() ==> out@[k] == walk_up(m, block, (k + 1) as nat),
            decreases cur_meta.number,
        {
            if cur_meta.parent == cur {
                proof {
                    lemma_walk_up_add(m, block, out@.len(), (m[block].number - bm.number
                        - out@.len()) as nat);
                    lemma_walk_up_root(m, cur, (m[block].number - bm.number - out@.len()) as nat);
                }
                return Err(Error::NotDescendent);
            }
            proof {
                assert(block_link_ok(m, cur));
                lemma_walk_up_add(m, block, out@.len(), 1);
                assert(walk_up(m, cur, 1) == walk_up(m, m[cur].parent, 0));
                assert(walk_up(m, m[cur].parent, 0) == m[cur].parent);
            }
            cur = cur_meta.parent;
            out.push(cur);
            cur_meta = *self.store.get(&cur).unwrap();
        }
        if cur == base {
            proof {
                assert(chain_anc(m, block, bm.number) == walk_up(
                    m,
                    block,
                    (m[block].number - bm.number) as nat,
                ));
                assert(out@ =~= ancestry_seq(m, block, m[base].number)) by {
                    assert(forall|k: int|
                        0 <= k < out@.len() ==> out@[k] == chain_anc(
                            m,
                            block,
                            (m[block].number - 1 - k) as u64,
                        ));
                }
            }
            Ok(out)
        } else {
            assert(chain_anc(m, block, bm.number) == cur);
            Err(Error::NotDescendent)
        }
    }

    fn is_equal_or_descendent_of(&self, base: u64, block: u64) -> (r: bool) {
        let ghost m = self.store@;
        let bm = match self.store.get(&base) {
            Some(x) => *x,
            None => {
                return false;
            },
        };
        let mut cur_meta = match self.store.get(&block) {
            Some(x) => *x,
            None => {
                return false;
            },
        };
        if cur_meta.number < bm.number {
            return false;
        }
        let mut cur = block;
        while cur_meta.number > bm.number
            invariant
                chain_map_wf(m),
                m == self.store@,
                m.contains_key(base),
                bm == m[base],
                m.contains_key(block),
                m[block].number >= bm.number,
                m.contains_key(cur),
                cur_meta == m[cur],
                cur == walk_up(m, block, (m[block].number - cur_meta.number) as nat),
                cur_meta.number >= bm.number,
                cur_meta.number <= m[block].number,
            decreases cur_meta.number,
        {
            let ghost steps = (m[block].number - cur_meta.number) as nat;
            if cur_meta.parent == cur {
                proof {
                    lemma_walk_up_add(m, block, steps, (cur_meta.number - bm.number) as nat);
                    lemma_walk_up_root(m, cur, (cur_meta.number - bm.number) as nat);
                }
                return false;
            }
            proof {
                assert(block_link_ok(m, cur));
                lemma_walk_up_add(m, block, steps, 1);
                assert(walk_up(m, cur, 1) == walk_up(m, m[cur].parent, 0));
                assert(walk_up(m, m[cur].parent, 0) == m[cur].parent);
            }
            cur = cur_meta.parent;
            cur_meta = *self.store.get(&cur).unwrap();
        }
        assert(chain_anc(m, block, bm.number) == cur);
        cur == base
    }

    fn best_chain_containing(&self, base: u64) -> (r: Option<(u64, u64)>) {
        if self.is_equal_or_descendent_of(base, self.best) {
            let n = self.store.get(&self.best).unwrap().number;
            Some((self.best, n))
        } else {
            None
        }
    }
}

} // verus!
