//! The spaced list itself: a vertical stack of levels of blocks, where level
//! `l + 1` summarizes runs of 256 level-`l` blocks, plus one attachment table
//! per level-0 block holding optional nested child lists.
//!
//! The whole structure is characterized by the ghost sequence `dists` of the
//! distances appended so far: node `i` sits at position `pos(i)`, the prefix
//! sum of the first `i + 1` distances, and every partial-sum slot of every
//! block is pinned to a difference of such positions.

use crate::arith::{imin, lemma_div_div, lemma_p256_pos, p256};
use crate::chunk::{psum, ChunkSkeleton};
use vstd::prelude::*;

verus! {

/// How many levels a list of `n` nodes has: one while at most 256 nodes, and
/// one more each time the node count of the level below exceeds 256.
pub open spec fn num_levels(n: int) -> int
    decreases n,
{
    if n <= 256 {
        1
    } else {
        1 + num_levels((n - 1) / 256 + 1)
    }
}

/// The node count of the top level always fits one block, and every node
/// index fits the level span.
pub proof fn lemma_num_levels(n: int)
    requires
        1 <= n,
    ensures
        1 <= num_levels(n),
        n - 1 < p256(num_levels(n)),
        (n - 1) / p256(num_levels(n) - 1) + 1 <= 256,
    decreases n,
{
    let ll = num_levels(n);
    if n <= 256 {
        assert(p256(1) == 256 * p256(0));
    } else {
        let n1 = (n - 1) / 256 + 1;
        crate::arith::lemma_div_bounds(n - 1, 256);
        assert(n1 < n);
        lemma_num_levels(n1);
        let l1 = num_levels(n1);
        lemma_p256_pos(l1 - 1);
        assert(n - 1 < 256 * p256(l1)) by (nonlinear_arith)
            requires
                256 * ((n - 1) / 256) <= n - 1,
                n - 1 < 256 * ((n - 1) / 256) + 256,
                (n - 1) / 256 <= p256(l1) - 1,
        ;
        lemma_div_div(n - 1, 256, p256(l1 - 1));
        assert((n - 1) / p256(ll - 1) == (n1 - 1) / p256(l1 - 1));
    }
}

/// Beyond one level, the span of the top level fits below the node count.
pub proof fn lemma_num_levels_lower(n: int)
    requires
        1 <= n,
        2 <= num_levels(n),
    ensures
        p256(num_levels(n) - 1) <= n - 1,
    decreases n,
{
    let n1 = (n - 1) / 256 + 1;
    crate::arith::lemma_div_bounds(n - 1, 256);
    let l1 = num_levels(n1);
    if l1 == 1 {
        assert(p256(1) == 256 * p256(0));
    } else {
        lemma_num_levels_lower(n1);
        assert(p256(num_levels(n) - 1) == 256 * p256(l1 - 1));
        assert(256 * p256(l1 - 1) <= 256 * ((n - 1) / 256)) by (nonlinear_arith)
            requires
                p256(l1 - 1) <= (n - 1) / 256,
        ;
    }
}

/// The node counts of adjacent levels are tied by one more flooring division.
pub proof fn lemma_lvl_n_step(n: int, l: int)
    requires
        0 <= n,
        0 <= l,
    ensures
        (n / p256(l)) / 256 == n / p256(l + 1),
{
    lemma_p256_pos(l);
    lemma_div_div(n, p256(l), 256);
    assert(p256(l) * 256 == 256 * p256(l)) by (nonlinear_arith);
}

/// Node count of level `l` for a list of `nn` raw nodes: one node per run of
/// `256^l` raw nodes, counting the leading placeholder.
pub open spec fn s_lvl_n(nn: int, l: int) -> int {
    (nn - 1) / p256(l) + 1
}

/// Distance between consecutive level-`l` nodes `c - 1` and `c`, over the
/// distance sequence `d`.
pub open spec fn s_lvl_dist(d: Seq<u64>, l: int, c: int) -> int {
    psum(d, c * p256(l) + 1) - psum(d, (c - 1) * p256(l) + 1)
}

/// The block in position `q` of level `l` holds the right number of level-`l`
/// nodes and records exactly their level-`l` distances.
pub open spec fn s_wf_chunk(c: ChunkSkeleton, d: Seq<u64>, l: int, q: int) -> bool {
    &&& c.wf()
    &&& c.size as int == imin(s_lvl_n(d.len() as int, l) - 256 * q, 256)
    &&& forall|j: int|
        1 <= j < c.size ==> (#[trigger] c.ds()[j]) as int == s_lvl_dist(d, l, 256 * q + j)
}

/// A whole level: the right number of blocks, each well-placed.
pub open spec fn s_wf_level(ch: Seq<ChunkSkeleton>, d: Seq<u64>, l: int) -> bool {
    &&& ch.len() == (s_lvl_n(d.len() as int, l) - 1) / 256 + 1
    &&& forall|q: int| 0 <= q < ch.len() ==> #[trigger] s_wf_chunk(ch[q], d, l, q)
}

/// Sums of consecutive recorded block entries telescope into a difference of
/// positions: entries `x .. y - 1` of the block in position `q` of level `l`
/// cover the raw nodes between level nodes `256q + x - 1` and `256q + y - 1`.
pub proof fn lemma_chunk_sum(c: ChunkSkeleton, d: Seq<u64>, l: int, q: int, x: int, y: int)
    requires
        1 <= x <= y <= c.size,
        0 <= q,
        0 <= l,
        forall|j: int|
            1 <= j < c.size ==> (#[trigger] c.ds()[j]) as int == s_lvl_dist(d, l, 256 * q + j),
    ensures
        psum(c.ds(), y) - psum(c.ds(), x) == psum(d, (256 * q + y - 1) * p256(l) + 1) - psum(
            d,
            (256 * q + x - 1) * p256(l) + 1,
        ),
    decreases y - x,
{
    if y > x {
        lemma_chunk_sum(c, d, l, q, x, y - 1);
        assert(psum(c.ds(), y) == psum(c.ds(), y - 1) + c.ds()[y - 1]);
        assert(c.ds()[y - 1] as int == s_lvl_dist(d, l, 256 * q + y - 1));
        assert((256 * q + y - 1 - 1) * p256(l) == (256 * q + (y - 1) - 1) * p256(l));
    }
}

/// A block's total is the distance between the positions of its boundary
/// nodes.
pub proof fn lemma_chunk_total(c: ChunkSkeleton, d: Seq<u64>, l: int, q: int)
    requires
        c.wf(),
        c.size >= 1,
        0 <= q,
        0 <= l,
        forall|j: int|
            1 <= j < c.size ==> (#[trigger] c.ds()[j]) as int == s_lvl_dist(d, l, 256 * q + j),
    ensures
        c.total_length as int == psum(d, (256 * q + c.size - 1) * p256(l) + 1) - psum(
            d,
            (256 * q) * p256(l) + 1,
        ),
{
    lemma_chunk_sum(c, d, l, q, 1, c.size as int);
    assert(psum(c.ds(), 1) == psum(c.ds(), 0) + c.ds()[0]);
    assert(c.ds()[0] == 0);
}

/// Appending a distance moves no earlier position, so level distances over
/// the old nodes are untouched.
pub proof fn lemma_lvl_dist_push(d: Seq<u64>, x: u64, l: int, c: int)
    requires
        0 <= l,
        1 <= c,
        c * p256(l) < d.len(),
    ensures
        s_lvl_dist(d.push(x), l, c) == s_lvl_dist(d, l, c),
{
    lemma_p256_pos(l);
    assert((c - 1) * p256(l) == c * p256(l) - p256(l)) by (nonlinear_arith);
    crate::chunk::lemma_psum_push(d, x, c * p256(l) + 1);
    crate::chunk::lemma_psum_push(d, x, (c - 1) * p256(l) + 1);
}

/// A block whose covered raw nodes all lie before the tail keeps its
/// distance constraints when one more distance is appended.
pub proof fn lemma_chunk_push_keep(c: ChunkSkeleton, d: Seq<u64>, x: u64, l: int, q: int)
    requires
        0 <= l,
        0 <= q,
        forall|j: int|
            1 <= j < c.size ==> (#[trigger] c.ds()[j]) as int == s_lvl_dist(d, l, 256 * q + j),
        (256 * q + c.size - 1) * p256(l) < d.len(),
    ensures
        forall|j: int|
            1 <= j < c.size ==> (#[trigger] c.ds()[j]) as int == s_lvl_dist(d.push(x), l, 256 * q
                + j),
{
    lemma_p256_pos(l);
    assert forall|j: int| 1 <= j < c.size implies (#[trigger] c.ds()[j]) as int == s_lvl_dist(
        d.push(x),
        l,
        256 * q + j,
    ) by {
        assert((256 * q + j) * p256(l) <= (256 * q + c.size - 1) * p256(l)) by (nonlinear_arith)
            requires
                j <= c.size - 1,
                p256(l) >= 1,
        ;
        lemma_lvl_dist_push(d, x, l, 256 * q + j);
    }
}

/// A level whose node count is unchanged by appending one distance keeps its
/// whole shape.
pub proof fn lemma_level_push_keep(ch: Seq<ChunkSkeleton>, d: Seq<u64>, x: u64, l: int)
    requires
        0 <= l,
        1 <= d.len(),
        s_wf_level(ch, d, l),
        s_lvl_n(d.len() as int + 1, l) == s_lvl_n(d.len() as int, l),
    ensures
        s_wf_level(ch, d.push(x), l),
{
    lemma_p256_pos(l);
    let nn = d.len() as int;
    let ln = s_lvl_n(nn, l);
    crate::arith::lemma_div_bounds(nn - 1, p256(l));
    assert forall|q: int| 0 <= q < ch.len() implies #[trigger] s_wf_chunk(
        ch[q],
        d.push(x),
        l,
        q,
    ) by {
        assert(s_wf_chunk(ch[q], d, l, q));
        let c = ch[q];
        assert(c.size as int == imin(ln - 256 * q, 256));
        assert(256 * q + c.size <= ln);
        assert((256 * q + c.size - 1) * p256(l) <= (ln - 1) * p256(l)) by (nonlinear_arith)
            requires
                256 * q + c.size <= ln,
                p256(l) >= 1,
        ;
        assert((ln - 1) * p256(l) <= nn - 1) by (nonlinear_arith)
            requires
                ln - 1 == (nn - 1) / p256(l),
                p256(l) * ((nn - 1) / p256(l)) <= nn - 1,
        ;
        if c.size >= 1 {
            lemma_chunk_push_keep(c, d, x, l, q);
        }
    }
}

/// Appending one distance to a list of `n` nodes adds a level exactly when
/// the old node count is a full power of the fan-out.
pub proof fn lemma_num_levels_step(n: int)
    requires
        1 <= n,
    ensures
        n == p256(num_levels(n)) ==> num_levels(n + 1) == num_levels(n) + 1,
        n != p256(num_levels(n)) ==> num_levels(n + 1) == num_levels(n),
    decreases n,
{
    let ll = num_levels(n);
    lemma_num_levels(n);
    if n + 1 <= 256 {
        lemma_p256_pos(1);
        assert(p256(1) == 256 * p256(0));
    } else if n == 256 {
        assert(p256(1) == 256 * p256(0));
        assert(num_levels(257) == 1 + num_levels(2));
    } else {
        let n1 = (n - 1) / 256 + 1;
        crate::arith::lemma_div_bounds(n - 1, 256);
        lemma_num_levels(n1);
        lemma_num_levels_step(n1);
        let l1 = num_levels(n1);
        assert(ll == 1 + l1);
        if n % 256 == 0 {
            crate::arith::lemma_div_of_div(n, 256);
            assert(n / 256 == n1);
            assert(num_levels(n + 1) == 1 + num_levels(n / 256 + 1));
            assert(num_levels(n + 1) == 1 + num_levels(n1 + 1));
            assert(n == p256(ll) <==> n1 == p256(l1)) by {
                lemma_p256_pos(l1);
                assert(n == 256 * n1);
                assert(p256(ll) == 256 * p256(l1));
            }
        } else {
            crate::arith::lemma_div_of_nondiv(n, 256);
            assert(n / 256 == n1 - 1);
            assert(num_levels(n + 1) == 1 + num_levels(n1));
            assert(n != p256(ll)) by {
                if n == p256(ll) {
                    lemma_p256_pos(ll - 1);
                    assert(p256(ll) == 256 * p256(ll - 1));
                    crate::arith::lemma_div_exact_of_mul(256, p256(ll - 1));
                    assert(p256(ll) % 256 == 0) by (nonlinear_arith)
                        requires
                            p256(ll) == 256 * p256(ll - 1),
                            1 <= p256(ll - 1),
                    ;
                }
            }
        }
    }
}

/// The redirection table mapping a local gap index to a slot of the backing
/// collection of child lists.
pub struct SublistsChunk {
    /// One entry per local gap; `None` means no child was ever attached.
    pub sublist_indices: Vec<Option<usize>>,
    /// The owned child lists, appended in creation order.
    pub sublists: Vec<SpacedListSkeleton>,
}

impl SublistsChunk {
    /// Every occupied entry points into the backing collection, and no two
    /// gaps share a child.
    pub open spec fn wf_table(self) -> bool {
        &&& self.sublist_indices@.len() == 256
        &&& forall|s: int|
            0 <= s < 256 && self.sublist_indices@[s] is Some
                ==> (#[trigger] self.sublist_indices@[s])->0 < self.sublists@.len()
        &&& forall|s1: int, s2: int|
            0 <= s1 < 256 && 0 <= s2 < 256 && s1 != s2 && self.sublist_indices@[s1] is Some
                && self.sublist_indices@[s2] is Some ==> (#[trigger] self.sublist_indices@[s1])->0
                != (#[trigger] self.sublist_indices@[s2])->0
    }

    /// A fresh table with no children.
    pub fn new() -> (r: Self)
        ensures
            r.wf_table(),
            r.sublists@.len() == 0,
            forall|s: int| 0 <= s < 256 ==> (#[trigger] r.sublist_indices@[s]) is None,
    {
        let mut sublist_indices: Vec<Option<usize>> = Vec::new();
        let mut s: usize = 0;
        while s < 256
            invariant
                s <= 256,
                sublist_indices@.len() == s as int,
                forall|k: int| 0 <= k < s ==> (#[trigger] sublist_indices@[k]) is None,
            decreases 256 - s,
        {
            sublist_indices.push(None);
            s = s + 1;
        }
        SublistsChunk { sublist_indices, sublists: Vec::new() }
    }
}

/// The spaced list: levels of blocks plus attachment tables, abstracted by
/// the ghost sequence of appended distances.
pub struct SpacedListSkeleton {
    /// Number of nodes appended directly to this list.
    pub size: usize,
    /// Sum of every distance appended directly to this list.
    pub total_length: u64,
    /// Distance from position zero to the first node.
    pub offset: u64,
    /// Level 0 holds the raw nodes; level `l + 1` summarizes level `l`.
    pub levels: Vec<Vec<ChunkSkeleton>>,
    /// One attachment table per level-0 block.
    pub sublists: Vec<SublistsChunk>,
    /// The distances appended so far, in order.
    pub dists: Ghost<Seq<u64>>,
}

impl SpacedListSkeleton {
    /// Number of nodes.
    pub open spec fn n(self) -> int {
        self.dists@.len() as int
    }

    /// Absolute position of node `i`: the sum of the first `i + 1` distances
    /// (the first distance is the offset).
    pub open spec fn pos(self, i: int) -> int {
        psum(self.dists@, i + 1)
    }

    /// Position of node `i` relative to the first node.
    pub open spec fn rp(self, i: int) -> int {
        self.pos(i) - self.pos(0)
    }

    /// Node count of level `l`.
    pub open spec fn lvl_n(self, l: int) -> int {
        s_lvl_n(self.n(), l)
    }

    /// Distance between consecutive level-`l` nodes `c - 1` and `c`.
    pub open spec fn lvl_dist(self, l: int, c: int) -> int {
        s_lvl_dist(self.dists@, l, c)
    }

    /// Everything except the well-formedness of the child lists.
    pub open spec fn local_wf(self) -> bool {
        &&& self.size as int == self.n()
        &&& self.total_length as int == psum(self.dists@, self.n())
        &&& self.n() == 0 ==> self.levels@.len() == 0 && self.sublists@.len() == 0 && self.offset
            == 0
        &&& self.n() >= 1 ==> self.offset == self.dists@[0] && self.levels@.len() == num_levels(
            self.n(),
        ) && self.sublists@.len() == self.levels@[0]@.len()
        &&& forall|l: int|
            0 <= l < self.levels@.len() ==> #[trigger] s_wf_level(self.levels@[l]@, self.dists@, l)
        &&& forall|t: int|
            0 <= t < self.sublists@.len() ==> (#[trigger] self.sublists@[t]).wf_table()
    }

    /// Full well-formedness, including every child list.
    pub open spec fn wf(self) -> bool
        decreases self,
    {
        &&& self.local_wf()
        &&& forall|t: int, e: int|
            0 <= t < self.sublists@.len() && 0 <= e < self.sublists@[t].sublists@.len()
                ==> (#[trigger] self.sublists@[t].sublists@[e]).wf()
    }

    /// Positions strictly increase with the node index, here and in every
    /// child list: the caller obligation the descent relies on.
    pub open spec fn strictly_spaced(self) -> bool
        decreases self,
    {
        &&& forall|i: int| 1 <= i < self.n() ==> self.dists@[i] >= 1
        &&& forall|t: int, e: int|
            0 <= t < self.sublists@.len() && 0 <= e < self.sublists@[t].sublists@.len()
                ==> (#[trigger] self.sublists@[t].sublists@[e]).strictly_spaced()
    }

    /// Whether a child list hangs in the gap immediately before node `k`.
    pub open spec fn has_child(self, k: int) -> bool {
        &&& 0 <= k / 256 < self.sublists@.len()
        &&& self.sublists@[k / 256].sublist_indices@.len() == 256
        &&& self.sublists@[k / 256].sublist_indices@[k % 256] is Some
        &&& self.sublists@[k / 256].sublist_indices@[k % 256]->0 < self.sublists@[k
            / 256].sublists@.len()
    }

    /// The child list hanging in the gap before node `k`.
    pub open spec fn child(self, k: int) -> SpacedListSkeleton {
        self.sublists@[k / 256].sublists@[self.sublists@[k / 256].sublist_indices@[k % 256]->0 as int]
    }

    /// Append one node at the tail.  The very first distance becomes the
    /// offset; afterwards, whenever the last block of a level fills up, its
    /// whole span (plus the incoming distance) is folded into one element of
    /// the level above, and a fresh block is opened below.
    #[verifier::rlimit(100)]
    #[verifier::loop_isolation(false)]
    pub fn append_node(&mut self, distance: u64)
        requires
            old(self).wf(),
            old(self).total_length + distance <= u64::MAX,
            old(self).size < usize::MAX,
        ensures
            final(self).wf(),
            final(self).dists@ == old(self).dists@.push(distance),
            final(self).size == old(self).size + 1,
            final(self).total_length == old(self).total_length + distance,
            old(self).size == 0 ==> final(self).offset == distance,
            old(self).size >= 1 ==> final(self).offset == old(self).offset,
            (old(self).strictly_spaced() && (old(self).size == 0 || distance >= 1))
                ==> final(self).strictly_spaced(),
            forall|k: int|
                old(self).has_child(k) ==> final(self).has_child(k)
                    && final(self).child(k) == old(self).child(k),
            forall|k: int| !old(self).has_child(k) ==> !final(self).has_child(k),
    {
        let ghost prev = *self;
        let ghost nd = prev.dists@.push(distance);
        if self.size == 0 {
            let mut chunk0 = ChunkSkeleton::new();
            chunk0.append_node(distance);
            let mut lvl0: Vec<ChunkSkeleton> = Vec::new();
            lvl0.push(chunk0);
            self.levels.push(lvl0);
            self.sublists.push(SublistsChunk::new());
            self.offset = distance;
            self.total_length = distance;
            self.size = 1;
            self.dists = Ghost(nd);
            proof {
                assert(psum(nd, 1) == psum(nd, 0) + nd[0]);
                assert(p256(0) == 1);
                assert(s_wf_level(self.levels@[0]@, nd, 0)) by {
                    assert(s_lvl_n(1, 0) == 1);
                    assert(s_wf_chunk(self.levels@[0]@[0], nd, 0, 0));
                }
                assert(self.wf());
            }
            return ;
        }
        let n = self.size;
        let ghost nn = n as int;
        let ghost old_levels = prev.levels@.len() as int;
        proof {
            lemma_num_levels(nn);
            crate::chunk::lemma_psum_push(prev.dists@, distance, nn);
            assert(psum(nd, nn + 1) == prev.total_length + distance);
            assert(p256(0) == 1);
        }
        let mut m: usize = n;
        let mut carry: u64 = distance;
        let mut lev: usize = 0;
        while m % 256 == 0
            invariant
                1 <= nn,
                nn == prev.n(),
                prev.wf(),
                prev.total_length + distance <= u64::MAX,
                nd == prev.dists@.push(distance),
                old_levels == prev.levels@.len(),
                self.size == prev.size,
                self.total_length == prev.total_length,
                self.offset == prev.offset,
                self.dists == prev.dists,
                lev as int <= old_levels,
                m as int == nn / p256(lev as int),
                nn % p256(lev as int) == 0,
                m >= 1,
                carry as int == psum(nd, nn + 1) - psum(nd, nn + 1 - p256(lev as int)),
                self.levels@.len() == if lev as int == old_levels {
                    old_levels + 1
                } else {
                    old_levels
                },
                forall|l: int| 0 <= l < lev ==> #[trigger] s_wf_level(self.levels@[l]@, nd, l),
                forall|l: int|
                    lev <= l < old_levels ==> #[trigger] self.levels@[l] == prev.levels@[l],
                lev as int == old_levels ==> (self.levels@[lev as int]@.len() == 1
                    && self.levels@[lev as int]@[0].wf() && self.levels@[lev as int]@[0].size == 1
                    && self.levels@[lev as int]@[0].total_length == 0),
                lev == 0 ==> self.sublists == prev.sublists,
                lev >= 1 ==> (self.sublists@.len() == prev.sublists@.len() + 1 && (forall|t: int|
                    0 <= t < prev.sublists@.len() ==> #[trigger] self.sublists@[t]
                        == prev.sublists@[t]) && self.sublists@[prev.sublists@.len() as int].wf_table()
                    && self.sublists@[prev.sublists@.len() as int].sublists@.len() == 0 && (forall|
                    s: int,
                |
                    0 <= s < 256
                        ==> (#[trigger] self.sublists@[prev.sublists@.len() as int].sublist_indices@[s]) is None)),
            decreases m,
        {
            proof {
                lemma_p256_pos(lev as int);
                if lev as int == old_levels {
                    assert(nn - 1 < p256(old_levels));
                    crate::arith::lemma_div_bounds(nn, p256(old_levels));
                    assert(m as int <= 1) by (nonlinear_arith)
                        requires
                            m as int == nn / p256(old_levels),
                            p256(old_levels) * (nn / p256(old_levels)) <= nn,
                            nn < p256(old_levels) + p256(old_levels),
                            p256(old_levels) >= 1,
                            nn / p256(old_levels) >= 0,
                    ;
                    assert(false);
                }
                assert((lev as int) < old_levels);
                crate::arith::lemma_div_exact(nn, p256(lev as int));
            }
            let cur_levels = self.levels.len();
            if lev == cur_levels - 1 {
                let mut topc = ChunkSkeleton::new();
                topc.append_node(0);
                let mut lvec: Vec<ChunkSkeleton> = Vec::new();
                lvec.push(topc);
                self.levels.push(lvec);
            }
            let ghost before = *self;
            let llen = self.levels[lev].len();
            proof {
                assert(self.levels@[lev as int] == prev.levels@[lev as int]);
                assert(s_wf_level(self.levels@[lev as int]@, prev.dists@, lev as int));
                crate::arith::lemma_div_of_div(nn, p256(lev as int));
                assert(s_lvl_n(nn, lev as int) == m as int);
                crate::arith::lemma_div_of_div(m as int, 256);
                assert(llen as int == (m as int - 1) / 256 + 1);
                assert((m as int - 1) / 256 == m as int / 256 - 1);
            }
            let lastref = &self.levels[lev][llen - 1];
            let tl = lastref.total_length;
            proof {
                let mi = m as int;
                let li = lev as int;
                let q = mi / 256 - 1;
                assert(s_wf_chunk(self.levels@[li]@[q], prev.dists@, li, q));
                let c = self.levels@[li]@[q];
                assert(c.size as int == imin(mi - 256 * q, 256));
                assert(256 * q == mi - 256) by {
                    crate::arith::lemma_div_exact(mi, 256);
                }
                assert(c.size == 256);
                lemma_chunk_total(c, prev.dists@, li, q);
                // positions of the block's boundary nodes, in raw node terms
                assert((256 * q + 255) * p256(li) == (mi - 1) * p256(li));
                assert((mi - 1) * p256(li) == nn - p256(li) && (mi - 256) * p256(li) == nn - 256
                    * p256(li)) by (nonlinear_arith)
                    requires
                        nn == p256(li) * mi,
                ;
                crate::chunk::lemma_psum_push(prev.dists@, distance, nn - p256(li) + 1);
                crate::chunk::lemma_psum_push(prev.dists@, distance, nn - 256 * p256(li) + 1);
                assert(tl as int == psum(nd, nn - p256(li) + 1) - psum(nd, nn - 256 * p256(li)
                    + 1));
                assert(p256(li + 1) == 256 * p256(li));
                // the new carry stays within the new total
                crate::chunk::lemma_psum_nonneg(nd, nn - 256 * p256(li) + 1);
                crate::chunk::lemma_psum_mono(nd, 0, nn - 256 * p256(li) + 1);
                assert(tl + carry <= prev.total_length + distance);
            }
            carry = tl + carry;
            let mut fresh = ChunkSkeleton::new();
            fresh.append_node(0);
            let lvref = &mut self.levels[lev];
            lvref.push(fresh);
            proof {
                let li = lev as int;
                let mi = m as int;
                assert(self.levels@ == before.levels@.update(
                    li,
                    self.levels@[li],
                ));
                assert(self.levels@[li]@ == before.levels@[li]@.push(fresh));
                assert(s_wf_level(self.levels@[li]@, nd, li)) by {
                    assert(s_lvl_n(nn + 1, li) == mi + 1) by {
                        crate::arith::lemma_div_exact(nn, p256(li));
                        crate::arith::lemma_div_exact_of_mul(p256(li), mi);
                    }
                    assert(self.levels@[li]@.len() == mi / 256 + 1);
                    assert((s_lvl_n(nn + 1, li) - 1) / 256 + 1 == mi / 256 + 1) by {
                        crate::arith::lemma_div_exact(mi, 256);
                        crate::arith::lemma_div_exact_of_mul(256, mi / 256);
                    }
                    assert forall|q: int| 0 <= q < mi / 256 + 1 implies #[trigger] s_wf_chunk(
                        self.levels@[li]@[q],
                        nd,
                        li,
                        q,
                    ) by {
                        if q < mi / 256 {
                            let c = before.levels@[li]@[q];
                            assert(self.levels@[li]@[q] == c);
                            assert(s_wf_chunk(c, prev.dists@, li, q));
                            assert(c.size as int == imin(mi - 256 * q, 256));
                            assert(256 * q <= 256 * (mi / 256 - 1)) by (nonlinear_arith)
                                requires
                                    q <= mi / 256 - 1,
                            ;
                            assert(256 * (mi / 256) == mi) by {
                                crate::arith::lemma_div_exact(mi, 256);
                            }
                            assert(c.size == 256);
                            assert(imin(s_lvl_n(nn + 1, li) - 256 * q, 256) == 256);
                            assert((256 * q + 255) * p256(li) <= (mi - 1) * p256(li))
                                by (nonlinear_arith)
                                requires
                                    256 * q + 255 <= mi - 1,
                                    p256(li) >= 1,
                            ;
                            assert((mi - 1) * p256(li) == nn - p256(li)) by (nonlinear_arith)
                                requires
                                    nn == p256(li) * mi,
                            ;
                            lemma_p256_pos(li);
                            lemma_chunk_push_keep(c, prev.dists@, distance, li, q);
                        } else {
                            assert(self.levels@[li]@[q] == fresh);
                            assert(fresh.size == 1);
                            assert(imin(s_lvl_n(nn + 1, li) - 256 * q, 256) == 1) by {
                                crate::arith::lemma_div_exact(mi, 256);
                            }
                        }
                    }
                }
            }
            if lev == 0 {
                self.sublists.push(SublistsChunk::new());
            }
            proof {
                // the next level's carry and node counts
                let li = lev as int;
                lemma_lvl_n_step(nn, li);
                crate::arith::lemma_div_exact(nn, p256(li));
                assert(nn == p256(li) * (m as int));
                assert(nn % p256(li + 1) == 0 && nn / p256(li + 1) == m as int / 256) by {
                    crate::arith::lemma_div_exact(m as int, 256);
                    assert(nn == p256(li + 1) * (m as int / 256)) by (nonlinear_arith)
                        requires
                            nn == p256(li) * (m as int),
                            m as int == 256 * (m as int / 256),
                            p256(li + 1) == 256 * p256(li),
                    ;
                    crate::arith::lemma_div_exact_of_mul(p256(li + 1), m as int / 256);
                }
            }
            m = m / 256;
            lev = lev + 1;
        }
        proof {
            lemma_p256_pos(lev as int);
            if lev as int == old_levels {
                crate::arith::lemma_div_bounds(nn, p256(old_levels));
                assert(m as int <= 1) by (nonlinear_arith)
                    requires
                        m as int == nn / p256(old_levels),
                        p256(old_levels) * (nn / p256(old_levels)) <= nn,
                        nn < p256(old_levels) + p256(old_levels),
                        p256(old_levels) >= 1,
                        nn / p256(old_levels) >= 0,
                ;
                assert(m == 1);
            }
        }
        let ghost exit_state = *self;
        let llen = self.levels[lev].len();
        proof {
            let li = lev as int;
            let mi = m as int;
            crate::arith::lemma_div_of_div(nn, p256(li));
            assert(s_lvl_n(nn, li) == mi);
            if li < old_levels {
                assert(self.levels@[li] == prev.levels@[li]);
                assert(s_wf_level(self.levels@[li]@, prev.dists@, li));
                crate::arith::lemma_div_of_nondiv(mi, 256);
                assert(llen as int == mi / 256 + 1);
            } else {
                assert(llen == 1);
            }
        }
        let lvref = &mut self.levels[lev];
        let chref = &mut lvref[llen - 1];
        proof {
            let li = lev as int;
            let mi = m as int;
            let q = llen as int - 1;
            lemma_p256_pos(li);
            crate::arith::lemma_div_exact(nn, p256(li));
            assert(nn == p256(li) * mi);
            if li < old_levels {
                assert(s_wf_chunk(*chref, prev.dists@, li, q));
                assert(256 * q == mi - (mi % 256)) by {
                    assert(q == mi / 256);
                    assert(256 * (mi / 256) + mi % 256 == mi) by (nonlinear_arith);
                }
                assert(chref.size as int == mi % 256);
                lemma_chunk_total(*chref, prev.dists@, li, q);
                assert((256 * q + chref.size as int - 1) * p256(li) <= nn - 1) by (nonlinear_arith)
                    requires
                        256 * q + chref.size as int == mi,
                        nn == p256(li) * mi,
                        p256(li) >= 1,
                        mi >= 1,
                ;
                crate::chunk::lemma_psum_push(prev.dists@, distance, (256 * q + chref.size as int
                    - 1) * p256(li) + 1);
                assert((256 * q) * p256(li) <= (256 * q + chref.size as int - 1) * p256(li))
                    by (nonlinear_arith)
                    requires
                        chref.size as int >= 1,
                        p256(li) >= 1,
                        0 <= 256 * q,
                ;
                crate::chunk::lemma_psum_push(prev.dists@, distance, (256 * q) * p256(li) + 1);
                crate::chunk::lemma_psum_nonneg(nd, (256 * q) * p256(li) + 1);
                crate::chunk::lemma_psum_mono(nd, 0, (256 * q) * p256(li) + 1);
                assert((256 * q + chref.size as int - 1) * p256(li) == nn - p256(li))
                    by (nonlinear_arith)
                    requires
                        256 * q + chref.size as int == mi,
                        nn == p256(li) * mi,
                ;
                assert(chref.total_length + carry <= prev.total_length + distance);
            } else {
                assert(chref.total_length == 0);
            }
        }
        chref.append_node(carry);
        self.size = n + 1;
        self.total_length = self.total_length + distance;
        self.dists = Ghost(nd);
        proof {
            let li = lev as int;
            let mi = m as int;
            let q = llen as int - 1;
            let newch = self.levels@[li]@[q];
            let oldch = exit_state.levels@[li]@[q];
            assert(self.levels@[li]@ == exit_state.levels@[li]@.update(q, newch));
            assert(newch.ds() == oldch.ds().push(carry));
            assert(nd[0] == prev.dists@[0]);
            crate::chunk::lemma_psum_push(prev.dists@, distance, 1);
            // the block that took the carry closes level `lev`
            assert(s_wf_level(self.levels@[li]@, nd, li)) by {
                assert(s_lvl_n(nn + 1, li) == mi + 1) by {
                    crate::arith::lemma_div_exact(nn, p256(li));
                    crate::arith::lemma_div_exact_of_mul(p256(li), mi);
                }
                assert((s_lvl_n(nn + 1, li) - 1) / 256 + 1 == mi / 256 + 1) by {
                    crate::arith::lemma_div_of_nondiv(mi, 256);
                }
                assert(self.levels@[li]@.len() == mi / 256 + 1);
                assert forall|qq: int| 0 <= qq < mi / 256 + 1 implies #[trigger] s_wf_chunk(
                    self.levels@[li]@[qq],
                    nd,
                    li,
                    qq,
                ) by {
                    crate::arith::lemma_div_bounds(mi, 256);
                    if qq < mi / 256 {
                        let c = exit_state.levels@[li]@[qq];
                        assert(self.levels@[li]@[qq] == c);
                        assert(li < old_levels);
                        assert(s_wf_chunk(c, prev.dists@, li, qq));
                        assert(c.size as int == imin(mi - 256 * qq, 256));
                        assert(256 * qq <= 256 * (mi / 256 - 1)) by (nonlinear_arith)
                            requires
                                qq <= mi / 256 - 1,
                        ;
                        assert(mi - 256 * qq >= 256 + mi % 256) by (nonlinear_arith)
                            requires
                                256 * qq <= 256 * (mi / 256) - 256,
                                256 * (mi / 256) + mi % 256 == mi,
                        ;
                        assert(c.size == 256);
                        assert(imin(s_lvl_n(nn + 1, li) - 256 * qq, 256) == 256);
                        assert((256 * qq + 255) * p256(li) <= (mi - 1) * p256(li))
                            by (nonlinear_arith)
                            requires
                                256 * qq + 255 <= mi - 1,
                                p256(li) >= 1,
                        ;
                        assert((mi - 1) * p256(li) == nn - p256(li)) by (nonlinear_arith)
                            requires
                                nn == p256(li) * mi,
                        ;
                        lemma_chunk_push_keep(c, prev.dists@, distance, li, qq);
                    } else {
                        assert(self.levels@[li]@[qq] == newch);
                        assert(qq == q);
                        assert(newch.wf());
                        if li < old_levels {
                            assert(oldch.size as int == mi % 256);
                            assert(newch.size as int == mi % 256 + 1);
                            assert(256 * q == mi - mi % 256);
                            assert(imin(s_lvl_n(nn + 1, li) - 256 * q, 256) == mi % 256 + 1);
                            assert forall|j: int| 1 <= j < newch.size implies (#[trigger] newch.ds()[j]) as int
                                == s_lvl_dist(nd, li, 256 * q + j) by {
                                if j < mi % 256 {
                                    assert(newch.ds()[j] == oldch.ds()[j]);
                                    assert(oldch.ds()[j] as int == s_lvl_dist(
                                        prev.dists@,
                                        li,
                                        256 * q + j,
                                    ));
                                    assert((256 * q + j) * p256(li) <= (mi - 1) * p256(li))
                                        by (nonlinear_arith)
                                        requires
                                            256 * q + j <= mi - 1,
                                            p256(li) >= 1,
                                    ;
                                    assert((mi - 1) * p256(li) == nn - p256(li))
                                        by (nonlinear_arith)
                                        requires
                                            nn == p256(li) * mi,
                                    ;
                                    lemma_p256_pos(li);
                                    lemma_lvl_dist_push(prev.dists@, distance, li, 256 * q + j);
                                } else {
                                    assert(j == mi % 256);
                                    assert(newch.ds()[j] == carry);
                                    assert(256 * q + j == mi);
                                    assert(mi * p256(li) == nn && (mi - 1) * p256(li) == nn - p256(
                                        li,
                                    )) by (nonlinear_arith)
                                        requires
                                            nn == p256(li) * mi,
                                    ;
                                }
                            }
                        } else {
                            // the freshly created top level
                            assert(mi == 1);
                            assert(oldch.size == 1);
                            assert(oldch.ds() =~= seq![0u64]);
                            assert(newch.size == 2);
                            assert(q == 0);
                            assert(imin(s_lvl_n(nn + 1, li) - 0, 256) == 2);
                            assert forall|j: int| 1 <= j < newch.size implies (#[trigger] newch.ds()[j]) as int
                                == s_lvl_dist(nd, li, 256 * q + j) by {
                                assert(j == 1);
                                assert(newch.ds()[1] == carry);
                                crate::arith::lemma_div_exact(nn, p256(li));
                                assert(nn == p256(li)) by (nonlinear_arith)
                                    requires
                                        nn == p256(li) * (nn / p256(li)),
                                        nn / p256(li) == mi,
                                        mi == 1,
                                ;
                                assert(1 * p256(li) == p256(li) && 0 * p256(li) == 0)
                                    by (nonlinear_arith);
                                assert(s_lvl_dist(nd, li, 1) == psum(nd, nn + 1) - psum(nd, 1));
                            }
                        }
                    }
                }
            }
            // untouched levels above `lev` keep their shape
            assert(nn % p256(li + 1) != 0) by {
                if nn % p256(li + 1) == 0 {
                    crate::arith::lemma_div_exact(nn, p256(li + 1));
                    let k = nn / p256(li + 1);
                    assert(nn == p256(li) * (256 * k)) by (nonlinear_arith)
                        requires
                            nn == p256(li + 1) * k,
                            p256(li + 1) == 256 * p256(li),
                    ;
                    lemma_p256_pos(li);
                    assert(0 <= 256 * k) by (nonlinear_arith)
                        requires
                            nn == p256(li + 1) * k,
                            0 <= nn,
                            1 <= p256(li + 1),
                    ;
                    crate::arith::lemma_div_exact_of_mul(p256(li), 256 * k);
                    assert(mi == 256 * k);
                    crate::arith::lemma_div_exact_of_mul(256, k);
                    assert(mi % 256 == 0);
                }
            }
            assert forall|l: int| li < l < self.levels@.len() implies #[trigger] s_wf_level(
                self.levels@[l]@,
                nd,
                l,
            ) by {
                assert(l < old_levels);
                assert(self.levels@[l] == prev.levels@[l]);
                assert(s_wf_level(self.levels@[l]@, prev.dists@, l));
                assert(nn % p256(l) != 0) by {
                    if nn % p256(l) == 0 {
                        crate::arith::lemma_p256_divides(li + 1, l);
                        lemma_p256_pos(li + 1);
                        lemma_p256_pos(l);
                        crate::arith::lemma_divides_trans(nn, p256(li + 1), p256(l));
                    }
                }
                lemma_p256_pos(l);
                crate::arith::lemma_div_of_nondiv(nn, p256(l));
                assert(s_lvl_n(nn + 1, l) == s_lvl_n(nn, l));
                lemma_level_push_keep(prev.levels@[l]@, prev.dists@, distance, l);
            }
            // levels below `lev` were finished inside the loop
            assert forall|l: int| 0 <= l < li implies #[trigger] s_wf_level(
                self.levels@[l]@,
                nd,
                l,
            ) by {
                assert(self.levels@[l] == exit_state.levels@[l]);
                assert(s_wf_level(exit_state.levels@[l]@, nd, l));
            }
            // the level count matches the new node count
            assert(self.levels@.len() == num_levels(nn + 1)) by {
                lemma_num_levels_step(nn);
                if li == old_levels {
                    assert(m == 1);
                    assert(mi == 1);
                    assert(nn == p256(li) * mi);
                    assert(nn == p256(old_levels)) by (nonlinear_arith)
                        requires
                            nn == p256(li) * mi,
                            mi == 1,
                            li == old_levels,
                    ;
                } else {
                    assert(nn != p256(old_levels)) by {
                        if nn == p256(old_levels) {
                            crate::arith::lemma_p256_divides(li + 1, old_levels);
                            lemma_p256_pos(li + 1);
                            lemma_p256_pos(old_levels);
                            crate::arith::lemma_divides_trans(nn, p256(li + 1), p256(old_levels));
                        }
                    }
                }
            }
            // attachment tables stay in step with the level-0 blocks
            assert(self.sublists@.len() == self.levels@[0]@.len()) by {
                if li >= 1 {
                    assert(s_wf_level(self.levels@[0]@, nd, 0));
                    assert(s_wf_level(prev.levels@[0]@, prev.dists@, 0));
                    assert(nn % 256 == 0) by {
                        crate::arith::lemma_p256_divides(1, li);
                        lemma_p256_pos(li);
                        crate::arith::lemma_divides_trans(nn, 256, p256(li));
                        assert(p256(1) == 256);
                    }
                    crate::arith::lemma_div_of_div(nn, 256);
                } else {
                    assert(self.sublists@ == prev.sublists@);
                    assert(s_wf_level(self.levels@[0]@, nd, 0));
                    assert(s_wf_level(prev.levels@[0]@, prev.dists@, 0));
                    crate::arith::lemma_div_of_nondiv(nn, 256);
                    assert(p256(1) == 256);
                }
            }
            assert(self.local_wf());
            // children are exactly the old ones
            assert forall|t: int, e: int|
                0 <= t < self.sublists@.len() && 0 <= e
                    < self.sublists@[t].sublists@.len() implies (#[trigger] self.sublists@[t].sublists@[e]).wf() by {
                if t < prev.sublists@.len() {
                    assert(self.sublists@[t] == prev.sublists@[t]);
                } else {
                    assert(self.sublists@[t].sublists@.len() == 0);
                }
            }
            assert(self.wf());
            assert forall|k: int| prev.has_child(k) implies self.has_child(k) && self.child(k)
                == prev.child(k) by {
                assert(self.sublists@[k / 256] == prev.sublists@[k / 256]);
            }
            assert forall|k: int| !prev.has_child(k) implies !self.has_child(k) by {
                if 0 <= k / 256 < self.sublists@.len() {
                    if k / 256 < prev.sublists@.len() {
                        assert(self.sublists@[k / 256] == prev.sublists@[k / 256]);
                    }
                }
            }
            if prev.strictly_spaced() && distance >= 1 {
                assert forall|i: int| 1 <= i < nn + 1 implies nd[i] >= 1 by {
                    if i < nn {
                        assert(nd[i] == prev.dists@[i]);
                    }
                }
                assert forall|t: int, e: int|
                    0 <= t < self.sublists@.len() && 0 <= e
                        < self.sublists@[t].sublists@.len() implies (#[trigger] self.sublists@[t].sublists@[e]).strictly_spaced() by {
                    if t < prev.sublists@.len() {
                        assert(self.sublists@[t] == prev.sublists@[t]);
                    } else {
                        assert(self.sublists@[t].sublists@.len() == 0);
                    }
                }
                assert(self.strictly_spaced());
            }
        }
    }

    /// Ensure a child list hangs in the gap immediately before node
    /// `sublist_index`, creating an empty one on first use, and hand it out
    /// for mutation.  At most one child ever exists per gap.
    pub fn make_sublist_space(&mut self, sublist_index: usize) -> (child: &mut SpacedListSkeleton)
        requires
            old(self).wf(),
            1 <= sublist_index < old(self).size,
        ensures
            old(self).has_child(sublist_index as int)
                ==> *child == old(self).child(sublist_index as int),
            !old(self).has_child(sublist_index as int) ==> child.size == 0 && child.wf()
                && child.strictly_spaced() && child.dists@.len() == 0,
            final(self).size == old(self).size,
            final(self).total_length == old(self).total_length,
            final(self).offset == old(self).offset,
            final(self).levels == old(self).levels,
            final(self).dists == old(self).dists,
            final(self).sublists@.len() == old(self).sublists@.len(),
            final(self).has_child(sublist_index as int),
            final(self).child(sublist_index as int) == *final(child),
            forall|k2: int|
                k2 != sublist_index as int ==> final(self).has_child(k2) == old(self).has_child(k2)
                    && (old(self).has_child(k2) ==> final(self).child(k2) == old(self).child(k2)),
            final(child).wf() ==> final(self).wf(),
            (old(self).strictly_spaced() && final(child).strictly_spaced())
                ==> final(self).strictly_spaced(),
    {
        let ghost prev = *self;
        let ghost k = sublist_index as int;
        let ti = sublist_index / 256;
        let si = sublist_index % 256;
        proof {
            assert(p256(0) == 1);
            lemma_num_levels(self.n());
            assert(s_wf_level(self.levels@[0]@, self.dists@, 0));
            assert(self.sublists@.len() == (self.n() - 1) / 256 + 1);
            assert(ti as int <= (self.n() - 1) / 256) by (nonlinear_arith)
                requires
                    ti as int == sublist_index as int / 256,
                    sublist_index as int <= self.n() - 1,
                    0 <= sublist_index as int,
            ;
            assert(ti as int == k / 256);
            assert(si as int == k % 256);
            assert(self.sublists@[ti as int].wf_table());
        }
        let tbl = &mut self.sublists[ti];
        let slot = tbl.sublist_indices[si];
        match slot {
            Some(ix) => {
                proof {
                    assert(prev.has_child(k));
                }
                let child = &mut tbl.sublists[ix];
                child
            },
            None => {
                let ix = tbl.sublists.len();
                tbl.sublist_indices[si] = Some(ix);
                tbl.sublists.push(SpacedListSkeleton::new());
                let child = &mut tbl.sublists[ix];
                child
            },
        }
    }

    /// A fresh, empty list.
    pub fn new() -> (r: Self)
        ensures
            r.wf(),
            r.strictly_spaced(),
            r.size == 0,
            r.total_length == 0,
            r.offset == 0,
            r.dists@ == Seq::<u64>::empty(),
            r.levels@.len() == 0,
            r.sublists@.len() == 0,
    {
        SpacedListSkeleton {
            size: 0,
            total_length: 0,
            offset: 0,
            levels: Vec::new(),
            sublists: Vec::new(),
            dists: Ghost(Seq::empty()),
        }
    }
}

} // verus!
