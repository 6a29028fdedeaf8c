//! Position queries: a top-down dyadic descent over the levels of blocks.
//!
//! The descent keeps a current node (always a multiple of the skip width
//! about to be tried), the current relative position, and the relative
//! position of the nearest declined candidate; at the end the current node is
//! the last one strictly before the target, and the declined candidate right
//! after it gives the next position.

use crate::arith::{
    imin, lemma_aligned_div, lemma_div_bounds, lemma_div_exact, lemma_div_ge, lemma_div_mono,
    lemma_p256_pos, lemma_po2_divides, lemma_po2_pos, lemma_po2_values, p256, po2,
};
use crate::chunk::{psum, range_sum};
use crate::geometry::{link_index, spec_link_index, two_pow};
use crate::skeleton::{
    lemma_chunk_sum, lemma_num_levels, lemma_num_levels_lower, s_lvl_n, s_wf_chunk, s_wf_level,
    SpacedListSkeleton,
};
use vstd::prelude::*;

verus! {

/// An optional executable index path against its mathematical counterpart.
pub open spec fn opt_path_matches(r: Option<Vec<usize>>, s: Option<Seq<int>>) -> bool {
    match (r, s) {
        (Option::None, Option::None) => true,
        (Option::Some(v), Option::Some(sq)) => v@.map_values(|x: usize| x as int) == sq,
        _ => false,
    }
}

/// An optional executable (path, residual) pair against its mathematical
/// counterpart.
pub open spec fn opt_path_dist_matches(
    r: Option<(Vec<usize>, u64)>,
    s: Option<(Seq<int>, int)>,
) -> bool {
    match (r, s) {
        (Option::None, Option::None) => true,
        (Option::Some(v), Option::Some(sq)) => v.0@.map_values(|x: usize| x as int) == sq.0
            && v.1 as int == sq.1,
        _ => false,
    }
}

impl SpacedListSkeleton {
    /// Some node of this list sits exactly at position `p`.
    pub open spec fn has_node_at(self, p: int) -> bool {
        exists|i: int| 0 <= i < self.n() && self.pos(i) == p
    }

    /// The index of the node at position `p` (meaningful under strict
    /// spacing, where it is unique).
    pub open spec fn node_index_at(self, p: int) -> int {
        choose|i: int| 0 <= i < self.n() && self.pos(i) == p
    }

    /// Position `p` falls strictly between two consecutive nodes.
    pub open spec fn has_strict_gap_at(self, p: int) -> bool {
        exists|k: int| #![trigger self.pos(k)] 1 <= k < self.n() && self.pos(k - 1) < p < self.pos(k)
    }

    /// The upper node of the gap that `p` falls into.
    pub open spec fn gap_at(self, p: int) -> int {
        choose|k: int| #![trigger self.pos(k)] 1 <= k < self.n() && self.pos(k - 1) < p < self.pos(k)
    }

    /// The last node strictly before position `p`.
    pub open spec fn pred_index(self, p: int) -> int {
        choose|i: int|
            #![trigger self.pos(i)]
            0 <= i < self.n() && self.pos(i) < p && (i == self.n() - 1 || self.pos(i + 1) >= p)
    }

    /// The last node at or before position `p`, with a successor.
    pub open spec fn floor_index(self, p: int) -> int {
        choose|i: int| #![trigger self.pos(i)] 0 <= i < self.n() - 1 && self.pos(i) <= p && self.pos(i + 1) > p
    }

    /// An address: a non-empty index path, each later entry descending into
    /// the child list hanging right after the node the previous entry names.
    pub open spec fn path_valid(self, path: Seq<int>) -> bool
        decreases self,
    {
        &&& path.len() >= 1
        &&& 0 <= path[0] < self.n()
        &&& path.len() > 1 ==> path[0] + 1 < self.n() && self.has_child(path[0] + 1) && self.child(
            path[0] + 1,
        ).path_valid(path.skip(1))
    }

    /// The absolute position of the node an address points at: each nested
    /// step measures from the node standing before the gap its child list
    /// hangs in.
    pub open spec fn path_pos(self, path: Seq<int>) -> int
        decreases self,
    {
        if path.len() <= 1 {
            self.pos(path[0])
        } else if self.has_child(path[0] + 1) {
            self.pos(path[0]) + self.child(path[0] + 1).path_pos(path.skip(1))
        } else {
            self.pos(path[0])
        }
    }

    /// Every child list fits strictly inside the gap it hangs in, at every
    /// depth: its last node lies strictly before the upper end of the gap.
    pub open spec fn well_nested(self) -> bool
        decreases self,
    {
        forall|k: int|
            1 <= k < self.n() && #[trigger] self.has_child(k) ==> (self.child(k).n() >= 1
                ==> self.child(k).pos(self.child(k).n() - 1) < self.pos(k) - self.pos(k - 1))
                && self.child(k).well_nested()
    }

    /// What an exact-match lookup must return: the node exactly at `p` as a
    /// one-entry path, or, if `p` falls in a gap carrying a child list, the
    /// child's answer prefixed with the node before the gap.
    pub open spec fn spec_node_at(self, p: int) -> Option<Seq<int>>
        decreases self,
    {
        if self.n() == 0 || p < self.pos(0) || p > self.pos(self.n() - 1) {
            Option::None
        } else if self.has_node_at(p) {
            Option::Some(seq![self.node_index_at(p)])
        } else if self.has_strict_gap_at(p) && self.has_child(self.gap_at(p)) {
            match self.child(self.gap_at(p)).spec_node_at(p - self.pos(self.gap_at(p) - 1)) {
                Option::Some(path) => Option::Some(seq![self.gap_at(p) - 1] + path),
                Option::None => Option::None,
            }
        } else {
            Option::None
        }
    }

    /// What a predecessor lookup must return: the last node strictly before
    /// `p`, descending into the child list hanging right after it when one
    /// holds a still-later node, with the residual distance up to `p`.
    pub open spec fn spec_node_before(self, p: int) -> Option<(Seq<int>, int)>
        decreases self,
    {
        if self.n() == 0 || p <= self.pos(0) {
            Option::None
        } else {
            let i = self.pred_index(p);
            if i + 1 < self.n() && self.has_child(i + 1) {
                match self.child(i + 1).spec_node_before(p - self.pos(i)) {
                    Option::Some(pr) => Option::Some((seq![i] + pr.0, pr.1)),
                    Option::None => Option::Some((seq![i], p - self.pos(i))),
                }
            } else {
                Option::Some((seq![i], p - self.pos(i)))
            }
        }
    }

    /// What a successor lookup must return: the first node strictly after
    /// `p`, preferring a node of the child list hanging in the gap when it
    /// comes strictly earlier than the next node of this list.
    pub open spec fn spec_node_after(self, p: int) -> Option<(Seq<int>, int)>
        decreases self,
    {
        if self.n() == 0 {
            Option::None
        } else if p < self.pos(0) {
            Option::Some((seq![0int], self.pos(0) - p))
        } else if p >= self.pos(self.n() - 1) {
            Option::None
        } else {
            let i = self.floor_index(p);
            let rel = p - self.pos(i);
            let dnext = self.pos(i + 1) - self.pos(i);
            if self.has_child(i + 1) {
                match self.child(i + 1).spec_node_after(rel) {
                    Option::Some(pr) => if rel + pr.1 < dnext {
                        Option::Some((seq![i] + pr.0, pr.1))
                    } else {
                        Option::Some((seq![i + 1], self.pos(i + 1) - p))
                    },
                    Option::None => Option::Some((seq![i + 1], self.pos(i + 1) - p)),
                }
            } else {
                Option::Some((seq![i + 1], self.pos(i + 1) - p))
            }
        }
    }

    /// Under strict spacing the node at a position is unique.
    pub proof fn lemma_node_unique(self, i: int, p: int)
        requires
            self.strictly_spaced(),
            0 <= i < self.n(),
            self.pos(i) == p,
        ensures
            self.has_node_at(p),
            self.node_index_at(p) == i,
    {
        assert(self.has_node_at(p));
        let j = self.node_index_at(p);
        if j < i {
            self.lemma_rp_strict(j, i);
        } else if j > i {
            self.lemma_rp_strict(i, j);
        }
    }

    /// Positions strictly inside a gap carry no node.
    pub proof fn lemma_no_node_between(self, i: int, p: int)
        requires
            0 <= i < self.n() - 1,
            self.pos(i) < p < self.pos(i + 1),
        ensures
            !self.has_node_at(p),
            self.has_strict_gap_at(p),
            self.gap_at(p) == i + 1,
    {
        assert forall|j: int| 0 <= j < self.n() implies self.pos(j) != p by {
            if j <= i {
                crate::chunk::lemma_psum_mono(self.dists@, j + 1, i + 1);
            } else {
                crate::chunk::lemma_psum_mono(self.dists@, i + 2, j + 1);
            }
        }
        assert(1 <= i + 1 < self.n() && self.pos(i + 1 - 1) < p < self.pos(i + 1));
        let k = self.gap_at(p);
        if k < i + 1 {
            crate::chunk::lemma_psum_mono(self.dists@, k + 1, i + 1);
        } else if k > i + 1 {
            crate::chunk::lemma_psum_mono(self.dists@, i + 2, k);
        }
    }

    /// The node before `p` is pinned by its two-sided property.
    pub proof fn lemma_pred_unique(self, i: int, p: int)
        requires
            0 <= i < self.n(),
            self.pos(i) < p,
            i == self.n() - 1 || self.pos(i + 1) >= p,
        ensures
            self.pred_index(p) == i,
    {
        let j = self.pred_index(p);
        assert(0 <= j < self.n() && self.pos(j) < p && (j == self.n() - 1 || self.pos(j + 1) >= p))
            by {
            assert(0 <= i < self.n() && self.pos(i) < p && (i == self.n() - 1 || self.pos(i + 1)
                >= p));
        }
        if j < i {
            crate::chunk::lemma_psum_mono(self.dists@, j + 2, i + 1);
        } else if j > i {
            crate::chunk::lemma_psum_mono(self.dists@, i + 2, j + 1);
        }
    }

    /// The node at or before `p` with a successor is pinned likewise.
    pub proof fn lemma_floor_unique(self, i: int, p: int)
        requires
            0 <= i < self.n() - 1,
            self.pos(i) <= p,
            self.pos(i + 1) > p,
        ensures
            self.floor_index(p) == i,
    {
        let j = self.floor_index(p);
        assert(0 <= j < self.n() - 1 && self.pos(j) <= p && self.pos(j + 1) > p) by {
            assert(0 <= i < self.n() - 1 && self.pos(i) <= p && self.pos(i + 1) > p);
        }
        if j < i {
            crate::chunk::lemma_psum_mono(self.dists@, j + 2, i + 1);
        } else if j > i {
            crate::chunk::lemma_psum_mono(self.dists@, i + 2, j + 1);
        }
    }
    /// Relative positions never decrease with the node index, and stay
    /// within the total length.
    pub proof fn lemma_rp_bounds(self, a: int, b: int)
        requires
            self.wf(),
            0 <= a <= b < self.n(),
        ensures
            0 <= self.rp(a) <= self.rp(b),
            self.rp(b) <= self.total_length,
    {
        crate::chunk::lemma_psum_mono(self.dists@, 1, a + 1);
        crate::chunk::lemma_psum_mono(self.dists@, a + 1, b + 1);
        crate::chunk::lemma_psum_mono(self.dists@, b + 1, self.n());
        crate::chunk::lemma_psum_nonneg(self.dists@, 1);
    }

    /// Under strict spacing, relative positions strictly increase.
    pub proof fn lemma_rp_strict(self, a: int, b: int)
        requires
            self.strictly_spaced(),
            0 <= a < b < self.n(),
        ensures
            self.rp(a) < self.rp(b),
        decreases b - a,
    {
        if a + 1 < b {
            self.lemma_rp_strict(a, b - 1);
        }
        assert(psum(self.dists@, b + 1) == psum(self.dists@, b) + self.dists@[b]);
        assert(self.dists@[b] >= 1);
    }

    /// What one partial-sum slot read during the descent means: with the
    /// current node aligned to twice the skip and the landing node present,
    /// the slot holds exactly the distance from the current node to the
    /// landing node.
    pub proof fn lemma_read(self, l: int, cur: int, ld: int)
        requires
            self.wf(),
            self.n() >= 1,
            0 <= l < self.levels@.len(),
            0 <= ld < 8,
            0 <= cur,
            cur % (p256(l) * (2 * po2(ld))) == 0,
            cur + p256(l) * po2(ld) <= self.n() - 1,
        ensures
            ({
                let span = p256(l);
                let cl = cur / span;
                let cidx = cl / 256;
                let lidx = cl % 256;
                &&& 0 <= cidx < self.levels@[l]@.len()
                &&& 0 <= lidx < 256
                &&& 0 <= spec_link_index(lidx, ld) < 511
                &&& self.levels@[l]@[cidx].link_lengths@.len() == 511
                &&& (self.levels@[l]@[cidx].link_lengths@[spec_link_index(lidx, ld)]) as int
                    == self.rp(cur + span * po2(ld)) - self.rp(cur)
            }),
    {
        let nn = self.n();
        let d = self.dists@;
        let span = p256(l);
        let pd = po2(ld);
        lemma_p256_pos(l);
        lemma_po2_pos(ld);
        lemma_po2_values();
        assert(0 < 2 * pd) by (nonlinear_arith)
            requires
                1 <= pd,
        ;
        lemma_aligned_div(cur, span, 2 * pd);
        let cl = cur / span;
        lemma_div_exact(cur, span);
        assert(cur == span * cl);
        let cidx = cl / 256;
        let lidx = cl % 256;
        lemma_div_bounds(cl, 256);
        assert(cl == 256 * cidx + lidx);
        // the local index is aligned to twice the skip and leaves room
        lemma_po2_divides(ld + 1, 8);
        assert(po2(ld + 1) == 2 * pd);
        assert(256 == po2(ld + 1) * po2(8 - (ld + 1))) by {
            lemma_div_exact(po2(8), po2(ld + 1));
        }
        let w = po2(8 - (ld + 1));
        lemma_po2_pos(8 - (ld + 1));
        lemma_div_exact(cl, 2 * pd);
        let ca = cl / (2 * pd);
        assert(lidx == (2 * pd) * (ca - w * cidx)) by (nonlinear_arith)
            requires
                cl == (2 * pd) * ca,
                256 == (2 * pd) * w,
                lidx == cl - 256 * cidx,
        ;
        let a2 = ca - w * cidx;
        assert(0 <= a2 && a2 * (2 * pd) <= 255) by (nonlinear_arith)
            requires
                lidx == (2 * pd) * a2,
                0 <= lidx < 256,
                1 <= pd,
        ;
        assert(lidx + 2 * pd <= 256) by (nonlinear_arith)
            requires
                lidx == (2 * pd) * a2,
                256 == (2 * pd) * w,
                0 <= a2,
                1 <= pd,
                1 <= w,
                lidx < 256,
        ;
        assert(lidx + pd <= 255) by (nonlinear_arith)
            requires
                lidx + 2 * pd <= 256,
                1 <= pd,
        ;
        // the landing node exists at this level
        let lvn = s_lvl_n(nn, l);
        assert(span * (cl + pd) <= nn - 1) by (nonlinear_arith)
            requires
                cur == span * cl,
                cur + span * pd <= nn - 1,
        ;
        lemma_div_ge(nn - 1, span, cl + pd);
        assert(cl + pd <= (nn - 1) / span);
        assert(lvn == (nn - 1) / span + 1);
        // the block exists and is large enough
        assert(s_wf_level(self.levels@[l]@, d, l));
        assert(self.levels@[l]@.len() == (lvn - 1) / 256 + 1);
        lemma_div_mono(cl, lvn - 1, 256);
        assert(0 <= cidx < self.levels@[l]@.len());
        assert(s_wf_chunk(self.levels@[l]@[cidx], d, l, cidx));
        let c = self.levels@[l]@[cidx];
        assert(c.size as int == imin(lvn - 256 * cidx, 256));
        assert(lidx + pd < c.size) by {
            assert(256 * cidx + lidx + pd <= lvn - 1);
        }
        // the slot is the right band entry for this group
        let g = lidx / pd;
        assert(lidx % pd == 0) by {
            assert((2 * pd) % pd == 0 && lidx % (2 * pd) == 0) by (nonlinear_arith)
                requires
                    1 <= pd,
                    lidx == (2 * pd) * a2,
                    0 <= a2,
            ;
            crate::arith::lemma_divides_trans(lidx, pd, 2 * pd);
        }
        lemma_div_exact(lidx, pd);
        assert(lidx == g * pd) by (nonlinear_arith)
            requires
                lidx == pd * (lidx / pd),
                g == lidx / pd,
        ;
        assert(spec_link_index(lidx, ld) == crate::geometry::band_start(ld) + g);
        crate::chunk::lemma_slot_in_range(ld, g);
        assert(g * pd < 256) by (nonlinear_arith)
            requires
                lidx == g * pd,
                lidx < 256,
        ;
        assert(c.slot_val(ld, g) == range_sum(c.ds(), g * pd, g * pd + pd));
        // clip the range to the block's occupancy
        assert(range_sum(c.ds(), lidx, lidx + pd) == psum(c.ds(), lidx + pd + 1) - psum(
            c.ds(),
            lidx + 1,
        )) by {
            assert(imin(lidx + pd + 1, c.size as int) == lidx + pd + 1);
            assert(imin(lidx + 1, c.size as int) == lidx + 1);
        }
        // telescope into positions
        lemma_chunk_sum(c, d, l, cidx, lidx + 1, lidx + pd + 1);
        assert((256 * cidx + (lidx + pd + 1) - 1) * span == (cl + pd) * span);
        assert((256 * cidx + (lidx + 1) - 1) * span == cl * span);
        assert((cl + pd) * span == cur + span * pd && cl * span == cur) by (nonlinear_arith)
            requires
                cur == span * cl,
        ;
        assert(c.slot_val(ld, g) == psum(d, cur + span * pd + 1) - psum(d, cur + 1));
        assert(self.rp(cur + span * pd) - self.rp(cur) == psum(d, cur + span * pd + 1) - psum(
            d,
            cur + 1,
        ));
    }

    /// The attachment table for the gap before node `k` exists whenever node
    /// `k` does.
    pub proof fn lemma_table_exists(self, k: int)
        requires
            self.wf(),
            1 <= k < self.n(),
        ensures
            0 <= k / 256 < self.sublists@.len(),
            self.sublists@[k / 256].wf_table(),
    {
        lemma_num_levels(self.n());
        assert(p256(0) == 1);
        assert(s_wf_level(self.levels@[0]@, self.dists@, 0));
        assert(self.sublists@.len() == (self.n() - 1) / 256 + 1);
        lemma_div_mono(k, self.n() - 1, 256);
        lemma_div_bounds(k, 256);
    }

    /// Offsets tie relative and absolute positions together.
    pub proof fn lemma_pos_offset(self)
        requires
            self.wf(),
            self.n() >= 1,
        ensures
            self.pos(0) == self.offset,
            self.pos(self.n() - 1) == self.total_length,
            forall|i: int| #![trigger self.rp(i)] self.pos(i) == self.rp(i) + self.offset,
    {
        assert(psum(self.dists@, 1) == psum(self.dists@, 0) + self.dists@[0]);
    }

    /// The descent: find the last node strictly before relative position
    /// `t`, returning its index, its relative position, and (when a node
    /// follows it) the relative position of that next node.
    #[verifier::rlimit(60)]
    #[verifier::loop_isolation(false)]
    fn locate(&self, t: u64) -> (r: (usize, u64, u64))
        requires
            self.wf(),
            self.size >= 1,
            1 <= t,
        ensures
            ({
                let (i, q, spos) = r;
                &&& 0 <= i < self.size
                &&& q as int == self.rp(i as int)
                &&& (q as int) < t as int
                &&& i as int + 1 < self.size ==> spos as int == self.rp(i as int + 1) && spos
                    >= t
            }),
    {
        let n = self.size;
        let nl = self.levels.len();
        proof {
            lemma_num_levels(self.n());
            assert(nl >= 1);
            lemma_p256_pos(nl as int);
            lemma_p256_pos(nl as int - 1);
            if nl >= 2 {
                lemma_num_levels_lower(self.n());
            }
        }
        let mut span: usize = 1;
        let mut k: usize = 1;
        while k < nl
            invariant
                1 <= k <= nl,
                span as int == p256(k as int - 1),
            decreases nl - k,
        {
            proof {
                crate::arith::lemma_p256_mono(k as int, nl as int - 1);
                lemma_p256_pos(k as int - 1);
            }
            span = span * 256;
            k = k + 1;
        }
        let mut cur: usize = 0;
        let mut q: u64 = 0;
        let mut spos: u64 = 0;
        let mut li: usize = nl;
        proof {
            assert(psum(self.dists@, 1) == psum(self.dists@, 0) + self.dists@[0]);
            assert(self.rp(0) == 0);
        }
        while li > 0
            invariant
                li <= nl,
                li >= 1 ==> span as int == p256(li as int - 1),
                0 <= cur < self.size,
                cur as int % p256(li as int) == 0,
                q as int == self.rp(cur as int),
                (q as int) < t as int,
                cur as int + p256(li as int) <= self.size - 1 ==> spos as int == self.rp(
                    cur as int + p256(li as int),
                ) && spos >= t,
            decreases li,
        {
            li = li - 1;
            let mut deg: usize = 8;
            proof {
                assert(p256(li as int + 1) == p256(li as int) * po2(8)) by {
                    lemma_po2_values();
                    lemma_p256_pos(li as int);
                }
            }
            while deg > 0
                invariant
                    deg <= 8,
                    span as int == p256(li as int),
                    0 <= cur < self.size,
                    cur as int % (p256(li as int) * po2(deg as int)) == 0,
                    q as int == self.rp(cur as int),
                    (q as int) < t as int,
                    cur as int + p256(li as int) * po2(deg as int) <= self.size - 1 ==> spos
                        as int == self.rp(cur as int + p256(li as int) * po2(deg as int)) && spos
                        >= t,
                decreases deg,
            {
                deg = deg - 1;
                let tp = two_pow(deg);
                proof {
                    lemma_po2_pos(deg as int);
                    lemma_p256_pos(li as int);
                    lemma_div_bounds((n - 1 - cur) as int, tp as int);
                }
                if (n - 1 - cur) / tp >= span {
                    proof {
                        lemma_div_ge((n - 1 - cur) as int, tp as int, span as int);
                        assert(span as int * tp as int <= n - 1 - cur);
                        assert(p256(li as int) * po2(deg as int) == span as int * tp as int);
                        self.lemma_read(li as int, cur as int, deg as int);
                        self.lemma_rp_bounds(cur as int, self.n() - 1);
                        self.lemma_rp_bounds(
                            cur as int + p256(li as int) * po2(deg as int),
                            self.n() - 1,
                        );
                        self.lemma_rp_bounds(cur as int, cur as int + p256(li as int) * po2(
                            deg as int,
                        ));
                    }
                    let skip = span * tp;
                    let cl = cur / span;
                    let cidx = cl / 256;
                    let lidx = cl % 256;
                    let slot = link_index(lidx, deg);
                    let lvl_ref = &self.levels[li];
                    let ch_ref = &lvl_ref[cidx];
                    let v = ch_ref.link_lengths[slot];
                    let cpos = q + v;
                    proof {
                        let s = p256(li as int) * po2(deg as int);
                        assert(po2(deg as int + 1) == 2 * po2(deg as int));
                        assert(p256(li as int) * po2(deg as int + 1) == 2 * s)
                            by (nonlinear_arith)
                            requires
                                po2(deg as int + 1) == 2 * po2(deg as int),
                                s == p256(li as int) * po2(deg as int),
                        ;
                        assert(s >= 1) by (nonlinear_arith)
                            requires
                                p256(li as int) >= 1,
                                po2(deg as int) >= 1,
                                s == p256(li as int) * po2(deg as int),
                        ;
                    }
                    if cpos < t {
                        cur = cur + skip;
                        q = cpos;
                        proof {
                            let s = p256(li as int) * po2(deg as int);
                            assert(s >= 1) by (nonlinear_arith)
                                requires
                                    p256(li as int) >= 1,
                                    po2(deg as int) >= 1,
                                    s == p256(li as int) * po2(deg as int),
                            ;
                            crate::arith::lemma_advance_align(cur as int, s);
                            assert(cur as int + s == (cur as int - s) + 2 * s);
                        }
                    } else {
                        spos = cpos;
                        proof {
                            let s = p256(li as int) * po2(deg as int);
                            assert(s >= 1) by (nonlinear_arith)
                                requires
                                    p256(li as int) >= 1,
                                    po2(deg as int) >= 1,
                                    s == p256(li as int) * po2(deg as int),
                            ;
                            crate::arith::lemma_half_align(cur as int, s);
                        }
                    }
                } else {
                    proof {
                        let s = p256(li as int) * po2(deg as int);
                        assert(po2(deg as int + 1) == 2 * po2(deg as int));
                        assert(p256(li as int) * po2(deg as int + 1) == 2 * s)
                            by (nonlinear_arith)
                            requires
                                po2(deg as int + 1) == 2 * po2(deg as int),
                                s == p256(li as int) * po2(deg as int),
                        ;
                        assert(s >= 1) by (nonlinear_arith)
                            requires
                                p256(li as int) >= 1,
                                po2(deg as int) >= 1,
                                s == p256(li as int) * po2(deg as int),
                        ;
                        crate::arith::lemma_half_align(cur as int, s);
                        assert(cur as int + s > self.size - 1) by (nonlinear_arith)
                            requires
                                ((n - 1 - cur) as int / tp as int) < span as int,
                                tp as int * ((n - 1 - cur) as int / tp as int) <= (n - 1
                                    - cur) as int,
                                ((n - 1 - cur) as int) < tp as int * ((n - 1 - cur) as int / tp
                                    as int) + tp as int,
                                tp as int >= 1,
                                span as int >= 1,
                                tp as int == po2(deg as int),
                                span as int == p256(li as int),
                                s == span as int * tp as int,
                                n == self.size,
                        ;
                    }
                }
            }
            proof {
                if li >= 1 {
                    assert(p256(li as int) == p256(li as int - 1) * po2(0) * 256)
                        by (nonlinear_arith)
                        requires
                            p256(li as int) == 256 * p256(li as int - 1),
                            po2(0) == 1,
                    ;
                    crate::arith::lemma_div_exact_of_mul(256, p256(li as int - 1));
                }
            }
            if li > 0 {
                span = span / 256;
                proof {
                    assert(span as int == p256(li as int - 1)) by {
                        assert((256 * p256(li as int - 1)) / 256 == p256(li as int - 1)) by {
                            crate::arith::lemma_div_exact_of_mul(256, p256(li as int - 1));
                            assert(256 * p256(li as int - 1) == p256(li as int - 1) * 256)
                                by (nonlinear_arith);
                            crate::arith::lemma_div_exact_of_mul(
                                256,
                                p256(li as int - 1),
                            );
                        }
                        assert((256 * p256(li as int - 1)) % 256 == 0) by (nonlinear_arith)
                            requires
                                p256(li as int - 1) >= 1,
                        ;
                    }
                }
            }
        }
        (cur, q, spos)
    }

    /// The full index of the node at the given position, or absence if no
    /// node (of this list or of a reachable child list) sits exactly there.
    #[verifier::rlimit(100)]
    #[verifier::spinoff_prover]
    pub fn node_at(&self, position: u64) -> (r: Option<Vec<usize>>)
        requires
            self.wf(),
            self.strictly_spaced(),
        ensures
            opt_path_matches(r, self.spec_node_at(position as int)),
        decreases *self,
    {
        let ghost p = position as int;
        if self.size == 0 {
            return None;
        }
        proof {
            self.lemma_pos_offset();
        }
        if position < self.offset || position > self.total_length {
            return None;
        }
        if position == self.offset {
            proof {
                self.lemma_node_unique(0, p);
            }
            let mut v: Vec<usize> = Vec::new();
            v.push(0);
            proof {
                assert(v@.map_values(|x: usize| x as int) =~= seq![0int]);
            }
            return Some(v);
        }
        let t = position - self.offset;
        let (i, q, spos) = self.locate(t);
        proof {
            assert(t as int == p - self.pos(0));
            assert(i as int + 1 < self.n()) by {
                if i as int + 1 == self.n() {
                    assert(self.rp(i as int) < t as int);
                    assert(t as int <= self.rp(self.n() - 1));
                }
            }
            assert(self.pos(i as int) < p);
            assert(self.pos(i as int + 1) == spos as int + self.offset);
        }
        if spos == t {
            proof {
                self.lemma_node_unique(i as int + 1, p);
            }
            let mut v: Vec<usize> = Vec::new();
            v.push(i + 1);
            proof {
                assert(v@.map_values(|x: usize| x as int) =~= seq![i as int + 1]);
            }
            return Some(v);
        }
        proof {
            assert(self.pos(i as int) < p < self.pos(i as int + 1));
            self.lemma_no_node_between(i as int, p);
            self.lemma_table_exists(i as int + 1);
        }
        let k = i + 1;
        let ti = k / 256;
        let si = k % 256;
        let tbl = &self.sublists[ti];
        let slot = tbl.sublist_indices[si];
        match slot {
            Some(ix) => {
                proof {
                    assert(self.has_child(k as int));
                }
                let ch = &tbl.sublists[ix];
                proof {
                    assert(*ch == self.child(k as int));
                    assert(ch.wf() && ch.strictly_spaced());
                }
                let rel = t - q;
                let sub = ch.node_at(rel);
                proof {
                    assert(rel as int == p - self.pos(i as int));
                }
                match sub {
                    Some(sp) => {
                        let ghost spec_sub = ch.spec_node_at(rel as int);
                        let mut v: Vec<usize> = Vec::new();
                        v.push(i);
                        let mut tail = sp;
                        v.append(&mut tail);
                        proof {
                            let f = |x: usize| x as int;
                            assert(v@.map_values(f) =~= seq![i as int] + v@.skip(1).map_values(
                                f,
                            ));
                            assert(v@.skip(1) =~= sp@);
                        }
                        Some(v)
                    },
                    None => None,
                }
            },
            None => {
                proof {
                    assert(!self.has_child(k as int));
                }
                None
            },
        }
    }

    /// The full index of the last node strictly before the given position
    /// (descending into the child list hanging right after it when that
    /// holds a later node), with the distance from that node to the
    /// position; absence when no node lies strictly before it.
    #[verifier::rlimit(100)]
    #[verifier::spinoff_prover]
    pub fn node_before(&self, position: u64) -> (r: Option<(Vec<usize>, u64)>)
        requires
            self.wf(),
            self.strictly_spaced(),
        ensures
            opt_path_dist_matches(r, self.spec_node_before(position as int)),
        decreases *self,
    {
        let ghost p = position as int;
        if self.size == 0 {
            return None;
        }
        proof {
            self.lemma_pos_offset();
        }
        if position <= self.offset {
            return None;
        }
        let t = position - self.offset;
        let (i, q, spos) = self.locate(t);
        proof {
            assert(t as int == p - self.pos(0));
            assert(self.pos(i as int) < p);
            if i as int + 1 < self.n() {
                assert(self.pos(i as int + 1) == spos as int + self.offset);
                assert(self.pos(i as int + 1) >= p);
            }
            self.lemma_pred_unique(i as int, p);
        }
        let rd = t - q;
        proof {
            assert(rd as int == p - self.pos(i as int));
        }
        let k = i + 1;
        if k < self.size {
            proof {
                self.lemma_table_exists(k as int);
            }
            let ti = k / 256;
            let si = k % 256;
            let tbl = &self.sublists[ti];
            let slot = tbl.sublist_indices[si];
            match slot {
                Some(ix) => {
                    proof {
                        assert(self.has_child(k as int));
                    }
                    let ch = &tbl.sublists[ix];
                    proof {
                        assert(*ch == self.child(k as int));
                        assert(ch.wf() && ch.strictly_spaced());
                    }
                    let sub = ch.node_before(rd);
                    match sub {
                        Some(pr) => {
                            let (sp, srd) = pr;
                            let mut v: Vec<usize> = Vec::new();
                            v.push(i);
                            let mut tail = sp;
                            v.append(&mut tail);
                            proof {
                                let f = |x: usize| x as int;
                                assert(v@.map_values(f) =~= seq![i as int] + v@.skip(
                                    1,
                                ).map_values(f));
                                let ghost sps = ch.spec_node_before(rd as int)->0;
                                assert(v@.skip(1).map_values(f) == sps.0);
                            }
                            Some((v, srd))
                        },
                        None => {
                            let mut v: Vec<usize> = Vec::new();
                            v.push(i);
                            proof {
                                assert(v@.map_values(|x: usize| x as int) =~= seq![i as int]);
                            }
                            Some((v, rd))
                        },
                    }
                },
                None => {
                    proof {
                        assert(!self.has_child(k as int));
                    }
                    let mut v: Vec<usize> = Vec::new();
                    v.push(i);
                    proof {
                        assert(v@.map_values(|x: usize| x as int) =~= seq![i as int]);
                    }
                    Some((v, rd))
                },
            }
        } else {
            let mut v: Vec<usize> = Vec::new();
            v.push(i);
            proof {
                assert(v@.map_values(|x: usize| x as int) =~= seq![i as int]);
            }
            Some((v, rd))
        }
    }

    /// The full index of the first node strictly after the given position
    /// (preferring a strictly earlier node of the child list hanging in the
    /// gap), with the distance from the position to that node; absence when
    /// no node lies strictly after it.
    #[verifier::rlimit(100)]
    #[verifier::spinoff_prover]
    pub fn node_after(&self, position: u64) -> (r: Option<(Vec<usize>, u64)>)
        requires
            self.wf(),
            self.strictly_spaced(),
        ensures
            opt_path_dist_matches(r, self.spec_node_after(position as int)),
        decreases *self,
    {
        let ghost p = position as int;
        if self.size == 0 {
            return None;
        }
        proof {
            self.lemma_pos_offset();
        }
        if position < self.offset {
            let mut v: Vec<usize> = Vec::new();
            v.push(0);
            proof {
                assert(v@.map_values(|x: usize| x as int) =~= seq![0int]);
            }
            return Some((v, self.offset - position));
        }
        if position >= self.total_length {
            return None;
        }
        let t = position - self.offset;
        proof {
            assert(t as int == p - self.pos(0));
            assert(t < self.total_length);
            self.lemma_rp_bounds(0, self.n() - 1);
        }
        let (i, q, spos) = self.locate(t + 1);
        proof {
            assert(i as int + 1 < self.n()) by {
                if i as int + 1 == self.n() {
                    assert(self.rp(i as int) < t as int + 1);
                    assert(t as int + 1 <= self.rp(self.n() - 1) + 1);
                    assert((t as int) < self.rp(self.n() - 1));
                }
            }
            assert(self.pos(i as int) <= p);
            assert(self.pos(i as int + 1) == spos as int + self.offset);
            assert(self.pos(i as int + 1) > p);
            self.lemma_floor_unique(i as int, p);
        }
        let rel = t - q;
        proof {
            assert(rel as int == p - self.pos(i as int));
            assert(spos - t >= 1);
        }
        let k = i + 1;
        proof {
            self.lemma_table_exists(k as int);
        }
        let ti = k / 256;
        let si = k % 256;
        let tbl = &self.sublists[ti];
        let slot = tbl.sublist_indices[si];
        match slot {
            Some(ix) => {
                proof {
                    assert(self.has_child(k as int));
                }
                let ch = &tbl.sublists[ix];
                proof {
                    assert(*ch == self.child(k as int));
                    assert(ch.wf() && ch.strictly_spaced());
                }
                let sub = ch.node_after(rel);
                match sub {
                    Some(pr) => {
                        let (sp, srd) = pr;
                        if srd < spos - t {
                            proof {
                                assert((rel as int + srd as int) < (spos as int + self.offset)
                                    - (q as int + self.offset));
                            }
                            let mut v: Vec<usize> = Vec::new();
                            v.push(i);
                            let mut tail = sp;
                            v.append(&mut tail);
                            proof {
                                let f = |x: usize| x as int;
                                assert(v@.map_values(f) =~= seq![i as int] + v@.skip(
                                    1,
                                ).map_values(f));
                                let ghost sps = ch.spec_node_after(rel as int)->0;
                                assert(v@.skip(1).map_values(f) == sps.0);
                            }
                            Some((v, srd))
                        } else {
                            let mut v: Vec<usize> = Vec::new();
                            v.push(k);
                            proof {
                                assert(v@.map_values(|x: usize| x as int) =~= seq![i as int
                                    + 1]);
                            }
                            Some((v, spos - t))
                        }
                    },
                    None => {
                        let mut v: Vec<usize> = Vec::new();
                        v.push(k);
                        proof {
                            assert(v@.map_values(|x: usize| x as int) =~= seq![i as int + 1]);
                        }
                        Some((v, spos - t))
                    },
                }
            },
            None => {
                proof {
                    assert(!self.has_child(k as int));
                }
                let mut v: Vec<usize> = Vec::new();
                v.push(k);
                proof {
                    assert(v@.map_values(|x: usize| x as int) =~= seq![i as int + 1]);
                }
                Some((v, spos - t))
            },
        }
    }
}

} // verus!
