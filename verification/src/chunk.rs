//! The fixed-capacity block: up to 256 nodes, where node 0 carries no
//! recorded distance and every later node's distance is absorbed into one
//! partial-sum slot per degree.  The slot of degree `d` for group `g` holds
//! the cumulative distance spanning the nodes strictly after `g * 2^d` up to
//! and including `(g + 1) * 2^d`, clipped to the nodes present so far.

use crate::arith::{imin, lemma_po2_pos, po2};
use crate::geometry::{
    band_start, lemma_band_bounds, lemma_bands_disjoint, link_index, spec_link_index,
};
use vstd::prelude::*;

verus! {

/// Sum of the first `k` entries of `s` (0 for `k <= 0`).
pub open spec fn psum(s: Seq<u64>, k: int) -> int
    decreases k,
{
    if k <= 0 {
        0
    } else {
        psum(s, k - 1) + s[k - 1]
    }
}

/// The distances recorded for the nodes strictly inside `(lo, hi]`, among
/// those already present in `s`.
pub open spec fn range_sum(s: Seq<u64>, lo: int, hi: int) -> int {
    psum(s, imin(hi + 1, s.len() as int)) - psum(s, imin(lo + 1, s.len() as int))
}

pub proof fn lemma_psum_nonneg(s: Seq<u64>, k: int)
    ensures
        psum(s, k) >= 0,
    decreases k,
{
    if k > 0 {
        lemma_psum_nonneg(s, k - 1);
    }
}

pub proof fn lemma_psum_mono(s: Seq<u64>, a: int, b: int)
    requires
        a <= b,
    ensures
        psum(s, a) <= psum(s, b),
    decreases b - a,
{
    if a < b {
        lemma_psum_mono(s, a, b - 1);
    }
}

/// Pushing an entry changes no prefix sum over the old entries, and the full
/// sum grows by the new entry.
pub proof fn lemma_psum_push(s: Seq<u64>, x: u64, k: int)
    requires
        k <= s.len(),
    ensures
        psum(s.push(x), k) == psum(s, k),
        psum(s.push(x), s.len() as int + 1) == psum(s, s.len() as int) + x,
    decreases s.len() + 1 - k,
{
    if k < s.len() {
        lemma_psum_push(s, x, k + 1);
        if k >= 0 {
            assert(s.push(x)[k] == s[k]);
        }
    } else {
        lemma_psum_push_full(s, x, s.len() as int + 1);
    }
}

proof fn lemma_psum_push_full(s: Seq<u64>, x: u64, k: int)
    requires
        k <= s.len() + 1,
    ensures
        k == s.len() + 1 ==> psum(s.push(x), k) == psum(s, s.len() as int) + x,
        k <= s.len() ==> psum(s.push(x), k) == psum(s, k),
    decreases
            if k >= 0 {
                k
            } else {
                0
            },
{
    if k > 0 {
        lemma_psum_push_full(s, x, k - 1);
        if k == s.len() + 1 {
            assert(s.push(x)[k - 1] == x);
        } else {
            assert(s.push(x)[k - 1] == s[k - 1]);
        }
    }
}

/// A fixed-capacity block of partial sums.
pub struct ChunkSkeleton {
    /// One slot per (degree, group) pair, bands of increasing degree.
    pub link_lengths: Vec<u64>,
    /// Sum of every distance this block has absorbed.
    pub total_length: u64,
    /// Number of nodes present, at most 256.
    pub size: usize,
}

impl ChunkSkeleton {
    /// The recorded distances, one per node present: node 0 carries 0, node
    /// `j >= 1` carries the degree-0 slot of its own group.
    pub open spec fn ds(self) -> Seq<u64> {
        Seq::new(
            self.size as nat,
            |j: int|
                if j == 0 {
                    0u64
                } else {
                    self.link_lengths@[j - 1]
                },
        )
    }

    /// The value stored in the slot of degree `d`, group `g`.
    pub open spec fn slot_val(self, d: int, g: int) -> int {
        self.link_lengths@[band_start(d) + g] as int
    }

    /// Every slot holds exactly the distances of the present nodes its dyadic
    /// group covers.
    pub open spec fn wf(self) -> bool {
        &&& self.link_lengths@.len() == 511
        &&& self.size <= 256
        &&& self.total_length as int == psum(self.ds(), self.size as int)
        &&& forall|d: int, g: int|
            0 <= d < 9 && 0 <= g && g * po2(d) < 256 ==> #[trigger] self.slot_val(d, g)
                == range_sum(self.ds(), g * po2(d), g * po2(d) + po2(d))
    }

    /// A fresh, empty block.
    pub fn new() -> (r: Self)
        ensures
            r.wf(),
            r.size == 0,
            r.total_length == 0,
            r.ds() == Seq::<u64>::empty(),
            forall|m: int| 0 <= m < 511 ==> r.link_lengths@[m] == 0,
    {
        let mut link_lengths: Vec<u64> = Vec::new();
        let mut m: usize = 0;
        while m < 511
            invariant
                m <= 511,
                link_lengths@.len() == m as int,
                forall|k: int| 0 <= k < m ==> link_lengths@[k] == 0,
            decreases 511 - m,
        {
            link_lengths.push(0);
            m = m + 1;
        }
        let r = ChunkSkeleton { link_lengths, total_length: 0, size: 0 };
        proof {
            assert(r.ds() =~= Seq::<u64>::empty());
            assert forall|d: int, g: int|
                0 <= d < 9 && 0 <= g && g * po2(d) < 256 implies #[trigger] r.slot_val(d, g)
                == range_sum(r.ds(), g * po2(d), g * po2(d) + po2(d)) by {
                lemma_po2_pos(d);
                lemma_band_bounds(g * po2(d), d);
                assert(spec_link_index(g * po2(d), d) == band_start(d) + g) by {
                    crate::arith::lemma_div_bounds(g * po2(d), po2(d));
                    assert((g * po2(d)) / po2(d) == g) by (nonlinear_arith)
                        requires
                            po2(d) >= 1,
                            0 <= g,
                    ;
                }
            }
        }
        r
    }

    /// Append one node.  The first node of a block records no distance; every
    /// later node's distance is added to one slot per degree, to the running
    /// total, and becomes the last entry of `ds()`.
    pub fn append_node(&mut self, distance: u64)
        requires
            old(self).wf(),
            old(self).size < 256,
            old(self).total_length + distance <= u64::MAX,
        ensures
            final(self).wf(),
            final(self).size == old(self).size + 1,
            old(self).size == 0 ==> final(self).ds() == seq![0u64] && final(self).total_length
                == old(self).total_length,
            old(self).size >= 1 ==> final(self).ds() == old(self).ds().push(distance)
                && final(self).total_length == old(self).total_length + distance,
    {
        if self.size == 0 {
            self.size = 1;
            proof {
                assert(self.ds() =~= seq![0u64]);
                assert(psum(self.ds(), 0) == 0);
                assert(psum(self.ds(), 1) == psum(self.ds(), 0) + self.ds()[0]);
                assert forall|d: int, g: int|
                    0 <= d < 9 && 0 <= g && g * po2(d) < 256 implies #[trigger] self.slot_val(d, g)
                    == range_sum(self.ds(), g * po2(d), g * po2(d) + po2(d)) by {
                    lemma_po2_pos(d);
                    assert(old(self).slot_val(d, g) == range_sum(
                        old(self).ds(),
                        g * po2(d),
                        g * po2(d) + po2(d),
                    ));
                    assert(old(self).ds() =~= Seq::<u64>::empty());
                    assert(range_sum(self.ds(), g * po2(d), g * po2(d) + po2(d)) == 0) by {
                        assert(imin(g * po2(d) + 1, 1) == imin(g * po2(d) + po2(d) + 1, 1) || g
                            == 0);
                        if g == 0 {
                            assert(imin(0int + 1, 1) == 1);
                            assert(imin(po2(d) + 1, 1int) == 1);
                        }
                    }
                }
            }
            return ;
        }
        let j = self.size;
        let ghost prev = *self;
        let ghost nds = prev.ds().push(distance);
        let mut d: usize = 0;
        while d < 9
            invariant
                1 <= j < 256,
                d <= 9,
                self.size == j,
                self.total_length == prev.total_length,
                prev.wf(),
                prev.total_length + distance <= u64::MAX,
                self.link_lengths@.len() == 511,
                forall|dd: int, g: int|
                    0 <= dd < 9 && 0 <= g && g * po2(dd) < 256 && (dd >= d || g != (j - 1) as int
                        / po2(dd)) ==> #[trigger] self.slot_val(dd, g) == prev.slot_val(dd, g),
                forall|dd: int|
                    0 <= dd < d ==> #[trigger] self.slot_val(dd, (j - 1) as int / po2(dd))
                        == prev.slot_val(dd, (j - 1) as int / po2(dd)) + distance,
            decreases 9 - d,
        {
            let ghost snap = *self;
            let idx = link_index(j - 1, d);
            proof {
                lemma_po2_pos(d as int);
                crate::arith::lemma_div_bounds((j - 1) as int, po2(d as int));
                let g = (j - 1) as int / po2(d as int);
                assert(g * po2(d as int) < 256) by (nonlinear_arith)
                    requires
                        po2(d as int) >= 1,
                        g >= 0,
                        po2(d as int) * g <= (j - 1) as int,
                        j < 256,
                ;
                assert(snap.slot_val(d as int, g) == prev.slot_val(d as int, g));
                prev.lemma_slot_le_total(d as int, g);
                lemma_band_bounds((j - 1) as int, d as int);
                assert(idx == band_start(d as int) + g);
                assert(snap.link_lengths@[idx as int] as int == snap.slot_val(d as int, g));
            }
            let cur = self.link_lengths[idx];
            self.link_lengths[idx] = cur + distance;
            proof {
                let g = (j - 1) as int / po2(d as int);
                assert(self.link_lengths@ == snap.link_lengths@.update(
                    idx as int,
                    (cur + distance) as u64,
                ));
                assert(self.link_lengths@[idx as int] == (cur + distance) as u64);
                assert(self.slot_val(d as int, g) == prev.slot_val(d as int, g) + distance);
                assert forall|dd: int, gg: int|
                    0 <= dd < 9 && 0 <= gg && gg * po2(dd) < 256 && (dd >= d + 1 || gg != (j
                        - 1) as int / po2(dd)) implies #[trigger] self.slot_val(dd, gg)
                    == prev.slot_val(dd, gg) by {
                    lemma_po2_pos(dd);
                    lemma_slot_in_range(dd, gg);
                    if dd != d as int {
                        lemma_slot_indices_ne(dd, gg, d as int, g);
                    } else {
                        assert(band_start(dd) + gg != band_start(dd) + g);
                    }
                    lemma_update_other_slot(
                        snap,
                        *self,
                        idx as int,
                        (cur + distance) as u64,
                        dd,
                        gg,
                    );
                    assert(snap.slot_val(dd, gg) == prev.slot_val(dd, gg));
                }
                assert forall|dd: int| 0 <= dd < d + 1 implies #[trigger] self.slot_val(
                    dd,
                    (j - 1) as int / po2(dd),
                ) == prev.slot_val(dd, (j - 1) as int / po2(dd)) + distance by {
                    if dd < d as int {
                        lemma_po2_pos(dd);
                        lemma_po2_pos(d as int);
                        crate::arith::lemma_div_bounds((j - 1) as int, po2(dd));
                        let gg = (j - 1) as int / po2(dd);
                        assert(gg * po2(dd) < 256) by (nonlinear_arith)
                            requires
                                po2(dd) >= 1,
                                gg >= 0,
                                po2(dd) * gg <= (j - 1) as int,
                                j < 256,
                        ;
                        lemma_slot_in_range(dd, gg);
                        lemma_slot_indices_ne(dd, gg, d as int, g);
                        lemma_update_other_slot(
                            snap,
                            *self,
                            idx as int,
                            (cur + distance) as u64,
                            dd,
                            gg,
                        );
                        assert(snap.slot_val(dd, gg) == prev.slot_val(dd, gg) + distance);
                    }
                }
            }
            d = d + 1;
        }
        let ghost done = *self;
        self.size = j + 1;
        self.total_length = self.total_length + distance;
        proof {
            assert(self.link_lengths@ == done.link_lengths@);
            assert(self.ds() =~= nds) by {
                assert forall|m: int| 0 <= m < j + 1 implies self.ds()[m] == nds[m] by {
                    if m == 0 {
                    } else if m < j {
                        assert(prev.ds()[m] == prev.link_lengths@[m - 1]);
                        lemma_po2_pos(0);
                        assert(band_start(0) == 0);
                        assert((m - 1) / po2(0) == m - 1);
                        assert(prev.slot_val(0, m - 1) == prev.link_lengths@[m - 1]);
                        assert(done.slot_val(0, m - 1) == prev.slot_val(0, m - 1)) by {
                            assert(m - 1 != (j - 1) as int / po2(0));
                        }
                        lemma_same_links_same_slots(*self, done, 0, m - 1);
                    } else {
                        assert(m == j);
                        assert(done.slot_val(0, j - 1) == prev.slot_val(0, j - 1) + distance);
                        lemma_same_links_same_slots(*self, done, 0, j - 1);
                        assert(prev.slot_val(0, j - 1) == range_sum(
                            prev.ds(),
                            (j - 1) as int,
                            (j - 1) as int + 1,
                        ));
                        assert(imin((j - 1) as int + 1, j as int) == j as int);
                        assert(imin(j as int + 1, j as int) == j as int);
                        assert(range_sum(prev.ds(), (j - 1) as int, (j - 1) as int + 1) == 0);
                    }
                }
            }
            lemma_psum_push(prev.ds(), distance, j as int);
            assert(self.total_length as int == psum(nds, j + 1));
            assert forall|dd: int, g: int|
                0 <= dd < 9 && 0 <= g && g * po2(dd) < 256 implies #[trigger] self.slot_val(dd, g)
                == range_sum(nds, g * po2(dd), g * po2(dd) + po2(dd)) by {
                lemma_po2_pos(dd);
                let lo = g * po2(dd);
                let hi = g * po2(dd) + po2(dd);
                crate::arith::lemma_div_bounds((j - 1) as int, po2(dd));
                if g == (j - 1) as int / po2(dd) {
                    assert(lo <= j - 1 < hi) by (nonlinear_arith)
                        requires
                            po2(dd) >= 1,
                            lo == g * po2(dd),
                            hi == lo + po2(dd),
                            po2(dd) * ((j - 1) as int / po2(dd)) <= (j - 1) as int,
                            ((j - 1) as int) < po2(dd) * ((j - 1) as int / po2(dd)) + po2(dd),
                            g == (j - 1) as int / po2(dd),
                    ;
                    assert(done.slot_val(dd, g) == prev.slot_val(dd, g) + distance);
                    lemma_same_links_same_slots(*self, done, dd, g);
                    lemma_range_sum_push_covered(prev.ds(), distance, lo, hi);
                } else {
                    assert(done.slot_val(dd, g) == prev.slot_val(dd, g));
                    lemma_same_links_same_slots(*self, done, dd, g);
                    assert(j - 1 < lo || j - 1 >= hi) by (nonlinear_arith)
                        requires
                            po2(dd) >= 1,
                            lo == g * po2(dd),
                            hi == lo + po2(dd),
                            po2(dd) * ((j - 1) as int / po2(dd)) <= (j - 1) as int,
                            ((j - 1) as int) < po2(dd) * ((j - 1) as int / po2(dd)) + po2(dd),
                            g != (j - 1) as int / po2(dd),
                            0 <= (j - 1) as int / po2(dd),
                            0 <= g,
                    ;
                    lemma_range_sum_push_uncovered(prev.ds(), distance, lo, hi);
                }
            }
        }
    }

    /// No slot exceeds the block's running total.
    pub proof fn lemma_slot_le_total(self, d: int, g: int)
        requires
            self.wf(),
            0 <= d < 9,
            0 <= g,
            g * po2(d) < 256,
        ensures
            0 <= self.slot_val(d, g) <= self.total_length,
    {
        let lo = g * po2(d);
        let hi = lo + po2(d);
        let n = self.ds().len() as int;
        lemma_po2_pos(d);
        lemma_psum_mono(self.ds(), imin(lo + 1, n), imin(hi + 1, n));
        lemma_psum_mono(self.ds(), imin(hi + 1, n), n);
        lemma_psum_nonneg(self.ds(), imin(lo + 1, n));
        lemma_psum_mono(self.ds(), 0, imin(lo + 1, n));
    }
}

/// Slots from different (degree, group) pairs occupy different indices.
proof fn lemma_slot_indices_ne(d1: int, g1: int, d2: int, g2: int)
    requires
        0 <= d1 < 9,
        0 <= d2 < 9,
        0 <= g1,
        0 <= g2,
        g1 * po2(d1) < 256,
        g2 * po2(d2) < 256,
        d1 != d2 || g1 != g2,
    ensures
        band_start(d1) + g1 != band_start(d2) + g2,
{
    lemma_po2_pos(d1);
    lemma_po2_pos(d2);
    let i1 = g1 * po2(d1);
    let i2 = g2 * po2(d2);
    assert(0 <= i1 < 256 && 0 <= i2 < 256) by (nonlinear_arith)
        requires
            po2(d1) >= 1,
            po2(d2) >= 1,
            0 <= g1,
            0 <= g2,
            g1 * po2(d1) < 256,
            g2 * po2(d2) < 256,
            i1 == g1 * po2(d1),
            i2 == g2 * po2(d2),
    ;
    assert(i1 / po2(d1) == g1 && i2 / po2(d2) == g2) by (nonlinear_arith)
        requires
            po2(d1) >= 1,
            po2(d2) >= 1,
            0 <= g1,
            0 <= g2,
            i1 == g1 * po2(d1),
            i2 == g2 * po2(d2),
    ;
    if d1 < d2 {
        lemma_bands_disjoint(i1, d1, i2, d2);
    } else if d2 < d1 {
        lemma_bands_disjoint(i2, d2, i1, d1);
    } else {
        assert(band_start(d1) + g1 != band_start(d2) + g2);
    }
}

/// Pushing a distance onto `s` raises by that distance every range that
/// covers the new node (node index `s.len()`).
proof fn lemma_range_sum_push_covered(s: Seq<u64>, x: u64, lo: int, hi: int)
    requires
        0 <= lo <= s.len() - 1 < hi,
    ensures
        range_sum(s.push(x), lo, hi) == range_sum(s, lo, hi) + x,
{
    let n = s.len() as int;
    lemma_psum_push(s, x, imin(lo + 1, n));
    lemma_psum_push(s, x, n);
    assert(imin(lo + 1, n + 1) == imin(lo + 1, n));
    assert(imin(hi + 1, n + 1) == n + 1);
    assert(imin(hi + 1, n) == n);
}

/// Pushing a distance changes no range that does not cover the new node.
proof fn lemma_range_sum_push_uncovered(s: Seq<u64>, x: u64, lo: int, hi: int)
    requires
        0 <= lo <= hi,
        hi <= s.len() - 1 || lo >= s.len(),
    ensures
        range_sum(s.push(x), lo, hi) == range_sum(s, lo, hi),
{
    let n = s.len() as int;
    if hi <= n - 1 {
        lemma_psum_push(s, x, imin(lo + 1, n));
        lemma_psum_push(s, x, imin(hi + 1, n));
        assert(imin(lo + 1, n + 1) == imin(lo + 1, n));
        assert(imin(hi + 1, n + 1) == imin(hi + 1, n));
    } else {
        assert(imin(lo + 1, n) == n);
        assert(imin(hi + 1, n) == n);
        assert(imin(lo + 1, n + 1) == n + 1);
        assert(imin(hi + 1, n + 1) == n + 1);
    }
}

/// Every in-range (degree, group) pair addresses a slot inside the array.
pub proof fn lemma_slot_in_range(d: int, g: int)
    requires
        0 <= d < 9,
        0 <= g,
        g * po2(d) < 256,
    ensures
        0 <= band_start(d) + g < 511,
{
    lemma_po2_pos(d);
    lemma_band_bounds(g * po2(d), d);
    assert((g * po2(d)) / po2(d) == g) by (nonlinear_arith)
        requires
            po2(d) >= 1,
            0 <= g,
    ;
}

/// Blocks with equal slot arrays agree on every slot.
proof fn lemma_same_links_same_slots(a: ChunkSkeleton, b: ChunkSkeleton, d: int, g: int)
    requires
        a.link_lengths@ == b.link_lengths@,
    ensures
        a.slot_val(d, g) == b.slot_val(d, g),
{
}

/// Updating one slot leaves every other slot unchanged.
proof fn lemma_update_other_slot(
    a: ChunkSkeleton,
    b: ChunkSkeleton,
    i: int,
    v: u64,
    d: int,
    g: int,
)
    requires
        b.link_lengths@ == a.link_lengths@.update(i, v),
        0 <= i < a.link_lengths@.len(),
        0 <= band_start(d) + g < a.link_lengths@.len(),
        band_start(d) + g != i,
    ensures
        b.slot_val(d, g) == a.slot_val(d, g),
{
    assert(a.link_lengths@.update(i, v)[band_start(d) + g] == a.link_lengths@[band_start(d) + g]);
}

} // verus!
