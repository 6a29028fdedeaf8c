//! The library's guarantees, stated on their own: accounting of appends,
//! round-trip lookups, absence inside bare gaps, predecessor correctness,
//! level promotion, and the capacity bound of a block.

use crate::chunk::psum;
use crate::skeleton::{num_levels, s_lvl_dist, s_lvl_n, s_wf_chunk, s_wf_level, SpacedListSkeleton};
use vstd::prelude::*;

verus! {

/// Append monotonicity: after appending distances d1 .. dn in order (so
/// `dists` is exactly that sequence, by `append_node`'s contract), the total
/// length is their sum and the offset is d1.
pub proof fn lemma_append_accounting(s: SpacedListSkeleton)
    requires
        s.wf(),
        s.n() >= 1,
    ensures
        s.total_length as int == psum(s.dists@, s.n()),
        s.offset == s.dists@[0],
{
}

/// Round-trip lookup: the position of any node of the list itself resolves
/// back to exactly that node, as a one-entry path.
pub proof fn lemma_round_trip(s: SpacedListSkeleton, i: int)
    requires
        s.wf(),
        s.strictly_spaced(),
        0 <= i < s.n(),
    ensures
        s.spec_node_at(s.pos(i)) == Option::Some(seq![i]),
{
    s.lemma_pos_offset();
    s.lemma_rp_bounds(0, i);
    s.lemma_rp_bounds(i, s.n() - 1);
    s.lemma_node_unique(i, s.pos(i));
}

/// Gap absence: a position strictly between two consecutive node positions,
/// with no child list attached in that gap, matches nothing.
pub proof fn lemma_gap_absence(s: SpacedListSkeleton, i: int, p: int)
    requires
        s.wf(),
        0 <= i < s.n() - 1,
        s.pos(i) < p < s.pos(i + 1),
        !s.has_child(i + 1),
    ensures
        s.spec_node_at(p) is None,
{
    s.lemma_pos_offset();
    s.lemma_rp_bounds(0, i);
    s.lemma_rp_bounds(i + 1, s.n() - 1);
    s.lemma_no_node_between(i, p);
}

/// Predecessor correctness: for a position falling after node `i` and not
/// after node `i + 1`, with no child list in the gap between them, the
/// predecessor lookup returns exactly node `i` and the residual distance
/// `p - pos(i)`.
pub proof fn lemma_predecessor(s: SpacedListSkeleton, i: int, p: int)
    requires
        s.wf(),
        0 <= i < s.n(),
        s.pos(i) < p,
        i == s.n() - 1 || s.pos(i + 1) >= p,
        i + 1 == s.n() || !s.has_child(i + 1),
    ensures
        s.spec_node_before(p) == Option::Some((seq![i], p - s.pos(i))),
{
    s.lemma_pos_offset();
    s.lemma_rp_bounds(0, i);
    s.lemma_pred_unique(i, p);
}

/// Level promotion: a list of 257 nodes holds exactly two level-0 blocks (a
/// full one and one holding the last node) and a single level-1 block whose
/// one recorded element spans the whole first block, incoming distance
/// included.
pub proof fn lemma_level_promotion(s: SpacedListSkeleton)
    requires
        s.wf(),
        s.n() == 257,
    ensures
        s.levels@.len() == 2,
        s.levels@[0]@.len() == 2,
        s.levels@[1]@.len() == 1,
        s.levels@[0]@[0].size == 256,
        s.levels@[0]@[1].size == 1,
        s.levels@[1]@[0].size == 2,
        s.levels@[1]@[0].ds()[1] as int == psum(s.dists@, 257) - psum(s.dists@, 1),
        s.levels@[1]@[0].total_length as int == psum(s.dists@, 257) - psum(s.dists@, 1),
{
    assert(num_levels(2) == 1);
    assert(num_levels(257) == 1 + num_levels(2));
    assert(crate::arith::p256(0) == 1);
    assert(crate::arith::p256(1) == 256);
    assert(s_wf_level(s.levels@[0]@, s.dists@, 0));
    assert(s_lvl_n(257, 0) == 257);
    assert(s.levels@[0]@.len() == 2);
    assert(s_wf_chunk(s.levels@[0]@[0], s.dists@, 0, 0));
    assert(s_wf_chunk(s.levels@[0]@[1], s.dists@, 0, 1));
    assert(s_wf_level(s.levels@[1]@, s.dists@, 1));
    assert(s_lvl_n(257, 1) == 2);
    assert(s.levels@[1]@.len() == 1);
    assert(s_wf_chunk(s.levels@[1]@[0], s.dists@, 1, 0));
    let c = s.levels@[1]@[0];
    assert(c.size == 2);
    assert(c.ds()[1] as int == s_lvl_dist(s.dists@, 1, 1));
    assert(s_lvl_dist(s.dists@, 1, 1) == psum(s.dists@, 257) - psum(s.dists@, 1));
    assert(c.total_length as int == psum(c.ds(), 2));
    assert(psum(c.ds(), 2) == psum(c.ds(), 1) + c.ds()[1]);
    assert(psum(c.ds(), 1) == psum(c.ds(), 0) + c.ds()[0]);
    assert(c.ds()[0] == 0);
}

/// There is a last node strictly before any position past some node.
pub proof fn lemma_greatest_below(s: SpacedListSkeleton, j: int, p: int)
    requires
        0 <= j < s.n(),
        s.pos(j) < p,
    ensures
        exists|i: int|
            #![trigger s.pos(i)]
            0 <= i < s.n() && s.pos(i) < p && (i == s.n() - 1 || s.pos(i + 1) >= p),
    decreases s.n() - j,
{
    if j == s.n() - 1 || s.pos(j + 1) >= p {
        assert(0 <= j < s.n() && s.pos(j) < p && (j == s.n() - 1 || s.pos(j + 1) >= p));
    } else {
        lemma_greatest_below(s, j + 1, p);
    }
}

/// There is a last node at or before any position between the first and the
/// last node.
pub proof fn lemma_floor_exists(s: SpacedListSkeleton, j: int, p: int)
    requires
        0 <= j < s.n() - 1,
        s.pos(j) <= p,
        p < s.pos(s.n() - 1),
    ensures
        exists|i: int|
            #![trigger s.pos(i)]
            0 <= i < s.n() - 1 && s.pos(i) <= p && s.pos(i + 1) > p,
    decreases s.n() - j,
{
    if s.pos(j + 1) > p {
        assert(0 <= j < s.n() - 1 && s.pos(j) <= p && s.pos(j + 1) > p);
    } else {
        lemma_floor_exists(s, j + 1, p);
    }
}

/// Every exact match resolves to a valid address whose position is exactly
/// the queried one.
pub proof fn lemma_node_at_position(s: SpacedListSkeleton, p: int)
    requires
        s.wf(),
        s.spec_node_at(p) is Some,
    ensures
        s.path_valid(s.spec_node_at(p)->0),
        s.path_pos(s.spec_node_at(p)->0) == p,
    decreases s,
{
    let path = s.spec_node_at(p)->0;
    if s.has_node_at(p) {
        let i = s.node_index_at(p);
        assert(path =~= seq![i]);
    } else {
        let k = s.gap_at(p);
        let c = s.child(k);
        lemma_child_wf(s, k);
        lemma_node_at_position(c, p - s.pos(k - 1));
        let sub = c.spec_node_at(p - s.pos(k - 1))->0;
        assert(path =~= seq![k - 1] + sub);
        assert(path.skip(1) =~= sub);
    }
}

/// Every predecessor answer is a valid address strictly before the queried
/// position, and its residual is exactly the distance back to it.
pub proof fn lemma_predecessor_position(s: SpacedListSkeleton, p: int)
    requires
        s.wf(),
        s.spec_node_before(p) is Some,
    ensures
        ({
            let pr = s.spec_node_before(p)->0;
            s.path_valid(pr.0) && s.path_pos(pr.0) < p && pr.1 == p - s.path_pos(pr.0)
        }),
    decreases s,
{
    let pr = s.spec_node_before(p)->0;
    lemma_greatest_below(s, 0, p);
    let i = s.pred_index(p);
    assert(0 <= i < s.n() && s.pos(i) < p && (i == s.n() - 1 || s.pos(i + 1) >= p));
    if i + 1 < s.n() && s.has_child(i + 1) && s.child(i + 1).spec_node_before(p - s.pos(
        i,
    )) is Some {
        let c = s.child(i + 1);
        lemma_child_wf(s, i + 1);
        lemma_predecessor_position(c, p - s.pos(i));
        let sub = c.spec_node_before(p - s.pos(i))->0;
        assert(pr.0 =~= seq![i] + sub.0);
        assert(pr.0.skip(1) =~= sub.0);
    } else {
        assert(pr.0 =~= seq![i]);
    }
}

/// Every successor answer is a valid address strictly after the queried
/// position, and its residual is exactly the distance forward to it.
pub proof fn lemma_successor_position(s: SpacedListSkeleton, p: int)
    requires
        s.wf(),
        s.spec_node_after(p) is Some,
    ensures
        ({
            let pr = s.spec_node_after(p)->0;
            s.path_valid(pr.0) && s.path_pos(pr.0) > p && pr.1 == s.path_pos(pr.0) - p
        }),
    decreases s,
{
    let pr = s.spec_node_after(p)->0;
    if p < s.pos(0) {
        assert(pr.0 =~= seq![0int]);
    } else {
        lemma_floor_exists(s, 0, p);
        let i = s.floor_index(p);
        assert(0 <= i < s.n() - 1 && s.pos(i) <= p && s.pos(i + 1) > p);
        let rel = p - s.pos(i);
        let child_hit = s.has_child(i + 1) && s.child(i + 1).spec_node_after(rel) is Some && rel
            + (s.child(i + 1).spec_node_after(rel)->0).1 < s.pos(i + 1) - s.pos(i);
        if child_hit {
            let c = s.child(i + 1);
            lemma_child_wf(s, i + 1);
            lemma_successor_position(c, rel);
            let sub = c.spec_node_after(rel)->0;
            assert(pr.0 =~= seq![i] + sub.0);
            assert(pr.0.skip(1) =~= sub.0);
        } else {
            assert(pr.0 =~= seq![i + 1]);
        }
    }
}

/// The position of a valid address lies at or after the node its first entry
/// names, and, when the address descends into a gap, strictly before the
/// upper end of that gap.
pub proof fn lemma_path_pos_bound(s: SpacedListSkeleton, path: Seq<int>)
    requires
        s.wf(),
        s.well_nested(),
        s.path_valid(path),
    ensures
        s.pos(path[0]) <= s.path_pos(path),
        path.len() == 1 ==> s.path_pos(path) == s.pos(path[0]),
        path.len() > 1 ==> s.path_pos(path) < s.pos(path[0] + 1),
    decreases s,
{
    if path.len() > 1 {
        let c = s.child(path[0] + 1);
        lemma_child_wf(s, path[0] + 1);
        assert(c.path_valid(path.skip(1)));
        lemma_path_pos_bound(c, path.skip(1));
        assert(0 <= path.skip(1)[0] < c.n());
        crate::chunk::lemma_psum_mono(c.dists@, 0, path.skip(1)[0] + 1);
        crate::chunk::lemma_psum_mono(c.dists@, path.skip(1)[0] + 1, c.n());
        assert(c.path_pos(path.skip(1)) < s.pos(path[0] + 1) - s.pos(path[0])) by {
            if path.skip(1).len() == 1 {
                crate::chunk::lemma_psum_mono(c.dists@, path.skip(1)[0] + 1, c.n());
            } else {
                crate::chunk::lemma_psum_mono(c.dists@, path.skip(1)[0] + 2, c.n());
            }
        }
    }
}

/// Round-trip lookup at every depth: under strict spacing and well-nested
/// children, the position of any addressable node resolves to some node, at
/// exactly that position.
pub proof fn lemma_node_at_complete(s: SpacedListSkeleton, path: Seq<int>)
    requires
        s.wf(),
        s.strictly_spaced(),
        s.well_nested(),
        s.path_valid(path),
    ensures
        s.spec_node_at(s.path_pos(path)) is Some,
    decreases s,
{
    let p = s.path_pos(path);
    lemma_path_pos_bound(s, path);
    crate::chunk::lemma_psum_mono(s.dists@, 1, path[0] + 1);
    crate::chunk::lemma_psum_mono(s.dists@, path[0] + 1, s.n());
    if path.len() > 1 {
        crate::chunk::lemma_psum_mono(s.dists@, path[0] + 2, s.n());
    }
    assert(s.pos(0) <= p && p <= s.pos(s.n() - 1));
    if s.has_node_at(p) {
    } else {
        assert(path.len() > 1);
        assert(p != s.pos(path[0]));
        s.lemma_no_node_between(path[0], p);
        let k = path[0] + 1;
        let c = s.child(k);
        lemma_child_wf(s, k);
        lemma_node_at_complete(c, path.skip(1));
        assert(c.path_pos(path.skip(1)) == p - s.pos(k - 1));
    }
}

/// Predecessor maximality: under well-nested children, no addressable node
/// sits strictly between the predecessor answer and the queried position.
#[verifier::rlimit(100)]
pub proof fn lemma_predecessor_maximal(s: SpacedListSkeleton, p: int, other: Seq<int>)
    requires
        s.wf(),
        s.well_nested(),
        s.spec_node_before(p) is Some,
        s.path_valid(other),
        s.path_pos(other) < p,
    ensures
        s.path_pos(other) <= s.path_pos((s.spec_node_before(p)->0).0),
    decreases s,
{
    let pr = s.spec_node_before(p)->0;
    lemma_predecessor_position(s, p);
    lemma_greatest_below(s, 0, p);
    let i = s.pred_index(p);
    assert(0 <= i < s.n() && s.pos(i) < p && (i == s.n() - 1 || s.pos(i + 1) >= p));
    lemma_path_pos_bound(s, other);
    lemma_path_pos_bound(s, pr.0);
    assert(pr.0[0] == i);
    let o0 = other[0];
    if o0 < i {
        crate::chunk::lemma_psum_mono(s.dists@, o0 + 2, i + 1);
        assert(s.path_pos(other) <= s.pos(i));
    } else if o0 > i {
        crate::chunk::lemma_psum_mono(s.dists@, i + 2, o0 + 1);
        assert(s.pos(o0) >= p);
        assert(false);
    } else {
        if other.len() == 1 {
            assert(s.path_pos(other) == s.pos(i) <= s.path_pos(pr.0));
        } else {
            let c = s.child(i + 1);
            assert(s.has_child(i + 1));
            lemma_child_wf(s, i + 1);
            assert(c.well_nested());
            let sub = other.skip(1);
            assert(c.path_valid(sub));
            let rel = p - s.pos(i);
            assert(c.path_pos(sub) < rel);
            if c.spec_node_before(rel) is Some {
                lemma_predecessor_maximal(c, rel, sub);
                assert(pr.0.skip(1) =~= (c.spec_node_before(rel)->0).0);
            } else {
                assert(c.n() >= 1);
                assert(rel <= c.pos(0));
                lemma_path_pos_bound(c, sub);
                crate::chunk::lemma_psum_mono(c.dists@, 1, sub[0] + 1);
                assert(c.path_pos(sub) >= c.pos(0));
                assert(false);
            }
        }
    }
}

/// Successor minimality: under well-nested children, no addressable node
/// sits strictly between the queried position and the successor answer.
#[verifier::rlimit(100)]
pub proof fn lemma_successor_minimal(s: SpacedListSkeleton, p: int, other: Seq<int>)
    requires
        s.wf(),
        s.well_nested(),
        s.spec_node_after(p) is Some,
        s.path_valid(other),
        s.path_pos(other) > p,
    ensures
        s.path_pos(other) >= s.path_pos((s.spec_node_after(p)->0).0),
    decreases s,
{
    let pr = s.spec_node_after(p)->0;
    lemma_successor_position(s, p);
    lemma_path_pos_bound(s, other);
    let o0 = other[0];
    if p < s.pos(0) {
        assert(pr.0 =~= seq![0int]);
        crate::chunk::lemma_psum_mono(s.dists@, 1, o0 + 1);
        assert(s.path_pos(other) >= s.pos(o0) >= s.pos(0));
    } else {
        lemma_floor_exists(s, 0, p);
        let i = s.floor_index(p);
        assert(0 <= i < s.n() - 1 && s.pos(i) <= p && s.pos(i + 1) > p);
        lemma_path_pos_bound(s, pr.0);
        let rel = p - s.pos(i);
        if o0 < i {
            if other.len() == 1 {
                crate::chunk::lemma_psum_mono(s.dists@, o0 + 1, i + 1);
                assert(s.path_pos(other) <= s.pos(i) <= p);
            } else {
                crate::chunk::lemma_psum_mono(s.dists@, o0 + 2, i + 1);
                assert(s.path_pos(other) < s.pos(o0 + 1) <= s.pos(i));
            }
            assert(false);
        } else if o0 > i {
            crate::chunk::lemma_psum_mono(s.dists@, i + 2, o0 + 1);
            assert(s.path_pos(other) >= s.pos(o0) >= s.pos(i + 1));
            assert(s.path_pos(pr.0) <= s.pos(i + 1)) by {
                if pr.0[0] == i {
                    assert(pr.0.len() > 1 || s.path_pos(pr.0) == s.pos(i));
                } else {
                    assert(pr.0 =~= seq![i + 1]);
                }
            }
        } else {
            assert(other.len() > 1) by {
                if other.len() == 1 {
                    assert(s.path_pos(other) == s.pos(i) <= p);
                }
            }
            let c = s.child(i + 1);
            assert(s.has_child(i + 1));
            lemma_child_wf(s, i + 1);
            assert(c.well_nested());
            let sub = other.skip(1);
            assert(c.path_valid(sub));
            let childpos = c.path_pos(sub);
            assert(childpos > rel);
            if c.spec_node_after(rel) is Some {
                lemma_successor_minimal(c, rel, sub);
                lemma_successor_position(c, rel);
                let ca = c.spec_node_after(rel)->0;
                if rel + ca.1 < s.pos(i + 1) - s.pos(i) {
                    assert(pr.0.skip(1) =~= ca.0);
                    assert(s.path_pos(pr.0) == s.pos(i) + c.path_pos(ca.0));
                } else {
                    assert(pr.0 =~= seq![i + 1]);
                    assert(childpos >= c.path_pos(ca.0) == rel + ca.1);
                    assert(s.path_pos(other) >= s.pos(i + 1));
                }
            } else {
                // the child has no node past `rel`, yet `other` points at one
                assert(c.n() >= 1);
                assert(rel >= c.pos(c.n() - 1));
                lemma_path_pos_bound(c, sub);
                if sub.len() == 1 {
                    crate::chunk::lemma_psum_mono(c.dists@, sub[0] + 1, c.n());
                    assert(childpos <= c.pos(c.n() - 1));
                } else {
                    crate::chunk::lemma_psum_mono(c.dists@, sub[0] + 2, c.n());
                    assert(childpos < c.pos(sub[0] + 1) <= c.pos(c.n() - 1));
                }
                assert(false);
            }
        }
    }
}

/// A child of a well-formed list is well-formed.
pub proof fn lemma_child_wf(s: SpacedListSkeleton, k: int)
    requires
        s.wf(),
        s.has_child(k),
    ensures
        s.child(k).wf(),
{
}

/// Capacity boundary: no block of a well-formed list ever exceeds 256 nodes;
/// a block at 256 rejects further direct appends by contract, forcing the
/// owning list to open a new block.
pub proof fn lemma_capacity_boundary(s: SpacedListSkeleton, l: int, q: int)
    requires
        s.wf(),
        0 <= l < s.levels@.len(),
        0 <= q < s.levels@[l]@.len(),
    ensures
        s.levels@[l]@[q].size <= 256,
{
    assert(s_wf_level(s.levels@[l]@, s.dists@, l));
    assert(s_wf_chunk(s.levels@[l]@[q], s.dists@, l, q));
}

} // verus!
