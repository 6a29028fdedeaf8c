//! Link geometry: which slot of a block's partial-sum array belongs to a
//! given (local node index, skip degree) pair.  Slots are grouped by degree
//! into contiguous bands; band `d` holds one slot per group of 2^d
//! consecutive nodes, and the bands are laid out in order of increasing
//! degree.

use crate::arith::{lemma_po2_mono, lemma_po2_pos, lemma_po2_values, po2};
use vstd::prelude::*;

verus! {

/// Number of dyadic degrees a block keeps partial sums for.
pub const MAX_CHUNK_DEPTH: usize = 9;

/// Fixed capacity of one block.
pub const MAX_CHUNK_SIZE: usize = 256;

/// Total number of partial-sum slots in one block: 256 + 128 + ... + 1.
pub const LINK_LENGTHS_SIZE: usize = 511;

/// Where the band of degree `d` starts: the sum of the sizes of all smaller
/// bands, which comes to 512 - 512 / 2^d.
pub open spec fn band_start(d: int) -> int {
    512 - 512int / po2(d)
}

/// The slot holding the degree-`d` partial sum that covers the group of node
/// `i`.
pub open spec fn spec_link_index(i: int, d: int) -> int {
    band_start(d) + i / po2(d)
}

/// Each band starts where the previous one ended.
pub proof fn lemma_band_step(d: int)
    requires
        0 <= d <= 8,
    ensures
        band_start(d + 1) == band_start(d) + 256int / po2(d),
{
    lemma_po2_values();
    assert(po2(d + 1) == 2 * po2(d));
    assert(1 <= po2(d) <= 256) by {
        lemma_po2_pos(d);
        lemma_po2_mono(d, 8);
    }
    assert(512int / po2(d + 1) + 256int / po2(d) == 512int / po2(d)) by (nonlinear_arith)
        requires
            po2(d + 1) == 2 * po2(d),
            1 <= po2(d) <= 256,
            512int % po2(d) == 0,
            256int % po2(d) == 0,
    ;
    assert(512int % po2(d) == 0 && 256int % po2(d) == 0) by {
        lemma_divides_256(d);
    }
}

/// 2^d divides 256 and 512 for d <= 8.
pub proof fn lemma_divides_256(d: int)
    requires
        0 <= d <= 8,
    ensures
        256int % po2(d) == 0,
        512int % po2(d) == 0,
        256int / po2(d) >= 1,
        512int / po2(d) >= 2,
{
    lemma_po2_values();
    if d == 0 {
    } else if d == 1 {
    } else if d == 2 {
    } else if d == 3 {
    } else if d == 4 {
    } else if d == 5 {
    } else if d == 6 {
    } else if d == 7 {
    } else {
        assert(d == 8);
    }
}

/// The slots of band `d` fit between its start and the start of band `d + 1`,
/// and every slot index stays below 511.
pub proof fn lemma_band_bounds(i: int, d: int)
    requires
        0 <= d <= 8,
        0 <= i < 256,
    ensures
        band_start(d) <= spec_link_index(i, d) < band_start(d) + 256int / po2(d),
        0 <= spec_link_index(i, d) < 511,
        band_start(d) + 256int / po2(d) <= 511,
{
    lemma_po2_values();
    lemma_divides_256(d);
    lemma_po2_pos(d);
    assert(0 <= i / po2(d) && i / po2(d) < 256int / po2(d)) by (nonlinear_arith)
        requires
            0 <= i < 256,
            1 <= po2(d),
            256int % po2(d) == 0,
    ;
    assert(band_start(d) >= 0);
    assert(band_start(d) + 256int / po2(d) == 512 - 512int / po2(d) + 256int / po2(d));
    assert(512int / po2(d) - 256int / po2(d) == 256int / po2(d)) by (nonlinear_arith)
        requires
            512int % po2(d) == 0,
            256int % po2(d) == 0,
            512 == 256 + 256,
            1 <= po2(d),
    ;
    assert(256int / po2(d) >= 1);
}

/// Two slots from different bands never collide.
pub proof fn lemma_bands_disjoint(i1: int, d1: int, i2: int, d2: int)
    requires
        0 <= d1 < d2 <= 8,
        0 <= i1 < 256,
        0 <= i2 < 256,
    ensures
        spec_link_index(i1, d1) != spec_link_index(i2, d2),
{
    lemma_band_bounds(i1, d1);
    lemma_band_bounds(i2, d2);
    assert(band_start(d1) + 256int / po2(d1) <= band_start(d2)) by {
        lemma_band_step(d1);
        band_start_mono(d1 + 1, d2);
    }
}

proof fn band_start_mono(a: int, b: int)
    requires
        0 <= a <= b <= 9,
    ensures
        band_start(a) <= band_start(b),
    decreases b - a,
{
    if a < b {
        lemma_band_step(a);
        lemma_divides_256(a);
        band_start_mono(a + 1, b);
    }
}

/// 2^degree as an executable value.
pub fn two_pow(degree: usize) -> (r: usize)
    requires
        degree <= 9,
    ensures
        r == po2(degree as int),
        r >= 1,
{
    let mut r: usize = 1;
    let mut k: usize = 0;
    while k < degree
        invariant
            k <= degree <= 9,
            r == po2(k as int),
            r <= 512,
        decreases degree - k,
    {
        proof {
            lemma_po2_mono(k as int + 1, 9);
            lemma_po2_values();
        }
        r = r * 2;
        k = k + 1;
    }
    proof {
        lemma_po2_pos(degree as int);
    }
    r
}

/// Where the band of partial sums of `degree` starts inside a block's
/// `link_lengths` array.
pub fn link_length_degree_index(degree: usize) -> (r: usize)
    requires
        degree <= 8,
    ensures
        r == band_start(degree as int),
        r <= 510,
{
    proof {
        lemma_po2_values();
        lemma_divides_256(degree as int);
        lemma_po2_pos(degree as int);
    }
    let p = two_pow(degree);
    512 - 512 / p
}

/// The slot in a block's partial-sum array that holds the degree-`degree`
/// cumulative distance covering the group of node `node_index`.
pub fn link_index(node_index: usize, degree: usize) -> (r: usize)
    requires
        node_index < 256,
        degree <= 8,
    ensures
        r == spec_link_index(node_index as int, degree as int),
        r < 511,
{
    proof {
        lemma_band_bounds(node_index as int, degree as int);
        lemma_po2_pos(degree as int);
    }
    let start = link_length_degree_index(degree);
    let p = two_pow(degree);
    start + node_index / p
}

/// The table of band start offsets, one entry per degree.
pub fn generate_link_length_degree_indices() -> (r: Vec<usize>)
    ensures
        r@.len() == 9,
        forall|d: int| 0 <= d < 9 ==> r@[d] == band_start(d),
{
    let mut r: Vec<usize> = Vec::new();
    let mut d: usize = 0;
    while d < 9
        invariant
            d <= 9,
            r@.len() == d as int,
            forall|k: int| 0 <= k < d ==> r@[k] == band_start(k),
        decreases 9 - d,
    {
        let v = link_length_degree_index(d);
        r.push(v);
        d = d + 1;
    }
    r
}

/// How many partial-sum slots record the arrival of the node at local index
/// `index`: one per degree from 0 up to and including the degree of the
/// largest power of two dividing `index` (all 9 degrees for index 0).
pub fn number_of_links(index: u8) -> (r: usize)
    ensures
        1 <= r <= 9,
        index as int % po2(r as int - 1) == 0,
        r < 9 ==> index as int % po2(r as int) != 0,
{
    proof {
        lemma_po2_values();
    }
    let mut d: usize = 0;
    let mut x: usize = index as usize;
    while d < 8 && x % 2 == 0
        invariant
            d <= 8,
            x as int * po2(d as int) == index as int,
            index as int % po2(d as int) == 0,
        decreases 8 - d,
    {
        proof {
            lemma_po2_pos(d as int);
            assert((x as int / 2) * po2(d as int + 1) == x as int * po2(d as int)
                && index as int % po2(d as int + 1) == 0) by (nonlinear_arith)
                requires
                    x as int % 2 == 0,
                    x as int * po2(d as int) == index as int,
                    po2(d as int + 1) == 2 * po2(d as int),
                    po2(d as int) >= 1,
            ;
        }
        x = x / 2;
        d = d + 1;
    }
    proof {
        if d < 8 {
            lemma_po2_pos(d as int);
            assert(index as int % po2(d as int + 1) != 0) by (nonlinear_arith)
                requires
                    x as int % 2 == 1,
                    x as int * po2(d as int) == index as int,
                    po2(d as int + 1) == 2 * po2(d as int),
                    po2(d as int) >= 1,
            ;
        }
    }
    d + 1
}

/// The slots that must absorb a new node's distance, for every local node
/// index: row `j` lists, for each degree `d`, the slot covering the group of
/// node `j - 1` at degree `d` (row 0, never used by an append, stays zero).
pub fn generate_link_indices_above() -> (r: Vec<Vec<usize>>)
    ensures
        r@.len() == 256,
        forall|j: int| 0 <= j < 256 ==> (#[trigger] r@[j])@.len() == 9,
        forall|j: int, d: int|
            1 <= j < 256 && 0 <= d < 9 ==> #[trigger] (r@[j]@[d]) == spec_link_index(j - 1, d),
        forall|d: int| 0 <= d < 9 ==> #[trigger] (r@[0]@[d]) == 0,
{
    let mut r: Vec<Vec<usize>> = Vec::new();
    let mut zero_row: Vec<usize> = Vec::new();
    let mut z: usize = 0;
    while z < 9
        invariant
            z <= 9,
            zero_row@.len() == z as int,
            forall|k: int| 0 <= k < z ==> zero_row@[k] == 0,
        decreases 9 - z,
    {
        zero_row.push(0);
        z = z + 1;
    }
    r.push(zero_row);
    let mut j: usize = 1;
    while j < 256
        invariant
            1 <= j <= 256,
            r@.len() == j as int,
            forall|i: int| 0 <= i < j ==> (#[trigger] r@[i])@.len() == 9,
            forall|i: int, d: int|
                1 <= i < j && 0 <= d < 9 ==> #[trigger] (r@[i]@[d]) == spec_link_index(i - 1, d),
            forall|d: int| 0 <= d < 9 ==> #[trigger] (r@[0]@[d]) == 0,
        decreases 256 - j,
    {
        let mut row: Vec<usize> = Vec::new();
        let mut d: usize = 0;
        while d < 9
            invariant
                d <= 9,
                1 <= j < 256,
                row@.len() == d as int,
                forall|k: int| 0 <= k < d ==> row@[k] == spec_link_index(j - 1, k),
            decreases 9 - d,
        {
            let v = link_index(j - 1, d);
            row.push(v);
            d = d + 1;
        }
        r.push(row);
        j = j + 1;
    }
    r
}

} // verus!
