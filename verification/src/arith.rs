//! Small arithmetic helpers shared by the block geometry and the descent:
//! powers of two, powers of the block fan-out, and facts about flooring
//! division that the alignment arguments rely on.

use vstd::prelude::*;

verus! {

/// 2^d for d >= 0 (and 1 for negative arguments).
pub open spec fn po2(d: int) -> int
    decreases d,
{
    if d <= 0 {
        1
    } else {
        2 * po2(d - 1)
    }
}

/// 256^l for l >= 0 (and 1 for negative arguments).
pub open spec fn p256(l: int) -> int
    decreases l,
{
    if l <= 0 {
        1
    } else {
        256 * p256(l - 1)
    }
}

pub open spec fn imin(a: int, b: int) -> int {
    if a <= b {
        a
    } else {
        b
    }
}

pub proof fn lemma_po2_pos(d: int)
    ensures
        po2(d) >= 1,
    decreases d,
{
    if d > 0 {
        lemma_po2_pos(d - 1);
    }
}

pub proof fn lemma_po2_mono(a: int, b: int)
    requires
        a <= b,
    ensures
        po2(a) <= po2(b),
    decreases b - a,
{
    if a < b {
        lemma_po2_mono(a, b - 1);
        lemma_po2_pos(b - 1);
    }
}

pub proof fn lemma_p256_pos(l: int)
    ensures
        p256(l) >= 1,
    decreases l,
{
    if l > 0 {
        lemma_p256_pos(l - 1);
    }
}

pub proof fn lemma_p256_mono(a: int, b: int)
    requires
        a <= b,
    ensures
        p256(a) <= p256(b),
    decreases b - a,
{
    if a < b {
        lemma_p256_mono(a, b - 1);
        lemma_p256_pos(b - 1);
    }
}

/// The small power-of-two values the block geometry works with.
pub proof fn lemma_po2_values()
    ensures
        po2(0) == 1,
        po2(1) == 2,
        po2(2) == 4,
        po2(3) == 8,
        po2(4) == 16,
        po2(5) == 32,
        po2(6) == 64,
        po2(7) == 128,
        po2(8) == 256,
        po2(9) == 512,
{
    assert(po2(0) == 1);
    assert(po2(1) == 2);
    assert(po2(2) == 4);
    assert(po2(3) == 8);
    assert(po2(4) == 16);
    assert(po2(5) == 32);
    assert(po2(6) == 64);
    assert(po2(7) == 128);
    assert(po2(8) == 256);
    assert(po2(9) == 512);
}

/// Flooring division against a positive divisor, stated as the two-sided bound.
pub proof fn lemma_div_bounds(x: int, d: int)
    requires
        0 <= x,
        0 < d,
    ensures
        d * (x / d) <= x < d * (x / d) + d,
        0 <= x / d,
{
    assert(d * (x / d) + x % d == x && 0 <= x % d < d && 0 <= x / d) by (nonlinear_arith)
        requires
            0 <= x,
            0 < d,
    ;
}

/// a <= x / d exactly when a * d <= x (for positive d, nonnegative values).
pub proof fn lemma_div_ge(x: int, d: int, a: int)
    requires
        0 <= x,
        0 < d,
        0 <= a,
    ensures
        a <= x / d <==> a * d <= x,
{
    lemma_div_bounds(x, d);
    if a <= x / d {
        assert(a * d <= (x / d) * d) by (nonlinear_arith)
            requires
                a <= x / d,
                0 < d,
        ;
        assert((x / d) * d == d * (x / d)) by (nonlinear_arith);
    }
    if a * d <= x {
        assert(a <= x / d) by (nonlinear_arith)
            requires
                a * d <= x,
                0 < d,
                0 <= a,
                d * (x / d) <= x < d * (x / d) + d,
        ;
    }
}

/// Exact division: if d divides x then x == d * (x / d).
pub proof fn lemma_div_exact(x: int, d: int)
    requires
        0 <= x,
        0 < d,
        x % d == 0,
    ensures
        x == d * (x / d),
{
    assert(d * (x / d) + x % d == x) by (nonlinear_arith)
        requires
            0 < d,
    ;
}

/// Dividing twice by positive divisors is dividing by the product.
pub proof fn lemma_div_div(x: int, a: int, b: int)
    requires
        0 <= x,
        0 < a,
        0 < b,
    ensures
        (x / a) / b == x / (a * b),
{
    lemma_div_bounds(x, a);
    lemma_div_bounds(x / a, b);
    let q = (x / a) / b;
    assert(a * b * q <= x && x < a * b * q + a * b) by (nonlinear_arith)
        requires
            0 < a,
            0 < b,
            a * (x / a) <= x < a * (x / a) + a,
            b * ((x / a) / b) <= x / a < b * ((x / a) / b) + b,
            q == (x / a) / b,
    ;
    assert(x / (a * b) == q) by (nonlinear_arith)
        requires
            0 < a,
            0 < b,
            a * b * q <= x,
            x < a * b * q + a * b,
            0 <= x,
    ;
}

/// A multiple of d * m, reduced modulo d, is still 0; and its quotient by d is
/// a multiple of m.
pub proof fn lemma_aligned_div(x: int, d: int, m: int)
    requires
        0 <= x,
        0 < d,
        0 < m,
        x % (d * m) == 0,
    ensures
        x % d == 0,
        (x / d) % m == 0,
{
    assert(0 < d * m) by (nonlinear_arith)
        requires
            0 < d,
            0 < m,
    ;
    lemma_div_exact(x, d * m);
    let k = x / (d * m);
    assert(0 <= k) by (nonlinear_arith)
        requires
            0 <= x,
            0 < d * m,
            x == (d * m) * k,
    ;
    assert(x == d * (m * k)) by (nonlinear_arith)
        requires
            x == (d * m) * k,
    ;
    assert(x % d == 0 && x / d == m * k) by (nonlinear_arith)
        requires
            x == d * (m * k),
            0 < d,
            0 <= m * k,
    ;
    assert((m * k) % m == 0) by (nonlinear_arith)
        requires
            0 < m,
    ;
}

/// When d does not divide n, n and n - 1 share a quotient by d.
pub proof fn lemma_div_of_nondiv(n: int, d: int)
    requires
        1 <= n,
        1 <= d,
        n % d != 0,
    ensures
        n / d == (n - 1) / d,
{
    assert(n / d == (n - 1) / d) by (nonlinear_arith)
        requires
            1 <= n,
            1 <= d,
            n % d != 0,
    ;
}

/// When d divides n, the quotient of n - 1 is one less.
pub proof fn lemma_div_of_div(n: int, d: int)
    requires
        1 <= n,
        1 <= d,
        n % d == 0,
    ensures
        n / d == (n - 1) / d + 1,
{
    assert(n / d == (n - 1) / d + 1) by (nonlinear_arith)
        requires
            1 <= n,
            1 <= d,
            n % d == 0,
    ;
}

/// Smaller powers of the fan-out divide larger ones.
pub proof fn lemma_p256_divides(a: int, b: int)
    requires
        0 <= a <= b,
    ensures
        p256(b) % p256(a) == 0,
        p256(b) / p256(a) == p256(b - a),
    decreases b - a,
{
    lemma_p256_pos(a);
    lemma_p256_pos(b);
    if a == b {
        lemma_div_exact_of_mul(p256(a), 1);
    } else {
        lemma_p256_divides(a, b - 1);
        lemma_p256_pos(b - 1);
        let q = p256(b - 1) / p256(a);
        assert(p256(b - 1) == p256(a) * q) by {
            lemma_div_exact(p256(b - 1), p256(a));
        }
        assert(p256(b) == p256(a) * (256 * q)) by (nonlinear_arith)
            requires
                p256(b) == 256 * p256(b - 1),
                p256(b - 1) == p256(a) * q,
        ;
        lemma_div_exact_of_mul(p256(a), 256 * q);
        assert(256 * q == 256 * p256(b - 1 - a));
    }
}

/// d * k divided by d is k, and d * k is a multiple of d.
pub proof fn lemma_div_exact_of_mul(d: int, k: int)
    requires
        1 <= d,
        0 <= k,
    ensures
        (d * k) % d == 0,
        (d * k) / d == k,
{
    assert((d * k) % d == 0 && (d * k) / d == k) by (nonlinear_arith)
        requires
            1 <= d,
            0 <= k,
    ;
}

/// Smaller powers of two divide larger ones.
pub proof fn lemma_po2_divides(a: int, b: int)
    requires
        0 <= a <= b,
    ensures
        po2(b) % po2(a) == 0,
        po2(b) / po2(a) == po2(b - a),
    decreases b - a,
{
    lemma_po2_pos(a);
    lemma_po2_pos(b);
    if a == b {
        lemma_div_exact_of_mul(po2(a), 1);
    } else {
        lemma_po2_divides(a, b - 1);
        lemma_po2_pos(b - 1);
        let q = po2(b - 1) / po2(a);
        assert(po2(b - 1) == po2(a) * q) by {
            lemma_div_exact(po2(b - 1), po2(a));
        }
        assert(po2(b) == po2(a) * (2 * q)) by (nonlinear_arith)
            requires
                po2(b) == 2 * po2(b - 1),
                po2(b - 1) == po2(a) * q,
        ;
        lemma_div_exact_of_mul(po2(a), 2 * q);
        assert(2 * q == 2 * po2(b - 1 - a));
    }
}

/// Division against a positive divisor is monotone.
pub proof fn lemma_div_mono(x: int, y: int, d: int)
    requires
        0 <= x <= y,
        0 < d,
    ensures
        x / d <= y / d,
{
    assert(x / d <= y / d) by (nonlinear_arith)
        requires
            0 <= x <= y,
            0 < d,
    ;
}

/// If a | b (as positive values) and b | n, then a | n.
pub proof fn lemma_divides_trans(n: int, a: int, b: int)
    requires
        0 <= n,
        1 <= a,
        1 <= b,
        b % a == 0,
        n % b == 0,
    ensures
        n % a == 0,
{
    lemma_div_exact(n, b);
    lemma_div_exact(b, a);
    let k = n / b;
    let j = b / a;
    assert(0 <= k) by (nonlinear_arith)
        requires
            0 <= n,
            1 <= b,
            n == b * k,
    ;
    assert(n == a * (j * k)) by (nonlinear_arith)
        requires
            n == b * k,
            b == a * j,
    ;
    assert(0 <= j * k) by (nonlinear_arith)
        requires
            0 <= k,
            1 <= b,
            1 <= a,
            b == a * j,
    ;
    lemma_div_exact_of_mul(a, j * k);
}

/// A multiple of twice s is a multiple of s.
pub proof fn lemma_half_align(x: int, s: int)
    requires
        1 <= s,
        0 <= x,
        x % (2 * s) == 0,
    ensures
        x % s == 0,
{
    assert(0 < 2 * s) by (nonlinear_arith)
        requires
            1 <= s,
    ;
    lemma_div_exact(x, 2 * s);
    let k = x / (2 * s);
    assert(0 <= k) by (nonlinear_arith)
        requires
            0 <= x,
            0 < 2 * s,
            x == (2 * s) * k,
    ;
    assert(x == s * (2 * k)) by (nonlinear_arith)
        requires
            x == (2 * s) * k,
    ;
    lemma_div_exact_of_mul(s, 2 * k);
}

/// One step of s past a multiple of twice s is a multiple of s.
pub proof fn lemma_advance_align(x: int, s: int)
    requires
        1 <= s,
        s <= x,
        (x - s) % (2 * s) == 0,
    ensures
        x % s == 0,
{
    assert(0 < 2 * s) by (nonlinear_arith)
        requires
            1 <= s,
    ;
    lemma_div_exact(x - s, 2 * s);
    let k = (x - s) / (2 * s);
    assert(0 <= k) by (nonlinear_arith)
        requires
            0 <= x - s,
            0 < 2 * s,
            x - s == (2 * s) * k,
    ;
    assert(x == s * (2 * k + 1)) by (nonlinear_arith)
        requires
            x - s == (2 * s) * k,
    ;
    lemma_div_exact_of_mul(s, 2 * k + 1);
}

} // verus!
