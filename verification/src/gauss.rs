//! Exact complex arithmetic over Gaussian integers.
//!
//! An amplitude is a pair of integers `(re, im)` standing for the complex
//! number `re + im*i`.  The squared magnitude `re*re + im*im` is an exact
//! integer, so probabilities can be handled without floating point: the
//! probability of a basis state is its squared magnitude divided by the sum
//! of the squared magnitudes over the whole store.

use vstd::prelude::*;

verus! {

/// Squared magnitude of the complex number `re + im*i`.
pub open spec fn sq(a: (int, int)) -> int {
    a.0 * a.0 + a.1 * a.1
}

/// Complex addition.
pub open spec fn cadd(a: (int, int), b: (int, int)) -> (int, int) {
    (a.0 + b.0, a.1 + b.1)
}

/// Complex multiplication: (a.0 + a.1 i)(b.0 + b.1 i).
pub open spec fn cmul(a: (int, int), b: (int, int)) -> (int, int) {
    (a.0 * b.0 - a.1 * b.1, a.0 * b.1 + a.1 * b.0)
}

/// Complex subtraction.
pub open spec fn csub(a: (int, int), b: (int, int)) -> (int, int) {
    (a.0 - b.0, a.1 - b.1)
}

/// Complex negation.
pub open spec fn cneg(a: (int, int)) -> (int, int) {
    (-a.0, -a.1)
}

/// A squared magnitude is never negative, and vanishes exactly on zero.
pub proof fn lemma_sq_sign(a: (int, int))
    ensures
        sq(a) >= 0,
        sq(a) == 0 <==> a == (0int, 0int),
        a != (0int, 0int) ==> sq(a) >= 1,
{
    assert(a.0 * a.0 >= 0 && a.1 * a.1 >= 0) by (nonlinear_arith);
    assert(a.0 * a.0 + a.1 * a.1 == 0 ==> a.0 == 0 && a.1 == 0) by (nonlinear_arith);
    if a != (0int, 0int) {
        assert(a.0 != 0 || a.1 != 0);
        assert(a.0 != 0 ==> a.0 * a.0 >= 1) by (nonlinear_arith);
        assert(a.1 != 0 ==> a.1 * a.1 >= 1) by (nonlinear_arith);
    }
}

/// The squared magnitude of a product is the product of the squared
/// magnitudes (the Brahmagupta-Fibonacci identity).
pub proof fn lemma_sq_mul(a: (int, int), b: (int, int))
    ensures
        sq(cmul(a, b)) == sq(a) * sq(b),
{
    let (x, y) = a;
    let (u, v) = b;
    let p = x * u;
    let q = y * v;
    let r = x * v;
    let s = y * u;
    assert(p * q == r * s) by (nonlinear_arith)
        requires
            p == x * u,
            q == y * v,
            r == x * v,
            s == y * u,
    ;
    assert((p - q) * (p - q) + (r + s) * (r + s) == p * p + q * q + r * r + s * s - 2 * (p * q) + 2
        * (r * s)) by (nonlinear_arith);
    assert(p * p == (x * x) * (u * u)) by (nonlinear_arith)
        requires
            p == x * u,
    ;
    assert(q * q == (y * y) * (v * v)) by (nonlinear_arith)
        requires
            q == y * v,
    ;
    assert(r * r == (x * x) * (v * v)) by (nonlinear_arith)
        requires
            r == x * v,
    ;
    assert(s * s == (y * y) * (u * u)) by (nonlinear_arith)
        requires
            s == y * u,
    ;
    assert((x * x + y * y) * (u * u + v * v) == (x * x) * (u * u) + (x * x) * (v * v) + (y * y) * (u
        * u) + (y * y) * (v * v)) by (nonlinear_arith);
}

/// Gaussian integers form an integral domain: a product of nonzero factors
/// is nonzero.
pub proof fn lemma_cmul_nonzero(a: (int, int), b: (int, int))
    requires
        a != (0int, 0int),
        b != (0int, 0int),
    ensures
        cmul(a, b) != (0int, 0int),
{
    lemma_sq_sign(a);
    lemma_sq_sign(b);
    lemma_sq_mul(a, b);
    assert(sq(a) * sq(b) >= 1) by (nonlinear_arith)
        requires
            sq(a) >= 1,
            sq(b) >= 1,
    ;
    lemma_sq_sign(cmul(a, b));
}

/// Complex multiplication is associative.
pub proof fn lemma_cmul_assoc(a: (int, int), b: (int, int), c: (int, int))
    ensures
        cmul(cmul(a, b), c) == cmul(a, cmul(b, c)),
{
    let (x, y) = a;
    let (u, v) = b;
    let (p, q) = c;
    assert((x * u - y * v) * p == (x * u) * p - (y * v) * p) by (nonlinear_arith);
    assert((x * v + y * u) * q == (x * v) * q + (y * u) * q) by (nonlinear_arith);
    assert((x * u - y * v) * q == (x * u) * q - (y * v) * q) by (nonlinear_arith);
    assert((x * v + y * u) * p == (x * v) * p + (y * u) * p) by (nonlinear_arith);
    assert(x * (u * p - v * q) == (x * u) * p - (x * v) * q) by (nonlinear_arith);
    assert(y * (u * q + v * p) == (y * u) * q + (y * v) * p) by (nonlinear_arith);
    assert(x * (u * q + v * p) == (x * u) * q + (x * v) * p) by (nonlinear_arith);
    assert(y * (u * p - v * q) == (y * u) * p - (y * v) * q) by (nonlinear_arith);
}

/// A product of bounded factors is bounded.
pub proof fn lemma_mul_bound(a: int, x: int, bound_a: int, bound_x: int)
    requires
        -bound_a <= a <= bound_a,
        -bound_x <= x <= bound_x,
        0 <= bound_a,
        0 <= bound_x,
    ensures
        -(bound_a * bound_x) <= a * x <= bound_a * bound_x,
{
    assert(-(bound_a * bound_x) <= a * x <= bound_a * bound_x) by (nonlinear_arith)
        requires
            -bound_a <= a <= bound_a,
            -bound_x <= x <= bound_x,
            0 <= bound_a,
            0 <= bound_x,
    ;
}

/// Complex multiplication is commutative.
pub proof fn lemma_cmul_comm(a: (int, int), b: (int, int))
    ensures
        cmul(a, b) == cmul(b, a),
{
}

/// Complex multiplication distributes over addition.
pub proof fn lemma_cmul_distrib(a: (int, int), b: (int, int), c: (int, int))
    ensures
        cmul(a, cadd(b, c)) == cadd(cmul(a, b), cmul(a, c)),
        cmul(a, csub(b, c)) == csub(cmul(a, b), cmul(a, c)),
        cmul(a, cneg(b)) == cneg(cmul(a, b)),
{
    assert(a.0 * (b.0 + c.0) == a.0 * b.0 + a.0 * c.0) by (nonlinear_arith);
    assert(a.1 * (b.1 + c.1) == a.1 * b.1 + a.1 * c.1) by (nonlinear_arith);
    assert(a.0 * (b.1 + c.1) == a.0 * b.1 + a.0 * c.1) by (nonlinear_arith);
    assert(a.1 * (b.0 + c.0) == a.1 * b.0 + a.1 * c.0) by (nonlinear_arith);
    assert(a.0 * (b.0 - c.0) == a.0 * b.0 - a.0 * c.0) by (nonlinear_arith);
    assert(a.1 * (b.1 - c.1) == a.1 * b.1 - a.1 * c.1) by (nonlinear_arith);
    assert(a.0 * (b.1 - c.1) == a.0 * b.1 - a.0 * c.1) by (nonlinear_arith);
    assert(a.1 * (b.0 - c.0) == a.1 * b.0 - a.1 * c.0) by (nonlinear_arith);
    assert(a.0 * (-b.0) == -(a.0 * b.0)) by (nonlinear_arith);
    assert(a.1 * (-b.1) == -(a.1 * b.1)) by (nonlinear_arith);
    assert(a.0 * (-b.1) == -(a.0 * b.1)) by (nonlinear_arith);
    assert(a.1 * (-b.0) == -(a.1 * b.0)) by (nonlinear_arith);
}

/// One direction of Cramer's rule: an invertible matrix has a trivial
/// kernel, first component.
proof fn lemma_kernel_first(a: (int, int), b: (int, int), c: (int, int), d: (int, int), x: (
    int,
    int,
), y: (int, int))
    requires
        cadd(cmul(a, x), cmul(b, y)) == (0int, 0int),
        cadd(cmul(c, x), cmul(d, y)) == (0int, 0int),
        csub(cmul(a, d), cmul(b, c)) != (0int, 0int),
    ensures
        x == (0int, 0int),
{
    let det = csub(cmul(a, d), cmul(b, c));
    lemma_cmul_distrib(x, cmul(a, d), cmul(b, c));
    assert(cmul(x, det) == csub(cmul(x, cmul(a, d)), cmul(x, cmul(b, c))));
    lemma_cmul_comm(x, det);
    lemma_cmul_comm(x, cmul(a, d));
    lemma_cmul_comm(x, cmul(b, c));
    // (ad)x == d(ax) and (bc)x == b(cx)
    lemma_cmul_comm(a, d);
    lemma_cmul_assoc(d, a, x);
    lemma_cmul_comm(b, c);
    lemma_cmul_assoc(b, c, x);
    assert(cmul(cmul(a, d), x) == cmul(d, cmul(a, x)));
    assert(cmul(cmul(b, c), x) == cmul(b, cmul(c, x)));
    // ax == -(by) and cx == -(dy)
    assert(cmul(a, x) == cneg(cmul(b, y)));
    assert(cmul(c, x) == cneg(cmul(d, y)));
    lemma_cmul_distrib(d, cmul(b, y), cmul(b, y));
    lemma_cmul_distrib(b, cmul(d, y), cmul(d, y));
    assert(cmul(d, cneg(cmul(b, y))) == cneg(cmul(d, cmul(b, y))));
    assert(cmul(b, cneg(cmul(d, y))) == cneg(cmul(b, cmul(d, y))));
    // d(by) == b(dy), both being (bd)y
    lemma_cmul_assoc(d, b, y);
    lemma_cmul_assoc(b, d, y);
    lemma_cmul_comm(d, b);
    assert(cmul(d, cmul(b, y)) == cmul(b, cmul(d, y)));
    assert(cmul(det, x) == (0int, 0int));
    if x != (0int, 0int) {
        lemma_cmul_nonzero(det, x);
    }
}

/// An invertible one-qubit matrix has a trivial kernel: when both rows
/// annihilate the amplitude pair `(x, y)`, the pair is zero.
pub proof fn lemma_kernel(a: (int, int), b: (int, int), c: (int, int), d: (int, int), x: (
    int,
    int,
), y: (int, int))
    requires
        cadd(cmul(a, x), cmul(b, y)) == (0int, 0int),
        cadd(cmul(c, x), cmul(d, y)) == (0int, 0int),
        csub(cmul(a, d), cmul(b, c)) != (0int, 0int),
    ensures
        x == (0int, 0int),
        y == (0int, 0int),
{
    lemma_kernel_first(a, b, c, d, x, y);
    assert(csub(cmul(b, c), cmul(a, d)) != (0int, 0int));
    lemma_cmul_comm(b, c);
    lemma_cmul_comm(a, d);
    lemma_kernel_first(b, a, d, c, y, x);
}

} // verus!
