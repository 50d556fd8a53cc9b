//! Facts about real numbers.
use vstd::prelude::*;

use crate::expr::{is_root, root};

verus! {

/// A product of zero, of one and of minus one.
pub(crate) proof fn lemma_times(a: real, b: real)
    ensures
        a == 0real ==> a * b == 0real,
        b == 0real ==> a * b == 0real,
        a == 1real ==> a * b == b,
        b == 1real ==> a * b == a,
        a == -1real ==> a * b == -b,
        b == -1real ==> a * b == -a,
{
    assert(0real * b == 0real) by (nonlinear_arith);
    assert(a * 0real == 0real) by (nonlinear_arith);
    assert(1real * b == b) by (nonlinear_arith);
    assert(a * 1real == a) by (nonlinear_arith);
    assert((-1real) * b == -b) by (nonlinear_arith);
    assert(a * (-1real) == -a) by (nonlinear_arith);
}

/// A factor other than zero can be left out.
pub(crate) proof fn lemma_cancel(s: real, a: real, b: real)
    requires
        s != 0real,
        s * a == s * b,
    ensures
        a == b,
{
    assert(s * (a - b) == s * a - s * b) by (nonlinear_arith);
    let d = a - b;
    assert(d == 0real) by (nonlinear_arith)
        requires
            s != 0real,
            s * d == 0real,
    ;
}

/// There is one square root only.
pub(crate) proof fn lemma_root_is(size: real, x: real)
    requires
        size >= 0real,
        size * size == x,
    ensures
        root(x) == size,
{
    assert(is_root(size, x));
    let r = root(x);
    assert(r >= 0real && r * r == x);
    if r != size {
        assert((r - size) * (r + size) == r * r - size * size) by (nonlinear_arith);
        let (d, s) = (r - size, r + size);
        if s == 0real {
            assert(r == size);
        } else {
            lemma_times(0real, s);
            assert(s * d == d * s) by (nonlinear_arith);
            assert(s * 0real == 0real) by (nonlinear_arith);
            lemma_cancel(s, d, 0real);
        }
    }
}

/// A quotient times its divisor.
pub(crate) proof fn lemma_quotient(n: real, size: real)
    requires
        size > 0real,
    ensures
        size * (n / size) == n,
{
    assert(size * (n / size) == n) by (nonlinear_arith)
        requires
            size > 0real,
    ;
}

/// A cross product stands perpendicular on its factors.
pub(crate) proof fn lemma_triple(p0: real, p1: real, p2: real, q0: real, q1: real, q2: real)
    ensures
        (p1 * q2 - p2 * q1) * p0 + (p2 * q0 - p0 * q2) * p1 + (p0 * q1 - p1 * q0) * p2 == 0real,
        (p1 * q2 - p2 * q1) * q0 + (p2 * q0 - p0 * q2) * q1 + (p0 * q1 - p1 * q0) * q2 == 0real,
{
    lemma_apart(p1 * q2, p2 * q1, p0);
    lemma_apart(p2 * q0, p0 * q2, p1);
    lemma_apart(p0 * q1, p1 * q0, p2);
    lemma_apart(p1 * q2, p2 * q1, q0);
    lemma_apart(p2 * q0, p0 * q2, q1);
    lemma_apart(p0 * q1, p1 * q0, q2);
    lemma_round(p1, q2, p0);
    lemma_round(p2, q1, p0);
    lemma_round(p2, q0, p1);
    lemma_round(p0, q2, p1);
    lemma_round(p0, q1, p2);
    lemma_round(p1, q0, p2);
    lemma_round(p1, q2, q0);
    lemma_round(p2, q1, q0);
    lemma_round(p2, q0, q1);
    lemma_round(p0, q2, q1);
    lemma_round(p0, q1, q2);
    lemma_round(p1, q0, q2);
}

/// A factor of a difference.
pub(crate) proof fn lemma_apart(a: real, b: real, c: real)
    ensures
        (a - b) * c == a * c - b * c,
        c * (a - b) == c * a - c * b,
        (a + b) * c == a * c + b * c,
        c * (a + b) == c * a + c * b,
{
    assert((a - b) * c == a * c - b * c) by (nonlinear_arith);
    assert(c * (a - b) == c * a - c * b) by (nonlinear_arith);
    assert((a + b) * c == a * c + b * c) by (nonlinear_arith);
    assert(c * (a + b) == c * a + c * b) by (nonlinear_arith);
}

/// Three factors in any order.
pub(crate) proof fn lemma_round(a: real, b: real, c: real)
    ensures
        (a * b) * c == (b * c) * a,
        (a * b) * c == (c * a) * b,
        (a * b) * c == (b * a) * c,
        (a * b) * c == (c * b) * a,
        (a * b) * c == (a * c) * b,
        (a * b) * c == a * (b * c),
        a * b == b * a,
{
    assert((a * b) * c == (b * c) * a) by (nonlinear_arith);
    assert((a * b) * c == (c * a) * b) by (nonlinear_arith);
    assert((a * b) * c == (b * a) * c) by (nonlinear_arith);
    assert((a * b) * c == (c * b) * a) by (nonlinear_arith);
    assert((a * b) * c == (a * c) * b) by (nonlinear_arith);
    assert((a * b) * c == a * (b * c)) by (nonlinear_arith);
    assert(a * b == b * a) by (nonlinear_arith);
}

/// A common factor of a sum of three products.
pub(crate) proof fn lemma_scaled_sum(
    s: real,
    m: (real, real, real),
    n: (real, real, real),
    p: (real, real, real),
)
    requires
        s * m.0 == n.0,
        s * m.1 == n.1,
        s * m.2 == n.2,
    ensures
        s * (m.0 * p.0 + m.1 * p.1 + m.2 * p.2) == n.0 * p.0 + n.1 * p.1 + n.2 * p.2,
{
    let (x, y, z) = (m.0 * p.0, m.1 * p.1, m.2 * p.2);
    lemma_apart(x + y, z, s);
    lemma_apart(x, y, s);
    lemma_round(s, m.0, p.0);
    lemma_round(s, m.1, p.1);
    lemma_round(s, m.2, p.2);
}

} // verus!
