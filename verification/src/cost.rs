//! Route costs `a + b * sqrt(2)` as exact integer pairs `(a, b)`, and their order.
//!
//! `p + q * sqrt(2) >= 0` is decided on integers by comparing `p * p` with `2 * q * q`.
use vstd::prelude::*;

verus! {

/// `p + q * sqrt(2) >= 0`.
pub open spec fn nonneg(p: int, q: int) -> bool {
    if q >= 0 {
        p >= 0 || 2 * (q * q) >= p * p
    } else {
        p >= 0 && p * p >= 2 * (q * q)
    }
}

/// Cost `x` is at most cost `y`.
pub open spec fn cost_le(x: (int, int), y: (int, int)) -> bool {
    nonneg(y.0 - x.0, y.1 - x.1)
}

/// The sum of two costs.
pub open spec fn plus(x: (int, int), y: (int, int)) -> (int, int) {
    (x.0 + y.0, x.1 + y.1)
}

/// Case `q1, q2 >= 0` of `lemma_nonneg_add`.
proof fn lemma_add_both_up(p1: int, q1: int, p2: int, q2: int)
    requires
        q1 >= 0,
        q2 >= 0,
        nonneg(p1, q1),
        nonneg(p2, q2),
    ensures
        nonneg(p1 + p2, q1 + q2),
{
    if p1 + p2 < 0 {
        let u1 = if p1 < 0 { -p1 } else { 0 };
        let u2 = if p2 < 0 { -p2 } else { 0 };
        assert(u1 * u1 <= 2 * (q1 * q1)) by (nonlinear_arith)
            requires
                u1 == 0 || (u1 == -p1 && 2 * (q1 * q1) >= p1 * p1),
        ;
        assert(u2 * u2 <= 2 * (q2 * q2)) by (nonlinear_arith)
            requires
                u2 == 0 || (u2 == -p2 && 2 * (q2 * q2) >= p2 * p2),
        ;
        assert(u1 * u2 <= 2 * (q1 * q2)) by (nonlinear_arith)
            requires
                u1 >= 0,
                u2 >= 0,
                q1 >= 0,
                q2 >= 0,
                u1 * u1 <= 2 * (q1 * q1),
                u2 * u2 <= 2 * (q2 * q2),
        {
            assert((u1 * u2) * (u1 * u2) == (u1 * u1) * (u2 * u2));
            assert((u1 * u1) * (u2 * u2) <= (2 * (q1 * q1)) * (2 * (q2 * q2)));
            assert((2 * (q1 * q1)) * (2 * (q2 * q2)) == (2 * (q1 * q2)) * (2 * (q1 * q2)));
            if u1 * u2 > 2 * (q1 * q2) {
                assert((u1 * u2) * (u1 * u2) > (2 * (q1 * q2)) * (2 * (q1 * q2)));
            }
        }
        assert((p1 + p2) * (p1 + p2) <= 2 * ((q1 + q2) * (q1 + q2))) by (nonlinear_arith)
            requires
                p1 + p2 < 0,
                u1 >= 0,
                u2 >= 0,
                u1 >= -p1,
                u2 >= -p2,
                u1 * u1 <= 2 * (q1 * q1),
                u2 * u2 <= 2 * (q2 * q2),
                u1 * u2 <= 2 * (q1 * q2),
        {
            assert(0 < -(p1 + p2) <= u1 + u2);
            assert((p1 + p2) * (p1 + p2) <= (u1 + u2) * (u1 + u2));
        }
    }
}

/// Case `q1, q2 < 0` of `lemma_nonneg_add`.
proof fn lemma_add_both_down(p1: int, q1: int, p2: int, q2: int)
    requires
        q1 < 0,
        q2 < 0,
        nonneg(p1, q1),
        nonneg(p2, q2),
    ensures
        nonneg(p1 + p2, q1 + q2),
{
    let d1 = -q1;
    let d2 = -q2;
    assert(q1 * q1 == d1 * d1 && q2 * q2 == d2 * d2 && (q1 + q2) * (q1 + q2) == (d1 + d2) * (d1 + d2))
        by (nonlinear_arith)
        requires
            d1 == -q1,
            d2 == -q2,
    ;
    assert(p1 * p2 >= 2 * (d1 * d2)) by (nonlinear_arith)
        requires
            p1 >= 0,
            p2 >= 0,
            d1 > 0,
            d2 > 0,
            p1 * p1 >= 2 * (d1 * d1),
            p2 * p2 >= 2 * (d2 * d2),
    {
        assert((p1 * p2) * (p1 * p2) == (p1 * p1) * (p2 * p2));
        assert((p1 * p1) * (p2 * p2) >= (2 * (d1 * d1)) * (2 * (d2 * d2)));
        assert((2 * (d1 * d1)) * (2 * (d2 * d2)) == (2 * (d1 * d2)) * (2 * (d1 * d2)));
        if p1 * p2 < 2 * (d1 * d2) {
            assert((p1 * p2) * (p1 * p2) < (2 * (d1 * d2)) * (2 * (d1 * d2)));
        }
    }
    assert((p1 + p2) * (p1 + p2) >= 2 * ((d1 + d2) * (d1 + d2))) by (nonlinear_arith)
        requires
            p1 * p1 >= 2 * (d1 * d1),
            p2 * p2 >= 2 * (d2 * d2),
            p1 * p2 >= 2 * (d1 * d2),
    ;
}

/// `a <= sqrt(2) * c`, `b >= sqrt(2) * d`, `a >= b`, `c >= d`: `a - b <= sqrt(2) * (c - d)`.
proof fn lemma_gap_down(a: int, b: int, c: int, d: int)
    requires
        a >= b >= 0,
        c >= d >= 0,
        a * a <= 2 * (c * c),
        b * b >= 2 * (d * d),
    ensures
        (a - b) * (a - b) <= 2 * ((c - d) * (c - d)),
{
    let x = a - b;
    let y = c - d;
    if x * x > 2 * (y * y) {
        assert((x * b) * (x * b) > (2 * (y * d)) * (2 * (y * d)) || (x * b >= 0 && y * d == 0 && x * b > 0) || b == 0) by (nonlinear_arith)
            requires
                x >= 0,
                y >= 0,
                b >= 0,
                d >= 0,
                x * x > 2 * (y * y),
                b * b >= 2 * (d * d),
        {
            assert((x * b) * (x * b) == (x * x) * (b * b));
            assert((2 * (y * d)) * (2 * (y * d)) == (2 * (y * y)) * (2 * (d * d)));
            if b > 0 {
                assert((x * x) * (b * b) > (2 * (y * y)) * (b * b));
                assert((2 * (y * y)) * (b * b) >= (2 * (y * y)) * (2 * (d * d)));
            }
        }
        assert(x * b >= 2 * (y * d)) by (nonlinear_arith)
            requires
                x >= 0,
                y >= 0,
                b >= 0,
                d >= 0,
                b * b >= 2 * (d * d),
                (x * b) * (x * b) > (2 * (y * d)) * (2 * (y * d)) || (x * b >= 0 && y * d == 0 && x * b > 0) || b == 0,
        {
            if b == 0 {
                assert(d == 0);
            }
        }
        assert(false) by (nonlinear_arith)
            requires
                x == a - b,
                y == c - d,
                a * a <= 2 * (c * c),
                b * b >= 2 * (d * d),
                x * x > 2 * (y * y),
                x * b >= 2 * (y * d),
        {
            assert(a * a == x * x + 2 * (x * b) + b * b);
            assert(c * c == y * y + 2 * (y * d) + d * d);
        }
    }
}

/// `a <= sqrt(2) * c`, `b >= sqrt(2) * d`, `d > c`: `b - a >= sqrt(2) * (d - c) > 0`.
proof fn lemma_gap_up(a: int, b: int, c: int, d: int)
    requires
        a >= 0,
        b >= 0,
        d > c >= 0,
        a * a <= 2 * (c * c),
        b * b >= 2 * (d * d),
    ensures
        b > a,
        (b - a) * (b - a) >= 2 * ((d - c) * (d - c)),
{
    assert(b > a) by (nonlinear_arith)
        requires
            a >= 0,
            b >= 0,
            d > c >= 0,
            a * a <= 2 * (c * c),
            b * b >= 2 * (d * d),
    {
        assert(d * d > c * c);
        if b <= a {
            assert(b * b <= a * a);
        }
    }
    let x = b - a;
    let y = d - c;
    if x * x < 2 * (y * y) {
        assert(x * a <= 2 * (y * c)) by (nonlinear_arith)
            requires
                x > 0,
                y > 0,
                a >= 0,
                c >= 0,
                x * x < 2 * (y * y),
                a * a <= 2 * (c * c),
        {
            assert((x * a) * (x * a) == (x * x) * (a * a));
            assert((2 * (y * c)) * (2 * (y * c)) == (2 * (y * y)) * (2 * (c * c)));
            assert((x * x) * (a * a) <= (2 * (y * y)) * (a * a));
            assert((2 * (y * y)) * (a * a) <= (2 * (y * y)) * (2 * (c * c)));
            if x * a > 2 * (y * c) {
                assert((x * a) * (x * a) > (2 * (y * c)) * (2 * (y * c)));
            }
        }
        assert(false) by (nonlinear_arith)
            requires
                x == b - a,
                y == d - c,
                a * a <= 2 * (c * c),
                b * b >= 2 * (d * d),
                x * x < 2 * (y * y),
                x * a <= 2 * (y * c),
        {
            assert(b * b == x * x + 2 * (x * a) + a * a);
            assert(d * d == y * y + 2 * (y * c) + c * c);
        }
    }
}

/// Case `q1 >= 0 > q2` of `lemma_nonneg_add`.
proof fn lemma_add_mixed(p1: int, q1: int, p2: int, q2: int)
    requires
        q1 >= 0,
        q2 < 0,
        nonneg(p1, q1),
        nonneg(p2, q2),
    ensures
        nonneg(p1 + p2, q1 + q2),
{
    let c = q1;
    let d = -q2;
    assert(q2 * q2 == d * d) by (nonlinear_arith)
        requires
            d == -q2,
    ;
    assert(p2 >= 0 && p2 * p2 >= 2 * (d * d));
    if c >= d {
        assert((q1 + q2) * (q1 + q2) == (c - d) * (c - d)) by (nonlinear_arith)
            requires
                c == q1,
                d == -q2,
        ;
        if p1 + p2 < 0 {
            let a = -p1;
            assert(p1 * p1 == a * a) by (nonlinear_arith)
                requires
                    a == -p1,
            ;
            lemma_gap_down(a, p2, c, d);
            assert((p1 + p2) * (p1 + p2) == (a - p2) * (a - p2)) by (nonlinear_arith)
                requires
                    a == -p1,
            ;
        }
    } else {
        assert((q1 + q2) * (q1 + q2) == (d - c) * (d - c)) by (nonlinear_arith)
            requires
                c == q1,
                d == -q2,
        ;
        if p1 >= 0 {
            assert((p1 + p2) * (p1 + p2) >= 2 * ((d - c) * (d - c))) by (nonlinear_arith)
                requires
                    p1 >= 0,
                    p2 >= 0,
                    d > c >= 0,
                    p2 * p2 >= 2 * (d * d),
            {
                assert((p1 + p2) * (p1 + p2) >= p2 * p2);
                assert(d * d >= (d - c) * (d - c));
            }
        } else {
            let a = -p1;
            assert(p1 * p1 == a * a) by (nonlinear_arith)
                requires
                    a == -p1,
            ;
            lemma_gap_up(a, p2, c, d);
            assert((p1 + p2) * (p1 + p2) == (p2 - a) * (p2 - a)) by (nonlinear_arith)
                requires
                    a == -p1,
            ;
        }
    }
}

/// The sum of two non-negative values is non-negative.
pub proof fn lemma_nonneg_add(p1: int, q1: int, p2: int, q2: int)
    requires
        nonneg(p1, q1),
        nonneg(p2, q2),
    ensures
        nonneg(p1 + p2, q1 + q2),
{
    if q1 >= 0 && q2 >= 0 {
        lemma_add_both_up(p1, q1, p2, q2);
    } else if q1 < 0 && q2 < 0 {
        lemma_add_both_down(p1, q1, p2, q2);
    } else if q1 >= 0 {
        lemma_add_mixed(p1, q1, p2, q2);
    } else {
        lemma_add_mixed(p2, q2, p1, q1);
    }
}

/// Of a value and its negation, one is non-negative.
pub proof fn lemma_nonneg_total(p: int, q: int)
    ensures
        nonneg(p, q) || nonneg(-p, -q),
{
    assert(q * q == (-q) * (-q) && p * p == (-p) * (-p)) by (nonlinear_arith);
}

/// Both parts non-negative: the value is non-negative.
pub proof fn lemma_nonneg_parts(p: int, q: int)
    requires
        p >= 0,
        q >= 0,
    ensures
        nonneg(p, q),
{
}

/// `cost_le` is transitive.
pub proof fn lemma_le_trans(x: (int, int), y: (int, int), z: (int, int))
    requires
        cost_le(x, y),
        cost_le(y, z),
    ensures
        cost_le(x, z),
{
    lemma_nonneg_add(y.0 - x.0, y.1 - x.1, z.0 - y.0, z.1 - y.1);
}

/// `x <= y` and `y < z` (not `z <= y`) give `x < z`.
pub proof fn lemma_le_lt_trans(x: (int, int), y: (int, int), z: (int, int))
    requires
        cost_le(x, y),
        !cost_le(z, y),
    ensures
        !cost_le(z, x),
{
    if cost_le(z, x) {
        lemma_le_trans(z, x, y);
    }
}

/// Not `y <= x` gives `x <= y`.
pub proof fn lemma_lt_le(x: (int, int), y: (int, int))
    requires
        !cost_le(y, x),
    ensures
        cost_le(x, y),
{
    lemma_nonneg_total(y.0 - x.0, y.1 - x.1);
}

/// Sums of ordered costs are ordered.
pub proof fn lemma_le_plus_both(x1: (int, int), y1: (int, int), x2: (int, int), y2: (int, int))
    requires
        cost_le(x1, y1),
        cost_le(x2, y2),
    ensures
        cost_le(plus(x1, x2), plus(y1, y2)),
{
    lemma_nonneg_add(y1.0 - x1.0, y1.1 - x1.1, y2.0 - x2.0, y2.1 - x2.1);
    assert(plus(y1, y2).0 - plus(x1, x2).0 == (y1.0 - x1.0) + (y2.0 - x2.0));
    assert(plus(y1, y2).1 - plus(x1, x2).1 == (y1.1 - x1.1) + (y2.1 - x2.1));
}

/// No positive integers satisfy `p * p == 2 * q * q`: `sqrt(2)` is irrational.
pub proof fn lemma_sqrt2_irrational(p: int, q: int)
    requires
        p >= 0,
        q >= 0,
        p * p == 2 * (q * q),
    ensures
        p == 0,
        q == 0,
    decreases q,
{
    if q == 0 {
        assert(p == 0) by (nonlinear_arith)
            requires
                p >= 0,
                q == 0,
                p * p == 2 * (q * q),
        ;
    } else {
        let a = p / 2;
        if p % 2 == 1 {
            assert(p * p == 2 * (2 * (a * a) + 2 * a) + 1) by (nonlinear_arith)
                requires
                    p == 2 * a + 1,
            ;
            assert(false);
        }
        assert(p == 2 * a);
        assert(q * q == 2 * (a * a)) by (nonlinear_arith)
            requires
                p == 2 * a,
                p * p == 2 * (q * q),
        ;
        assert(0 <= a < q) by (nonlinear_arith)
            requires
                q > 0,
                a >= 0,
                q * q == 2 * (a * a),
        {
            if a >= q {
                assert(a * a >= q * q);
            }
        }
        lemma_sqrt2_irrational(q, a);
    }
}

/// Costs that are each at most the other are equal.
pub proof fn lemma_le_antisym(x: (int, int), y: (int, int))
    requires
        cost_le(x, y),
        cost_le(y, x),
    ensures
        x == y,
{
    let p = y.0 - x.0;
    let q = y.1 - x.1;
    let pp = p * p;
    let qq = q * q;
    assert((-p) * (-p) == pp && (-q) * (-q) == qq && pp >= 0 && qq >= 0 && (q != 0 ==> qq > 0) && (p != 0 ==> pp > 0) && (p == 0 ==> pp == 0) && (q == 0 ==> qq == 0))
        by (nonlinear_arith)
        requires
            pp == p * p,
            qq == q * q,
    ;
    assert(nonneg(p, q) && nonneg(-p, -q));
    if q != 0 {
        assert(pp == 2 * qq);
        let ap = if p >= 0 { p } else { -p };
        let aq = if q >= 0 { q } else { -q };
        assert(ap * ap == pp && aq * aq == qq) by (nonlinear_arith)
            requires
                ap == p || ap == -p,
                aq == q || aq == -q,
                pp == p * p,
                qq == q * q,
        ;
        lemma_sqrt2_irrational(ap, aq);
    }
}

} // verus!
