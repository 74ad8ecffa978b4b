//! Rounding keeps the order of numbers.

use crate::double::{
    carried, excess, fl_add, fl_ceil, fl_div, fl_floor, fl_le, fl_mul, fl_nat, grown, half_even,
    lemma_grown_bounds, nearest, Fl, HIDDEN, LIMIT,
};
use vstd::arithmetic::div_mod::{
    lemma_div_is_ordered, lemma_fundamental_div_mod, lemma_fundamental_div_mod_converse,
};
use vstd::arithmetic::power2::{lemma_pow2_adds, lemma_pow2_pos, lemma_pow2_unfold, pow2};
use vstd::prelude::*;

verus! {

/// Whether a number has the one form that rounding gives it.
pub open spec fn normal(a: Fl) -> bool {
    (a.m == 0 && a.e == 0) || HIDDEN <= a.m < LIMIT
}

proof fn lemma_pow2_double(k: nat)
    ensures
        pow2(k + 1) == 2 * pow2(k),
        pow2(k) > 0,
{
    lemma_pow2_unfold(k + 1);
    lemma_pow2_pos(k);
}

proof fn lemma_pow2_none()
    ensures
        pow2(0) == 1,
{
    vstd::arithmetic::power2::lemma2_to64();
}

/// Rounding to an integer keeps the order.
proof fn lemma_half_even_order(a: nat, b: nat, d: nat)
    requires
        a <= b,
        d > 0,
    ensures
        half_even(a, d) <= half_even(b, d),
{
    lemma_div_is_ordered(a as int, b as int, d as int);
    lemma_fundamental_div_mod(a as int, d as int);
    lemma_fundamental_div_mod(b as int, d as int);
    if a / d == b / d {
        assert(a % d <= b % d);
    }
}

/// What is at least an integer is rounded to no less, and what is at most one to no more.
proof fn lemma_half_even_bounds(n: nat, d: nat, low: nat, high: nat)
    requires
        d > 0,
        low * d <= n <= high * d,
    ensures
        low <= half_even(n, d) <= high,
{
    lemma_fundamental_div_mod_converse((low * d) as int, d as int, low as int, 0);
    lemma_fundamental_div_mod_converse((high * d) as int, d as int, high as int, 0);
    lemma_half_even_order(low * d, n, d);
    lemma_half_even_order(n, high * d, d);
}

/// Rounding does not depend on the unit.
proof fn lemma_half_even_scaled(n: nat, d: nat)
    requires
        d > 0,
    ensures
        half_even(2 * n, 2 * d) == half_even(n, d),
{
    let q = n / d;
    let r = n % d;
    lemma_fundamental_div_mod(n as int, d as int);
    assert(2 * n == (2 * d) * q + 2 * r) by (nonlinear_arith)
        requires
            n == d * q + r,
    ;
    lemma_fundamental_div_mod_converse((2 * n) as int, (2 * d) as int, q as int, (2 * r) as int);
}

proof fn lemma_excess_bounds(n: nat)
    requires
        n >= LIMIT,
    ensures
        excess(n) >= 1,
        HIDDEN * pow2(excess(n)) <= n < LIMIT * pow2(excess(n)),
    decreases n,
{
    lemma_pow2_none();
    lemma_pow2_double(0);
    if n / 2 >= LIMIT {
        lemma_excess_bounds(n / 2);
        let p = pow2(excess(n / 2));
        lemma_pow2_double(excess(n / 2));
        assert(pow2(excess(n)) == 2 * p);
        assert(HIDDEN * (2 * p) <= n && n < LIMIT * (2 * p)) by (nonlinear_arith)
            requires
                HIDDEN * p <= n / 2,
                n / 2 < LIMIT * p,
        ;
    } else {
        assert(excess(n / 2) == 0);
    }
}

proof fn lemma_excess_order(a: nat, b: nat)
    requires
        a <= b,
    ensures
        excess(a) <= excess(b),
    decreases b,
{
    if a >= LIMIT {
        lemma_excess_order(a / 2, b / 2);
    }
}

proof fn lemma_rounded_large(n: nat)
    requires
        n >= LIMIT,
    ensures
        HIDDEN <= half_even(n, pow2(excess(n))) <= LIMIT,
{
    lemma_excess_bounds(n);
    lemma_pow2_pos(excess(n));
    lemma_half_even_bounds(n, pow2(excess(n)), HIDDEN as nat, LIMIT as nat);
}

proof fn lemma_carried_order(m1: nat, e1: int, m2: nat, e2: int)
    requires
        HIDDEN <= m1 <= LIMIT,
        HIDDEN <= m2 <= LIMIT,
        e1 < e2 || (e1 == e2 && m1 <= m2),
    ensures
        fl_le(carried(m1, e1), carried(m2, e2)),
        normal(carried(m1, e1)),
{
}

proof fn lemma_grown_order(a: nat, b: nat, e: int)
    requires
        0 < a <= b < LIMIT,
    ensures
        fl_le(grown(a, e), grown(b, e)),
    decreases LIMIT - a,
{
    lemma_grown_bounds(a, e);
    lemma_grown_bounds(b, e);
    if a < HIDDEN {
        lemma_grown_bounds(2 * a, e - 1);
        if b < HIDDEN {
            lemma_grown_order(2 * a, 2 * b, e - 1);
        }
    }
}

/// Rounded numbers are in normal form.
proof fn lemma_nearest_normal(n: nat, e: int)
    ensures
        normal(nearest(n, e)),
        nearest(n, e).m == 0 <==> n == 0,
{
    if n >= LIMIT {
        lemma_rounded_large(n);
    } else if n > 0 {
        lemma_grown_bounds(n, e);
    }
}

/// Rounding keeps the order.
proof fn lemma_nearest_order(a: nat, b: nat, e: int)
    requires
        a <= b,
    ensures
        fl_le(nearest(a, e), nearest(b, e)),
{
    if a > 0 {
        if b < LIMIT {
            lemma_grown_order(a, b, e);
        } else {
            lemma_rounded_large(b);
            lemma_excess_bounds(b);
            if a < LIMIT {
                lemma_grown_bounds(a, e);
            } else {
                lemma_rounded_large(a);
                lemma_excess_order(a, b);
                lemma_pow2_pos(excess(a));
                if excess(a) == excess(b) {
                    lemma_half_even_order(a, b, pow2(excess(a)));
                }
                lemma_carried_order(
                    half_even(a, pow2(excess(a))),
                    e + excess(a),
                    half_even(b, pow2(excess(b))),
                    e + excess(b),
                );
            }
        }
    }
}

/// Rounding does not depend on the unit.
proof fn lemma_nearest_double(n: nat, e: int)
    ensures
        nearest(2 * n, e - 1) == nearest(n, e),
{
    lemma_pow2_none();
    lemma_pow2_double(0);
    if n >= LIMIT {
        let d = pow2(excess(n));
        lemma_pow2_double(excess(n));
        assert((2 * n) / 2 == n);
        assert(excess(2 * n) == excess(n) + 1);
        lemma_half_even_scaled(n, d);
    } else if 2 * n >= LIMIT {
        assert((2 * n) / 2 == n);
        assert(excess(n) == 0);
        assert(excess(2 * n) == 1);
        assert(half_even(2 * n, 2) == n);
    }
}

proof fn lemma_nearest_scaled(n: nat, e: int, k: nat)
    ensures
        nearest(n * pow2(k), e - k) == nearest(n, e),
    decreases k,
{
    lemma_pow2_none();
    if k > 0 {
        let j = (k - 1) as nat;
        lemma_nearest_scaled(n, e, j);
        lemma_pow2_double(j);
        assert(n * pow2(k) == 2 * (n * pow2(j))) by (nonlinear_arith)
            requires
                pow2(k) == 2 * pow2(j),
        ;
        lemma_nearest_double(n * pow2(j), e - j);
        assert(e - j - 1 == e - k);
    } else {
        assert(n * pow2(k) == n) by (nonlinear_arith)
            requires
                pow2(k) == 1,
        ;
    }
}

/// A number as a multiple of two to the power `k`.
spec fn multiple(a: Fl, k: int) -> nat {
    a.m * pow2((a.e - k) as nat)
}

proof fn lemma_multiple_order(a: Fl, b: Fl, k: int)
    requires
        normal(a),
        normal(b),
        fl_le(a, b),
        k <= a.e,
        k <= b.e,
    ensures
        multiple(a, k) <= multiple(b, k),
{
    let p = pow2((a.e - k) as nat);
    let q = pow2((b.e - k) as nat);
    lemma_pow2_pos((a.e - k) as nat);
    lemma_pow2_pos((b.e - k) as nat);
    let (x, y) = (a.m, b.m);
    if x == 0 {
        assert(x * p == 0) by (nonlinear_arith)
            requires
                x == 0,
        ;
    } else if a.e == b.e {
        assert(x * p <= y * q) by (nonlinear_arith)
            requires
                p == q,
                x <= y,
        ;
    } else {
        let d = (b.e - a.e - 1) as nat;
        lemma_pow2_double((a.e - k) as nat);
        lemma_pow2_adds((a.e - k + 1) as nat, d);
        lemma_pow2_pos(d);
        let r = pow2(d);
        assert(q == (2 * p) * r);
        assert(x * p <= y * q) by (nonlinear_arith)
            requires
                q == (2 * p) * r,
                r >= 1,
                p >= 1,
                x <= 2 * y,
        ;
    }
}

/// A sum is the exact sum, rounded.
proof fn lemma_sum_rounded(a: Fl, b: Fl, k: int)
    requires
        normal(a),
        normal(b),
        k <= a.e,
        k <= b.e,
    ensures
        fl_add(a, b) == nearest(multiple(a, k) + multiple(b, k), k),
{
    lemma_nearest_scaled(a.m, a.e, (a.e - k) as nat);
    lemma_nearest_scaled(b.m, b.e, (b.e - k) as nat);
    if a.m == 0 {
        assert(multiple(a, k) == 0) by (nonlinear_arith)
            requires
                multiple(a, k) == a.m * pow2((a.e - k) as nat),
                a.m == 0,
        ;
    } else if b.m == 0 {
        assert(multiple(b, k) == 0) by (nonlinear_arith)
            requires
                multiple(b, k) == b.m * pow2((b.e - k) as nat),
                b.m == 0,
        ;
    } else if a.e >= b.e {
        let n = a.m * pow2((a.e - b.e) as nat) + b.m;
        let j = (b.e - k) as nat;
        lemma_nearest_scaled(n, b.e, j);
        lemma_pow2_adds((a.e - b.e) as nat, j);
        let (x, p, q, y) = (a.m, pow2((a.e - b.e) as nat), pow2(j), b.m);
        assert((x * p + y) * q == x * (p * q) + y * q) by (nonlinear_arith);
    } else {
        let n = a.m + b.m * pow2((b.e - a.e) as nat);
        let j = (a.e - k) as nat;
        lemma_nearest_scaled(n, a.e, j);
        lemma_pow2_adds((b.e - a.e) as nat, j);
        let (x, p, q, y) = (a.m, pow2((b.e - a.e) as nat), pow2(j), b.m);
        assert((x + y * p) * q == x * q + y * (p * q)) by (nonlinear_arith);
    }
}

/// A rounded sum does not fall when its parts grow.
pub proof fn lemma_sum_order(a1: Fl, b1: Fl, a2: Fl, b2: Fl)
    requires
        normal(a1),
        normal(b1),
        normal(a2),
        normal(b2),
        fl_le(a1, a2),
        fl_le(b1, b2),
    ensures
        normal(fl_add(a1, b1)),
        fl_le(fl_add(a1, b1), fl_add(a2, b2)),
        fl_add(a1, b1).m == 0 <==> a1.m == 0 && b1.m == 0,
{
    let k1 = if a1.e <= b1.e {
        a1.e
    } else {
        b1.e
    };
    let k2 = if a2.e <= b2.e {
        a2.e
    } else {
        b2.e
    };
    let k = if k1 <= k2 {
        k1
    } else {
        k2
    };
    lemma_sum_rounded(a1, b1, k);
    lemma_sum_rounded(a2, b2, k);
    lemma_multiple_order(a1, a2, k);
    lemma_multiple_order(b1, b2, k);
    let s = multiple(a1, k) + multiple(b1, k);
    lemma_nearest_order(s, multiple(a2, k) + multiple(b2, k), k);
    lemma_nearest_normal(s, k);
}

/// A significand that a division gives.
proof fn lemma_quotient(x: nat, d: nat)
    requires
        HIDDEN <= x < LIMIT,
        HIDDEN <= d < LIMIT,
    ensures
        x >= d ==> HIDDEN <= half_even(x * HIDDEN as nat, d) <= LIMIT,
        x < d ==> HIDDEN <= half_even(x * LIMIT as nat, d) <= LIMIT,
{
    if x >= d {
        assert(HIDDEN * d <= x * HIDDEN && x * HIDDEN <= LIMIT * d) by (nonlinear_arith)
            requires
                d <= x < LIMIT,
                HIDDEN <= d,
        ;
        lemma_half_even_bounds(x * HIDDEN as nat, d, HIDDEN as nat, LIMIT as nat);
    } else {
        assert(HIDDEN * d <= x * LIMIT && x * LIMIT <= LIMIT * d) by (nonlinear_arith)
            requires
                HIDDEN <= x < d,
                d < LIMIT,
                LIMIT == 2 * HIDDEN,
        ;
        lemma_half_even_bounds(x * LIMIT as nat, d, HIDDEN as nat, LIMIT as nat);
    }
}

/// A rounded quotient does not fall when the number that is divided grows.
pub proof fn lemma_quotient_order(a: Fl, b: Fl, d: Fl)
    requires
        normal(a),
        normal(b),
        normal(d),
        d.m > 0,
        fl_le(a, b),
    ensures
        normal(fl_div(a, d)),
        fl_le(fl_div(a, d), fl_div(b, d)),
        fl_div(a, d).m == 0 <==> a.m == 0,
{
    if a.m > 0 {
        lemma_quotient(a.m, d.m);
        lemma_quotient(b.m, d.m);
        let (x, y, z) = (a.m, b.m, d.m);
        let (h, l) = (HIDDEN as nat, LIMIT as nat);
        let m1 = if x >= z {
            half_even(x * h, z)
        } else {
            half_even(x * l, z)
        };
        let e1 = if x >= z {
            a.e - d.e - 52
        } else {
            a.e - d.e - 53
        };
        let m2 = if y >= z {
            half_even(y * h, z)
        } else {
            half_even(y * l, z)
        };
        let e2 = if y >= z {
            b.e - d.e - 52
        } else {
            b.e - d.e - 53
        };
        if e1 == e2 {
            if a.e == b.e {
                assert(x * h <= y * h && x * l <= y * l) by (nonlinear_arith)
                    requires
                        x <= y,
                ;
                if x >= z {
                    lemma_half_even_order(x * h, y * h, z);
                } else {
                    lemma_half_even_order(x * l, y * l, z);
                }
            } else {
                assert(x * h <= y * l) by (nonlinear_arith)
                    requires
                        x < l,
                        h <= y,
                        l == 2 * h,
                ;
                lemma_half_even_order(x * h, y * l, z);
            }
        }
        lemma_carried_order(m1, e1, m2, e2);
    }
}

/// Rounding up to an integer keeps the order, and only zero gives zero.
pub proof fn lemma_ceil_order(a: Fl, b: Fl)
    requires
        normal(a),
        normal(b),
        fl_le(a, b),
    ensures
        fl_ceil(a) <= fl_ceil(b),
        fl_ceil(a) == 0 <==> a.m == 0,
{
    lemma_pow2_none();
    lemma_ceil_zero(a);
    if a.m > 0 {
        if a.e >= 0 {
            lemma_multiple_order(a, b, 0);
        } else {
            let p = pow2((-a.e) as nat);
            lemma_pow2_pos((-a.e) as nat);
            let y = fl_ceil(b);
            assert(a.m <= y * p) by {
                if b.e >= 0 {
                    lemma_pow2_pos(b.e as nat);
                    lemma_pow2_double((-a.e - 1) as nat);
                    let q = pow2(b.e as nat);
                    let m = b.m;
                    assert(y >= HIDDEN) by (nonlinear_arith)
                        requires
                            y == m * q,
                            q >= 1,
                            m >= HIDDEN,
                    ;
                    assert(y * p >= LIMIT) by (nonlinear_arith)
                        requires
                            y >= HIDDEN,
                            p >= 2,
                            LIMIT == 2 * HIDDEN,
                    ;
                } else {
                    let q = pow2((-b.e) as nat);
                    lemma_pow2_pos((-b.e) as nat);
                    lemma_fundamental_div_mod(b.m + q - 1, q as int);
                    assert(b.m <= y * q) by (nonlinear_arith)
                        requires
                            b.m + q - 1 == q * y + (b.m + q - 1) % (q as int),
                            (b.m + q - 1) % (q as int) < q,
                    ;
                    if a.e < b.e {
                        let j = (b.e - a.e) as nat;
                        lemma_pow2_adds((-b.e) as nat, j);
                        lemma_pow2_double((j - 1) as nat);
                        let r = pow2(j);
                        let m = b.m;
                        assert(y * p >= LIMIT) by (nonlinear_arith)
                            requires
                                p == q * r,
                                r >= 2,
                                m <= y * q,
                                m >= HIDDEN,
                                LIMIT == 2 * HIDDEN,
                        ;
                    }
                }
            }
            lemma_ceil_least(a.m, p, y);
        }
    }
}

proof fn lemma_ceil_zero(a: Fl)
    ensures
        fl_ceil(a) == 0 <==> a.m == 0,
{
    if a.e >= 0 {
        let p = pow2(a.e as nat);
        let m = a.m;
        lemma_pow2_pos(a.e as nat);
        assert(m * p == 0 <==> m == 0) by (nonlinear_arith)
            requires
                p > 0,
        ;
    } else {
        let p = pow2((-a.e) as nat);
        lemma_pow2_pos((-a.e) as nat);
        if a.m == 0 {
            lemma_fundamental_div_mod_converse(p - 1, p as int, 0, p - 1);
        } else {
            lemma_div_is_ordered(p as int, a.m + p - 1, p as int);
            lemma_fundamental_div_mod_converse(p as int, p as int, 1, 0);
        }
    }
}

proof fn lemma_ceil_least(m: nat, p: nat, y: nat)
    requires
        p > 0,
        m <= y * p,
    ensures
        (m + p - 1) / p as int <= y,
{
    lemma_div_is_ordered(m + p - 1, y * p + p - 1, p as int);
    lemma_fundamental_div_mod_converse(y * p + p - 1, p as int, y as int, p - 1);
}

/// Integers keep their order when they are rounded to doubles.
pub proof fn lemma_nat_order(a: nat, b: nat)
    requires
        a <= b,
    ensures
        normal(fl_nat(a)),
        normal(fl_nat(b)),
        fl_le(fl_nat(a), fl_nat(b)),
        fl_nat(a).m == 0 <==> a == 0,
{
    lemma_nearest_order(a, b, 0);
    lemma_nearest_normal(a, 0);
    lemma_nearest_normal(b, 0);
}

proof fn lemma_product_rounded(a: Fl, f: Fl, k: int)
    requires
        k <= a.e,
    ensures
        fl_mul(a, f) == nearest(multiple(a, k) * f.m, k + f.e),
{
    let p = pow2((a.e - k) as nat);
    lemma_nearest_scaled(a.m * f.m, a.e + f.e, (a.e - k) as nat);
    assert((a.m * f.m) * p == (a.m * p) * f.m) by (nonlinear_arith);
    assert(a.e + f.e - (a.e - k) == k + f.e);
}

/// A product with one factor keeps the order of the other.
pub proof fn lemma_product_order(a: Fl, b: Fl, f: Fl)
    requires
        normal(a),
        normal(b),
        f.m > 0,
        fl_le(a, b),
    ensures
        normal(fl_mul(a, f)),
        fl_le(fl_mul(a, f), fl_mul(b, f)),
        fl_mul(a, f).m == 0 <==> a.m == 0,
{
    let (x, y) = (a.m, f.m);
    assert(x * y == 0 <==> x == 0) by (nonlinear_arith)
        requires
            y > 0,
    ;
    lemma_nearest_normal(a.m * f.m, a.e + f.e);
    if a.m > 0 {
        let k = if a.e <= b.e {
            a.e
        } else {
            b.e
        };
        lemma_multiple_order(a, b, k);
        lemma_product_rounded(a, f, k);
        lemma_product_rounded(b, f, k);
        let (u, v) = (multiple(a, k), multiple(b, k));
        assert(u * y <= v * y) by (nonlinear_arith)
            requires
                u <= v,
        ;
        lemma_nearest_order(u * y, v * y, k + f.e);
    }
}

proof fn lemma_grown_value(n: nat, j: nat)
    requires
        n > 0,
        n < LIMIT,
    ensures
        ({
            let g = grown(n, -(j as int));
            &&& g.e <= -(j as int)
            &&& g.m == n * pow2((-g.e - j) as nat)
        }),
    decreases LIMIT - n,
{
    lemma_pow2_none();
    if n < HIDDEN {
        lemma_grown_value(2 * n, j + 1);
        let g = grown(2 * n, -((j + 1) as int));
        assert(grown(n, -(j as int)) == g);
        let k = (-g.e - j - 1) as nat;
        lemma_pow2_double(k);
        assert((2 * n) * pow2(k) == n * (2 * pow2(k))) by (nonlinear_arith);
    } else {
        assert(n * 1 == n);
    }
}

/// An integer that fits in the significand is its own double: rounding it up or down to an integer
/// gives it back.
pub proof fn lemma_integers_are_exact(n: nat)
    requires
        n < LIMIT,
    ensures
        fl_ceil(fl_nat(n)) == n,
        fl_floor(fl_nat(n)) == n,
{
    lemma_pow2_none();
    if n == 0 {
        assert(fl_nat(0) == (Fl { m: 0, e: 0 }));
        assert(0nat * pow2(0) == 0) by (nonlinear_arith);
    } else {
        lemma_grown_value(n, 0);
        let g = grown(n, 0);
        assert(fl_nat(n) == g);
        let k = (-g.e) as nat;
        let p = pow2(k);
        lemma_pow2_pos(k);
        assert(g.m == n * p);
        assert(n * p == p * n) by (nonlinear_arith);
        if k == 0 {
            assert(g.e == 0);
            assert(g.m * pow2(g.e as nat) == n) by (nonlinear_arith)
                requires
                    g.m == n * p,
                    p == 1,
                    pow2(g.e as nat) == 1,
            ;
        }
        lemma_fundamental_div_mod_converse(g.m as int, p as int, n as int, 0);
        lemma_fundamental_div_mod_converse(g.m + p - 1, p as int, n as int, p - 1);
    }
}

/// A product with one is the other factor.
pub proof fn lemma_times_one(a: Fl)
    requires
        normal(a),
    ensures
        fl_mul(a, Fl { m: HIDDEN as nat, e: -52 }) == a,
{
    vstd::arithmetic::power2::lemma2_to64_rest();
    assert(pow2(52) == HIDDEN);
    lemma_nearest_scaled(a.m, a.e, 52);
    if a.m > 0 {
        assert(nearest(a.m, a.e) == a);
    }
}

/// The part below the point does not change the order.
pub proof fn lemma_floor_order(a: Fl, b: Fl)
    requires
        normal(a),
        normal(b),
        fl_le(a, b),
    ensures
        fl_floor(a) <= fl_floor(b),
{
    lemma_pow2_none();
    if a.m > 0 {
        let k: int = if a.e <= b.e && a.e <= 0 {
            a.e
        } else if b.e <= 0 {
            b.e
        } else {
            0
        };
        lemma_multiple_order(a, b, k);
        lemma_floor_of_multiple(a, k);
        lemma_floor_of_multiple(b, k);
        let p = pow2((-k) as nat);
        lemma_pow2_pos((-k) as nat);
        lemma_div_is_ordered(multiple(a, k) as int, multiple(b, k) as int, p as int);
    } else if a.e >= 0 {
        let (x, p) = (a.m, pow2(a.e as nat));
        assert(x * p == 0) by (nonlinear_arith)
            requires
                x == 0,
        ;
    } else {
        lemma_pow2_pos((-a.e) as nat);
        lemma_fundamental_div_mod_converse(0, pow2((-a.e) as nat) as int, 0, 0);
    }
}

proof fn lemma_floor_of_multiple(a: Fl, k: int)
    requires
        k <= a.e,
        k <= 0,
    ensures
        fl_floor(a) == multiple(a, k) / pow2((-k) as nat),
{
    let p = pow2((-k) as nat);
    lemma_pow2_pos((-k) as nat);
    let m = a.m;
    if a.e >= 0 {
        let q = pow2(a.e as nat);
        lemma_pow2_adds(a.e as nat, (-k) as nat);
        assert(pow2((a.e - k) as nat) == q * p);
        assert(m * (q * p) == (m * q) * p) by (nonlinear_arith);
        lemma_fundamental_div_mod_converse((m * q) * p as int, p as int, (m * q) as int, 0);
    } else {
        let q = pow2((-a.e) as nat);
        let x = pow2((a.e - k) as nat);
        lemma_pow2_pos((-a.e) as nat);
        lemma_pow2_pos((a.e - k) as nat);
        lemma_pow2_adds((-a.e) as nat, (a.e - k) as nat);
        assert(p == q * x);
        let d = m / q;
        let r = m % q;
        lemma_fundamental_div_mod(m as int, q as int);
        assert(m * x == p * d + r * x && 0 <= r * x < p) by (nonlinear_arith)
            requires
                m == q * d + r,
                0 <= r < q,
                p == q * x,
                x > 0,
        ;
        lemma_fundamental_div_mod_converse((m * x) as int, p as int, d as int, (r * x) as int);
    }
}

/// Rounding to an integer takes the nearest one: it is off by a half at most, and where two are
/// equally near it takes the even one.
pub proof fn lemma_nearest_integer(n: nat, d: nat)
    requires
        d > 0,
    ensures
        2 * (half_even(n, d) * d) <= 2 * n + d,
        2 * n <= 2 * (half_even(n, d) * d) + d,
        2 * n == 2 * (half_even(n, d) * d) + d || 2 * (half_even(n, d) * d) == 2 * n + d
            ==> half_even(n, d) % 2 == 0,
{
    let q = n / d;
    let r = n % d;
    let h = half_even(n, d);
    lemma_fundamental_div_mod(n as int, d as int);
    assert(q * d == d * q) by (nonlinear_arith);
    assert((q + 1) * d == q * d + d) by (nonlinear_arith);
    assert(h * d == if h == q {
        (n - r) as int
    } else {
        n - r + d
    });
}

/// Rounding a number takes one that is near: the difference is at most one part in 2^53.
pub proof fn lemma_nearest_number(n: nat, e: int)
    requires
        n >= LIMIT,
    ensures
        ({
            let r = nearest(n, e);
            let value = r.m * pow2((r.e - e) as nat);
            &&& r.e >= e
            &&& LIMIT * value <= LIMIT * n + n
            &&& LIMIT * n <= LIMIT * value + n
        }),
{
    let k = excess(n);
    let p = pow2(k);
    lemma_excess_bounds(n);
    lemma_rounded_large(n);
    lemma_pow2_pos(k);
    lemma_pow2_double(k);
    lemma_nearest_integer(n, p);
    let h = half_even(n, p);
    let r = nearest(n, e);
    let value = r.m * pow2((r.e - e) as nat);
    assert(value == h * p) by {
        if h == LIMIT {
            assert(HIDDEN * (2 * p) == LIMIT * p) by (nonlinear_arith);
        }
    }
    assert(LIMIT * value <= LIMIT * n + n && LIMIT * n <= LIMIT * value + n) by (nonlinear_arith)
        requires
            2 * value <= 2 * n + p,
            2 * n <= 2 * value + p,
            HIDDEN * p <= n,
            LIMIT == 2 * HIDDEN,
    ;
}

/// A number is rounded up to the least integer that is not below it, and down to the greatest that is
/// not above it.
pub proof fn lemma_ceil_and_floor(a: Fl)
    requires
        a.e < 0,
    ensures
        ({
            let p = pow2((-a.e) as nat) as int;
            &&& (fl_ceil(a) - 1) * p < a.m <= fl_ceil(a) * p
            &&& fl_floor(a) * p <= a.m < (fl_floor(a) + 1) * p
        }),
{
    let p = pow2((-a.e) as nat) as int;
    lemma_pow2_pos((-a.e) as nat);
    let c = (a.m + p - 1) / p;
    let f = a.m as int / p;
    lemma_fundamental_div_mod(a.m + p - 1, p);
    lemma_fundamental_div_mod(a.m as int, p);
    assert((c - 1) * p == p * c - p && c * p == p * c) by (nonlinear_arith);
    assert((f + 1) * p == p * f + p && f * p == p * f) by (nonlinear_arith);
    assert(c >= 0) by (nonlinear_arith)
        requires
            p * c + (a.m + p - 1) % p == a.m + p - 1,
            (a.m + p - 1) % p < p,
            p > 0,
            a.m >= 0,
    ;
}

proof fn lemma_grown_shifted(m: nat, e: int)
    requires
        0 < m < LIMIT,
    ensures
        grown(m, e + 1).m == grown(m, e).m,
        grown(m, e + 1).e == grown(m, e).e + 1,
    decreases LIMIT - m,
{
    if m < HIDDEN {
        lemma_grown_shifted(2 * m, e - 1);
    }
}

/// Twice an integer has the same significand, one place higher.
pub proof fn lemma_integer_doubled(n: nat)
    requires
        n > 0,
    ensures
        fl_nat(2 * n).m == fl_nat(n).m,
        fl_nat(2 * n).e == fl_nat(n).e + 1,
{
    lemma_nearest_double(n, 1);
    if n < LIMIT {
        lemma_grown_shifted(n, 0);
    }
}

/// The quotient of a number by itself is one, and doubling the dividend doubles a quotient.
pub proof fn lemma_quotient_of_equals(a: Fl, b: Fl, k: int)
    requires
        a.m >= HIDDEN,
        b.m >= HIDDEN,
    ensures
        fl_div(Fl { m: a.m, e: a.e + k }, a) == (Fl { m: HIDDEN as nat, e: k - 52 }),
        fl_div(Fl { m: a.m, e: a.e + k }, b).m == fl_div(a, b).m,
        fl_div(Fl { m: a.m, e: a.e + k }, b).e == fl_div(a, b).e + k,
{
    assert(HIDDEN * a.m == a.m * HIDDEN) by (nonlinear_arith);
    lemma_half_even_bounds(a.m * HIDDEN as nat, a.m, HIDDEN as nat, HIDDEN as nat);
}

/// Three times a number, divided by one and a half, is twice that number.
pub proof fn lemma_three_halves(k: nat)
    requires
        0 < k,
        3 * k < LIMIT,
    ensures
        fl_ceil(fl_div(fl_nat(3 * k), Fl { m: 0x18_0000_0000_0000, e: -52 })) == 2 * k,
{
    let w = 0x18_0000_0000_0000nat;
    let g = fl_nat(3 * k);
    lemma_grown_value(3 * k, 0);
    lemma_grown_bounds(3 * k, 0);
    assert(g == grown(3 * k, 0));
    let j = (-g.e) as nat;
    let p = pow2(j);
    lemma_pow2_pos(j);
    lemma_pow2_none();
    lemma_pow2_double(j);
    assert(g.m == (3 * k) * p);
    let u = k * p;
    assert((3 * k) * p == 3 * u && (2 * k) * p == 2 * u) by (nonlinear_arith)
        requires
            u == k * p,
    ;
    assert(p * (2 * k) == 2 * u && (2 * p) * (2 * k) == 4 * u) by (nonlinear_arith)
        requires
            u == k * p,
    ;
    if g.m >= w {
        let h = 2 * u;
        lemma_half_even_bounds(g.m * HIDDEN as nat, w, h, h);
        let q = fl_div(g, Fl { m: w, e: -52 });
        assert(q == (Fl { m: h, e: g.e }));
        lemma_fundamental_div_mod_converse(h + p - 1, p as int, (2 * k) as int, p - 1);
        if g.e == 0 {
            assert(u == k && h * pow2(0) == h) by (nonlinear_arith)
                requires
                    u == k * p,
                    p == 1,
                    pow2(0) == 1,
            ;
        }
    } else {
        let h = 4 * u;
        lemma_half_even_bounds(g.m * LIMIT as nat, w, h, h);
        let q = fl_div(g, Fl { m: w, e: -52 });
        assert(q == (Fl { m: h, e: g.e - 1 }));
        assert(pow2((-q.e) as nat) == 2 * p);
        lemma_fundamental_div_mod_converse(
            h + 2 * p - 1,
            (2 * p) as int,
            (2 * k) as int,
            2 * p - 1,
        );
    }
}

} // verus!
