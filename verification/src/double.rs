//! Non-negative double-precision numbers, computed with integers.
//!
//! A number is a significand of 53 bits times a power of two. Every operation rounds its exact
//! result to the nearest such number, ties to the even significand, as the hardware does. The
//! exponent is not bounded here: the token arithmetic stays far away from overflow and underflow.

use vstd::arithmetic::power2::pow2;
use vstd::prelude::*;

verus! {

/// Two to the power 52: the smallest normal significand.
pub const HIDDEN: u64 = 0x10_0000_0000_0000;

/// Two to the power 53: the first integer past the significands.
pub const LIMIT: u64 = 0x20_0000_0000_0000;

/// A double as it travels through requests: the bit pattern of its IEEE 754 encoding.
#[derive(Clone, Copy, Debug, PartialEq, Eq, Structural)]
pub struct Real {
    pub bits: u64,
}

impl Real {
    /// Whether the sign bit is set.
    pub open spec fn negative(self) -> bool {
        self.bits >= 0x8000_0000_0000_0000
    }

    /// The biased exponent.
    pub open spec fn exponent(self) -> nat {
        (self.bits as nat / HIDDEN as nat) % 2048
    }

    /// The stored fraction.
    pub open spec fn fraction(self) -> nat {
        self.bits as nat % HIDDEN as nat
    }

    /// Neither an infinity nor a NaN.
    pub open spec fn finite(self) -> bool {
        self.exponent() != 2047
    }

    /// The absolute value of a finite number.
    pub open spec fn magnitude(self) -> Fl {
        if self.exponent() == 0 {
            grown(self.fraction(), -1074)
        } else {
            Fl { m: self.fraction() + HIDDEN as nat, e: self.exponent() - 1075 }
        }
    }

    /// The value moved into the range from `low` to `high`, where `low` is not negative;
    /// `other` where it is not finite.
    pub open spec fn clamped(self, low: Fl, high: Fl, other: Fl) -> Fl {
        if !self.finite() {
            other
        } else if self.negative() {
            low
        } else {
            fl_clamp(self.magnitude(), low, high)
        }
    }
}

/// The number `m * 2^e` of the model.
pub struct Fl {
    pub m: nat,
    pub e: int,
}

/// The number `m * 2^e`.
#[derive(Clone, Copy, Debug)]
pub struct Double {
    pub m: u64,
    pub e: i64,
}

impl View for Double {
    type V = Fl;

    open spec fn view(&self) -> Fl {
        Fl { m: self.m as nat, e: self.e as int }
    }
}

/// The integer nearest to `n / d`, ties to the even one.
pub open spec fn half_even(n: nat, d: nat) -> nat {
    let q = n / d;
    let r = n % d;
    if 2 * r > d || (2 * r == d && q % 2 == 1) {
        q + 1
    } else {
        q
    }
}

/// `m * 2^e`, where `m` may have been rounded up to 2^53.
pub open spec fn carried(m: nat, e: int) -> Fl {
    if m == LIMIT {
        Fl { m: HIDDEN as nat, e: e + 1 }
    } else {
        Fl { m, e }
    }
}

/// `m * 2^e` with its significand doubled until it has 53 bits.
pub open spec fn grown(m: nat, e: int) -> Fl
    decreases LIMIT - m,
{
    if m == 0 {
        Fl { m: 0, e: 0 }
    } else if m < HIDDEN {
        grown(2 * m, e - 1)
    } else {
        Fl { m, e }
    }
}

/// How many binary digits `n` has beyond the 53 that fit.
pub open spec fn excess(n: nat) -> nat
    decreases n,
{
    if n < LIMIT {
        0
    } else {
        excess(n / 2) + 1
    }
}

/// The number nearest to `n * 2^e`.
pub open spec fn nearest(n: nat, e: int) -> Fl {
    if n < LIMIT {
        grown(n, e)
    } else {
        carried(half_even(n, pow2(excess(n))), e + excess(n))
    }
}

/// The product, rounded.
pub open spec fn fl_mul(a: Fl, b: Fl) -> Fl {
    nearest(a.m * b.m, a.e + b.e)
}

/// The quotient, rounded.
pub open spec fn fl_div(a: Fl, b: Fl) -> Fl {
    if a.m == 0 {
        Fl { m: 0, e: 0 }
    } else if a.m >= b.m {
        carried(half_even(a.m * HIDDEN as nat, b.m), a.e - b.e - 52)
    } else {
        carried(half_even(a.m * LIMIT as nat, b.m), a.e - b.e - 53)
    }
}

/// The sum, rounded.
pub open spec fn fl_add(a: Fl, b: Fl) -> Fl {
    if a.m == 0 {
        b
    } else if b.m == 0 {
        a
    } else if a.e >= b.e {
        nearest(a.m * pow2((a.e - b.e) as nat) + b.m, b.e)
    } else {
        nearest(a.m + b.m * pow2((b.e - a.e) as nat), a.e)
    }
}

/// Whether `a` is at most `b`.
pub open spec fn fl_le(a: Fl, b: Fl) -> bool {
    a.m == 0 || (b.m != 0 && (a.e < b.e || (a.e == b.e && a.m <= b.m)))
}

/// The least integer that is not below the number.
pub open spec fn fl_ceil(a: Fl) -> nat {
    if a.e >= 0 {
        a.m * pow2(a.e as nat)
    } else {
        ((a.m + pow2((-a.e) as nat) - 1) / pow2((-a.e) as nat) as int) as nat
    }
}

/// The greatest integer that is not above the number.
pub open spec fn fl_floor(a: Fl) -> nat {
    if a.e >= 0 {
        a.m * pow2(a.e as nat)
    } else {
        a.m / pow2((-a.e) as nat)
    }
}

/// `x`, moved into the range from `low` to `high`.
pub open spec fn fl_clamp(x: Fl, low: Fl, high: Fl) -> Fl {
    if !fl_le(low, x) {
        low
    } else if !fl_le(x, high) {
        high
    } else {
        x
    }
}

/// The number nearest to an integer.
pub open spec fn fl_nat(n: nat) -> Fl {
    nearest(n, 0)
}

proof fn lemma_pow2_step(k: nat)
    ensures
        pow2(k + 1) == 2 * pow2(k),
        pow2(k) > 0,
{
    vstd::arithmetic::power2::lemma_pow2_unfold(k + 1);
    vstd::arithmetic::power2::lemma_pow2_pos(k);
}

proof fn lemma_pow2_zero()
    ensures
        pow2(0) == 1,
{
    vstd::arithmetic::power2::lemma2_to64();
}

/// Growing a significand only moves the exponent down, by at most 52.
pub proof fn lemma_grown_bounds(m: nat, e: int)
    requires
        0 < m < LIMIT,
    ensures
        HIDDEN <= grown(m, e).m < LIMIT,
        e - 52 <= grown(m, e).e <= e,
{
    lemma_pow2_zero();
    lemma_grown_steps(m, e, 52, 1);
}

proof fn lemma_grown_steps(m: nat, e: int, k: nat, p: nat)
    requires
        0 < m < LIMIT,
        k <= 52,
        p == pow2((52 - k) as nat),
        p <= m,
    ensures
        HIDDEN <= grown(m, e).m < LIMIT,
        e - k <= grown(m, e).e <= e,
    decreases k,
{
    vstd::arithmetic::power2::lemma2_to64();
    vstd::arithmetic::power2::lemma2_to64_rest();
    if m < HIDDEN {
        if k == 0 {
            assert(pow2(52) == HIDDEN);
        } else {
            lemma_pow2_step((52 - k) as nat);
            lemma_grown_steps(2 * m, e - 1, (k - 1) as nat, 2 * p);
        }
    }
}

proof fn lemma_excess_upper(n: nat, k: nat)
    requires
        n < LIMIT * pow2(k),
    ensures
        excess(n) <= k,
    decreases k,
{
    if n >= LIMIT {
        lemma_pow2_zero();
        if k > 0 {
            lemma_pow2_step((k - 1) as nat);
            lemma_excess_upper(n / 2, (k - 1) as nat);
        }
    }
}

proof fn lemma_excess_lower(n: nat, k: nat)
    requires
        n >= LIMIT * pow2(k),
    ensures
        excess(n) >= k + 1,
    decreases k,
{
    lemma_pow2_zero();
    vstd::arithmetic::power2::lemma_pow2_pos(k);
    let p = pow2(k) as int;
    assert(LIMIT * p >= LIMIT) by (nonlinear_arith)
        requires
            p >= 1,
    ;
    if k > 0 {
        lemma_pow2_step((k - 1) as nat);
        lemma_excess_lower(n / 2, (k - 1) as nat);
    }
}

/// A product of two significands has 52 or 53 binary digits too many.
proof fn lemma_excess_product(a: nat, b: nat)
    requires
        a == 0 || HIDDEN <= a < LIMIT,
        b == 0 || HIDDEN <= b < LIMIT,
    ensures
        a != 0 && b != 0 ==> 52 <= excess(a * b) <= 53 && a * b >= LIMIT,
{
    if a != 0 && b != 0 {
        vstd::arithmetic::power2::lemma2_to64();
        vstd::arithmetic::power2::lemma2_to64_rest();
        assert(HIDDEN * HIDDEN <= a * b < LIMIT * LIMIT) by (nonlinear_arith)
            requires
                HIDDEN <= a < LIMIT,
                HIDDEN <= b < LIMIT,
        ;
        lemma_excess_upper(a * b, 53);
        lemma_excess_lower(a * b, 51);
    }
}

/// Two to the power `k`.
fn power(k: u32) -> (r: u128)
    requires
        k <= 120,
    ensures
        r == pow2(k as nat),
{
    let mut r: u128 = 1;
    let mut i: u32 = 0;
    proof {
        lemma_pow2_zero();
        vstd::arithmetic::power2::lemma2_to64();
        vstd::arithmetic::power2::lemma2_to64_rest();
        vstd::arithmetic::power2::lemma_pow2_adds(60, 60);
    }
    while i < k
        invariant
            i <= k <= 120,
            r == pow2(i as nat),
            pow2(120) < 0x200_0000_0000_0000_0000_0000_0000_0000,
        decreases k - i,
    {
        proof {
            lemma_pow2_step(i as nat);
            if i + 1 < 120 {
                vstd::arithmetic::power2::lemma_pow2_strictly_increases((i + 1) as nat, 120);
            }
        }
        r = r * 2;
        i = i + 1;
    }
    r
}

/// Rounds `n * 2^e` to the nearest number.
fn nearest_exec(n: u128, e: i64) -> (r: Double)
    requires
        -3000 <= e <= 3000,
    ensures
        r@ == nearest(n as nat, e as int),
        r.m == 0 || HIDDEN <= r.m < LIMIT,
        r.m == 0 <==> n == 0,
        r.m == 0 ==> r.e == 0,
        r.m != 0 ==> e - 52 <= r.e <= e + 76,
{
    if n == 0 {
        return Double { m: 0, e: 0 };
    }
    if n < LIMIT as u128 {
        let mut m: u64 = n as u64;
        let mut x: i64 = e;
        proof {
            lemma_grown_bounds(n as nat, e as int);
        }
        while m < HIDDEN
            invariant
                0 < m < LIMIT,
                -3052 <= x <= e <= 3000,
                grown(m as nat, x as int) == grown(n as nat, e as int),
                e - 52 <= grown(n as nat, e as int).e,
                -3000 <= e,
            decreases LIMIT - m,
        {
            proof {
                lemma_grown_bounds(2 * m as nat, x - 1);
            }
            m = m * 2;
            x = x - 1;
        }
        return Double { m, e: x };
    }
    let mut t: u128 = n;
    let mut s: u32 = 0;
    proof {
        lemma_pow2_zero();
    }
    while t >= LIMIT as u128
        invariant
            s <= 75,
            t == n as nat / pow2(s as nat),
            excess(n as nat) == s + excess(t as nat),
            t * pow2(s as nat) <= n,
            n >= LIMIT,
            s > 0 ==> t >= HIDDEN,
        decreases t,
    {
        proof {
            lemma_pow2_step(s as nat);
            vstd::arithmetic::div_mod::lemma_div_denominator(n as int, pow2(s as nat) as int, 2);
            vstd::arithmetic::mul::lemma_mul_is_commutative(pow2(s as nat) as int, 2);
            let p = pow2(s as nat) as int;
            assert((t / 2) * (2 * p) <= t * p) by (nonlinear_arith)
                requires
                    p > 0,
                    t >= 0,
            ;
            if s == 75 {
                vstd::arithmetic::power2::lemma2_to64();
                vstd::arithmetic::power2::lemma2_to64_rest();
                vstd::arithmetic::power2::lemma_pow2_adds(60, 15);
                assert(t * p >= LIMIT * p) by (nonlinear_arith)
                    requires
                        p > 0,
                        t >= LIMIT,
                ;
            }
        }
        t = t / 2;
        s = s + 1;
    }
    proof {
        vstd::arithmetic::power2::lemma_pow2_pos(s as nat);
        vstd::arithmetic::div_mod::lemma_fundamental_div_mod(n as int, pow2(s as nat) as int);
    }
    let u: u128 = power(s);
    let q: u128 = n / u;
    let r: u128 = n % u;
    let m: u128 = if r > u - r || (r == u - r && q % 2 == 1) {
        q + 1
    } else {
        q
    };
    if m == LIMIT as u128 {
        Double { m: HIDDEN, e: e + s as i64 + 1 }
    } else {
        Double { m: m as u64, e: e + s as i64 }
    }
}

impl Double {
    /// A significand of 53 bits, or zero, and a moderate exponent.
    pub open spec fn wf(self) -> bool {
        &&& self.m == 0 || HIDDEN <= self.m < LIMIT
        &&& -1200 <= self.e <= 1200
    }

    /// The double nearest to an integer.
    pub fn from_u64(n: u64) -> (r: Double)
        ensures
            r@ == fl_nat(n as nat),
            r.wf(),
            r.m == 0 <==> n == 0,
            -52 <= r.e <= 12,
    {
        proof {
            vstd::arithmetic::power2::lemma2_to64();
            lemma_excess_upper(n as nat, 11);
            if 0 < n < LIMIT {
                lemma_grown_bounds(n as nat, 0);
            }
        }
        nearest_exec(n as u128, 0)
    }

    /// The rounded product.
    pub fn mul(self, other: Double) -> (r: Double)
        requires
            self.wf(),
            other.wf(),
        ensures
            r@ == fl_mul(self@, other@),
            r.m == 0 || HIDDEN <= r.m < LIMIT,
            r.m == 0 <==> self.m == 0 || other.m == 0,
            r.m == 0 ==> r.e == 0,
            r.m != 0 ==> self.e + other.e + 52 <= r.e <= self.e + other.e + 54,
    {
        proof {
            lemma_excess_product(self.m as nat, other.m as nat);
            let a = self.m as int;
            let b = other.m as int;
            assert(0 <= a * b < LIMIT * LIMIT) by (nonlinear_arith)
                requires
                    0 <= a < LIMIT,
                    0 <= b < LIMIT,
            ;
            assert(a * b == 0 <==> a == 0 || b == 0) by (nonlinear_arith);
        }
        nearest_exec((self.m as u128) * (other.m as u128), self.e + other.e)
    }

    /// The rounded quotient.
    pub fn div(self, other: Double) -> (r: Double)
        requires
            self.wf(),
            other.wf(),
            other.m != 0,
        ensures
            r@ == fl_div(self@, other@),
            r.m == 0 || HIDDEN <= r.m < LIMIT,
            r.m == 0 <==> self.m == 0,
            r.m == 0 ==> r.e == 0,
            r.m != 0 ==> self.e - other.e - 53 <= r.e <= self.e - other.e - 51,
    {
        if self.m == 0 {
            return Double { m: 0, e: 0 };
        }
        let wide: bool = self.m >= other.m;
        proof {
            let a = self.m as int;
            assert(0 <= a * HIDDEN <= a * LIMIT < LIMIT * LIMIT) by (nonlinear_arith)
                requires
                    0 <= a < LIMIT,
                    HIDDEN <= LIMIT,
            ;
        }
        let n: u128 = if wide {
            (self.m as u128) * (HIDDEN as u128)
        } else {
            (self.m as u128) * (LIMIT as u128)
        };
        let d: u128 = other.m as u128;
        let q: u128 = n / d;
        let r: u128 = n % d;
        let e: i64 = if wide {
            self.e - other.e - 52
        } else {
            self.e - other.e - 53
        };
        proof {
            let a = self.m as int;
            let b = other.m as int;
            vstd::arithmetic::div_mod::lemma_fundamental_div_mod(n as int, b);
            let qq = q as int;
            let rr = r as int;
            if wide {
                assert(qq >= HIDDEN) by (nonlinear_arith)
                    requires
                        a * HIDDEN == b * qq + rr,
                        0 <= rr < b,
                        a >= b,
                ;
                assert(qq < LIMIT) by (nonlinear_arith)
                    requires
                        a * HIDDEN == b * qq + rr,
                        0 <= rr < b,
                        a < LIMIT,
                        b >= HIDDEN,
                        LIMIT == 2 * HIDDEN,
                ;
            } else {
                assert(qq >= HIDDEN) by (nonlinear_arith)
                    requires
                        a * LIMIT == b * qq + rr,
                        0 <= rr < b,
                        a >= HIDDEN,
                        b < LIMIT,
                        LIMIT == 2 * HIDDEN,
                ;
                assert(qq < LIMIT) by (nonlinear_arith)
                    requires
                        a * LIMIT == b * qq + rr,
                        0 <= rr < b,
                        a < b,
                ;
            }
        }
        let m: u128 = if r > d - r || (r == d - r && q % 2 == 1) {
            q + 1
        } else {
            q
        };
        if m == LIMIT as u128 {
            Double { m: HIDDEN, e: e + 1 }
        } else {
            Double { m: m as u64, e }
        }
    }

    /// The rounded sum of two numbers of comparable size.
    pub fn add(self, other: Double) -> (r: Double)
        requires
            self.wf(),
            other.wf(),
            self.m != 0 && other.m != 0 ==> -70 <= self.e - other.e <= 70,
        ensures
            r@ == fl_add(self@, other@),
            r.m == 0 || HIDDEN <= r.m < LIMIT,
            r.m == 0 <==> self.m == 0 && other.m == 0,
            self.e - 52 <= r.e <= self.e + 146 || other.e - 52 <= r.e <= other.e + 146,
    {
        if self.m == 0 {
            return other;
        }
        if other.m == 0 {
            return self;
        }
        let high: Double = if self.e >= other.e {
            self
        } else {
            other
        };
        let low: Double = if self.e >= other.e {
            other
        } else {
            self
        };
        let p: u128 = power((high.e - low.e) as u32);
        proof {
            vstd::arithmetic::power2::lemma2_to64();
            vstd::arithmetic::power2::lemma2_to64_rest();
            vstd::arithmetic::power2::lemma_pow2_adds(60, 10);
            assert(pow2(70) == 0x40_0000_0000_0000_0000);
            let k = (high.e - low.e) as nat;
            vstd::arithmetic::power2::lemma_pow2_pos(k);
            if k < 70 {
                vstd::arithmetic::power2::lemma_pow2_strictly_increases(k, 70);
            }
            let h = high.m as int;
            let pp = p as int;
            assert(0 < h * pp <= LIMIT * 0x40_0000_0000_0000_0000) by (nonlinear_arith)
                requires
                    0 < h < LIMIT,
                    0 < pp <= 0x40_0000_0000_0000_0000,
            ;
        }
        nearest_exec((high.m as u128) * p + low.m as u128, low.e)
    }

    /// Whether this number is at most the other.
    pub fn le(self, other: Double) -> (r: bool)
        ensures
            r == fl_le(self@, other@),
    {
        self.m == 0 || (other.m != 0 && (self.e < other.e || (self.e == other.e && self.m
            <= other.m)))
    }

    /// The least integer not below the number, or the greatest `u64`.
    pub fn ceil(self) -> (r: u64)
        requires
            self.wf(),
        ensures
            r == if fl_ceil(self@) <= u64::MAX {
                fl_ceil(self@) as int
            } else {
                u64::MAX as int
            },
    {
        if self.m == 0 {
            proof {
                let k = if self.e >= 0 {
                    self.e as nat
                } else {
                    (-self.e) as nat
                };
                vstd::arithmetic::power2::lemma_pow2_pos(k);
                assert(0 * pow2(k) == 0);
                let p = pow2(k) as int;
                assert((p - 1) / p == 0) by (nonlinear_arith)
                    requires
                        p > 0,
                ;
            }
            return 0;
        }
        if self.e >= 0 {
            return self.scaled_up();
        }
        let k: i64 = -self.e;
        if k > 116 {
            proof {
                lemma_pow2_big(k as nat);
                let p = pow2(k as nat) as int;
                let m = self.m as int;
                assert((m + p - 1) / p == 1) by (nonlinear_arith)
                    requires
                        1 <= m <= p,
                ;
            }
            return 1;
        }
        let p: u128 = power(k as u32);
        proof {
            lemma_pow2_small(k as nat);
            vstd::arithmetic::power2::lemma_pow2_pos(k as nat);
            let x = self.m + p - 1;
            let pp = p as int;
            assert(x / pp <= self.m) by (nonlinear_arith)
                requires
                    x == self.m + pp - 1,
                    pp >= 1,
                    self.m >= 1,
            ;
        }
        ((self.m as u128 + p - 1) / p) as u64
    }

    /// The greatest integer not above the number, or the greatest `u64`.
    pub fn floor(self) -> (r: u64)
        requires
            self.wf(),
        ensures
            r == if fl_floor(self@) <= u64::MAX {
                fl_floor(self@) as int
            } else {
                u64::MAX as int
            },
    {
        if self.m == 0 {
            proof {
                let k = if self.e >= 0 {
                    self.e as nat
                } else {
                    (-self.e) as nat
                };
                vstd::arithmetic::power2::lemma_pow2_pos(k);
                assert(0 * pow2(k) == 0);
                vstd::arithmetic::div_mod::lemma_div_of0(pow2(k) as int);
            }
            return 0;
        }
        if self.e >= 0 {
            return self.scaled_up();
        }
        let k: i64 = -self.e;
        if k > 116 {
            proof {
                lemma_pow2_big(k as nat);
                vstd::arithmetic::div_mod::lemma_basic_div(self.m as int, pow2(k as nat) as int);
            }
            return 0;
        }
        let p: u128 = power(k as u32);
        proof {
            vstd::arithmetic::power2::lemma_pow2_pos(k as nat);
            let m = self.m as int;
            let pp = p as int;
            assert(m / pp <= m) by (nonlinear_arith)
                requires
                    pp >= 1,
                    m >= 0,
            ;
        }
        (self.m as u128 / p) as u64
    }

    /// The integer that a number with a non-negative exponent is, or the greatest `u64`.
    fn scaled_up(self) -> (r: u64)
        requires
            self.wf(),
            self.m != 0,
            self.e >= 0,
        ensures
            r == if self.m * pow2(self.e as nat) <= u64::MAX {
                self.m * pow2(self.e as nat)
            } else {
                u64::MAX as int
            },
    {
        proof {
            vstd::arithmetic::power2::lemma2_to64();
        }
        if self.e > 11 {
            proof {
                if self.e > 12 {
                    vstd::arithmetic::power2::lemma_pow2_strictly_increases(12, self.e as nat);
                }
                let m = self.m as int;
                let p = pow2(self.e as nat) as int;
                assert(m * p >= HIDDEN * 4096) by (nonlinear_arith)
                    requires
                        m >= HIDDEN,
                        p >= 4096,
                ;
            }
            return u64::MAX;
        }
        let p: u128 = power(self.e as u32);
        proof {
            if self.e < 11 {
                vstd::arithmetic::power2::lemma_pow2_strictly_increases(self.e as nat, 11);
            }
            let m = self.m as int;
            let pp = p as int;
            assert(m * pp <= LIMIT * 2048) by (nonlinear_arith)
                requires
                    0 <= m < LIMIT,
                    0 <= pp <= 2048,
            ;
        }
        let v: u128 = self.m as u128 * p;
        if v <= u64::MAX as u128 {
            v as u64
        } else {
            u64::MAX
        }
    }

    /// The number moved into a range.
    pub fn clamp(self, low: Double, high: Double) -> (r: Double)
        ensures
            r@ == fl_clamp(self@, low@, high@),
            r == self || r == low || r == high,
    {
        if !low.le(self) {
            low
        } else if !self.le(high) {
            high
        } else {
            self
        }
    }

    /// The bit pattern of a number of ordinary size.
    pub fn to_real(self) -> (r: Real)
        requires
            HIDDEN <= self.m < LIMIT,
            -1000 <= self.e <= 900,
        ensures
            r.finite(),
            !r.negative(),
            r.magnitude() == self@,
    {
        let x: u64 = (self.e + 1075) as u64;
        let bits: u64 = x * HIDDEN + (self.m - HIDDEN);
        proof {
            let f = (self.m - HIDDEN) as int;
            vstd::arithmetic::div_mod::lemma_fundamental_div_mod_converse(
                bits as int,
                HIDDEN as int,
                x as int,
                f,
            );
        }
        Real { bits }
    }
}

impl Real {
    /// The value moved into the range from `low` to `high`; `other` where it is not finite.
    pub fn clamp(self, low: Double, high: Double, other: Double) -> (r: Double)
        requires
            low.wf(),
            high.wf(),
            other.wf(),
        ensures
            r@ == self.clamped(low@, high@, other@),
            r.wf(),
    {
        let sign: bool = self.bits >= 0x8000_0000_0000_0000;
        let exponent: u64 = (self.bits / HIDDEN) % 2048;
        let fraction: u64 = self.bits % HIDDEN;
        if exponent == 2047 {
            return other;
        }
        if sign {
            return low;
        }
        let x: Double = if exponent == 0 {
            nearest_exec(fraction as u128, -1074)
        } else {
            Double { m: fraction + HIDDEN, e: exponent as i64 - 1075 }
        };
        x.clamp(low, high)
    }
}

proof fn lemma_pow2_big(k: nat)
    requires
        k > 116,
    ensures
        pow2(k) >= LIMIT,
{
    vstd::arithmetic::power2::lemma2_to64();
    vstd::arithmetic::power2::lemma_pow2_strictly_increases(64, k);
}

proof fn lemma_pow2_small(k: nat)
    requires
        k <= 116,
    ensures
        pow2(k) <= 0x10_0000_0000_0000_0000_0000_0000_0000,
{
    vstd::arithmetic::power2::lemma2_to64();
    vstd::arithmetic::power2::lemma2_to64_rest();
    vstd::arithmetic::power2::lemma_pow2_adds(64, 52);
    assert(pow2(116) == 0x10_0000_0000_0000_0000_0000_0000_0000);
    if k < 116 {
        vstd::arithmetic::power2::lemma_pow2_strictly_increases(k, 116);
    }
}

} // verus!
