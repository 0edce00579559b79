//! Decimal fixed-point numbers: a value is a whole count of units of 1e-18.
//!
//! Every operation is exact on the integers and then rounds once, toward
//! negative infinity, to the 1e-18 grid, and saturates at `±LIMIT` raw units
//! (magnitude 1e18), so no operation can overflow or panic.
use vstd::arithmetic::div_mod::{
    lemma_div_is_ordered, lemma_div_multiples_vanish, lemma_div_pos_is_pos,
    lemma_fundamental_div_mod, lemma_fundamental_div_mod_converse_div,
    lemma_hoist_over_denominator,
};
use vstd::prelude::*;

verus! {

/// Raw units in one whole unit.
pub const SCALE: i128 = 1_000_000_000_000_000_000;

/// Largest magnitude, in raw units, that a `Fixed` holds (the value 1e18).
pub const LIMIT: i128 = 1_000_000_000_000_000_000_000_000_000_000_000_000;

/// `v` pulled into `[-LIMIT, LIMIT]`.
pub open spec fn clamp(v: int) -> int {
    if v > LIMIT {
        LIMIT as int
    } else if v < -LIMIT {
        -LIMIT
    } else {
        v
    }
}

pub open spec fn in_range(v: int) -> bool {
    -LIMIT <= v <= LIMIT
}

pub open spec fn add_spec(a: int, b: int) -> int {
    clamp(a + b)
}

pub open spec fn sub_spec(a: int, b: int) -> int {
    clamp(a - b)
}

/// The product of two raw values, rounded down to a whole raw unit.
pub open spec fn mul_spec(a: int, b: int) -> int {
    clamp((a * b) / (SCALE as int))
}

/// The quotient of two raw values (`b != 0`), rounded down to a whole raw unit.
pub open spec fn div_spec(a: int, b: int) -> int {
    if b > 0 {
        clamp((a * SCALE) / b)
    } else {
        clamp((-(a * SCALE)) / (-b))
    }
}

pub open spec fn abs_spec(a: int) -> int {
    if a < 0 {
        -a
    } else {
        a
    }
}

/// `10` to the power `i`.
pub open spec fn pow10(i: nat) -> int
    decreases i,
{
    if i == 0 {
        1
    } else {
        10 * pow10((i - 1) as nat)
    }
}

/// `(x1·t + y1)·(x2·t + y2)` regrouped by powers of `t`.
proof fn lemma_expand(x1: int, y1: int, x2: int, y2: int, t: int)
    ensures
        (x1 * t + y1) * (x2 * t + y2) == y1 * y2 + (x1 * x2 * t + x1 * y2 + y1 * x2) * t,
{
    let (a, b) = (x1 * t, x2 * t + y2);
    assert((a + y1) * b == a * b + y1 * b) by (nonlinear_arith);
    assert(a * b == (x1 * x2 * t) * t + (x1 * y2) * t) by (nonlinear_arith)
        requires
            a == x1 * t,
            b == x2 * t + y2,
    ;
    assert(y1 * b == (y1 * x2) * t + y1 * y2) by (nonlinear_arith)
        requires
            b == x2 * t + y2,
    ;
    let (u, v, w) = (x1 * x2 * t, x1 * y2, y1 * x2);
    assert(u * t + v * t + w * t == (u + v + w) * t) by (nonlinear_arith);
}

proof fn lemma_pow10_scale()
    ensures
        pow10(18) == SCALE,
{
    reveal_with_fuel(pow10, 19);
}

proof fn lemma_pow10_mono(i: nat, j: nat)
    requires
        i <= j,
    ensures
        1 <= pow10(i) <= pow10(j),
    decreases j,
{
    if j == 0 {
    } else if i == j {
        lemma_pow10_mono((j - 1) as nat, (j - 1) as nat);
    } else {
        lemma_pow10_mono(i, (j - 1) as nat);
    }
}

/// A signed decimal with eighteen digits after the point.
#[derive(Clone, Copy, Debug, PartialEq, Eq, Structural)]
pub struct Fixed {
    raw: i128,
}

impl View for Fixed {
    type V = int;

    closed spec fn view(&self) -> int {
        self.raw as int
    }
}

/// Clamps an exact result and wraps it.
fn saturate(v: i128) -> (r: Fixed)
    ensures
        r@ == clamp(v as int),
{
    if v > LIMIT {
        Fixed { raw: LIMIT }
    } else if v < -LIMIT {
        Fixed { raw: -LIMIT }
    } else {
        Fixed { raw: v }
    }
}

/// Splits `v` into whole units and a nonnegative remainder below one unit.
fn split(v: i128) -> (res: (i128, i128))
    requires
        in_range(v as int),
    ensures
        v == res.0 * SCALE + res.1,
        0 <= res.1 < SCALE,
        -SCALE <= res.0 <= SCALE,
{
    let q = match v.checked_div_euclid(SCALE) {
        Some(q) => q,
        None => 0,
    };
    proof {
        lemma_fundamental_div_mod(v as int, SCALE as int);
        lemma_div_is_ordered(-LIMIT, v as int, SCALE as int);
        lemma_div_is_ordered(v as int, LIMIT as int, SCALE as int);
    }
    (q, v - q * SCALE)
}

/// The digits of `rem / d` after the point: `(rem * SCALE) / d`, found by
/// long division so that no intermediate leaves `i128`.
fn fraction_digits(rem: i128, d: i128) -> (f: i128)
    requires
        0 <= rem < d <= LIMIT,
    ensures
        f as int == (rem * SCALE) / (d as int),
        0 <= f < SCALE,
{
    let mut acc: i128 = 0;
    let mut cur: i128 = rem;
    let mut i: usize = 0;
    let ghost mut p: int = 1;
    while i < 18
        invariant
            i <= 18,
            p == pow10(i as nat),
            1 <= p <= SCALE,
            rem * p == acc * d + cur,
            0 <= cur < d,
            0 <= acc < p,
            0 < d <= LIMIT,
        decreases 18 - i,
    {
        let cur10: i128 = cur * 10;
        let digit = match cur10.checked_div_euclid(d) {
            Some(q) => q,
            None => 0,
        };
        proof {
            lemma_fundamental_div_mod(cur10 as int, d as int);
            assert(0 <= digit < 10) by (nonlinear_arith)
                requires
                    cur10 == d * digit + cur10 % d,
                    0 <= cur10 % d < d,
                    0 <= cur10 < 10 * d,
            ;
            assert(digit * d <= cur10) by (nonlinear_arith)
                requires
                    cur10 == d * digit + cur10 % d,
                    0 <= cur10 % d,
            ;
        }
        let next = cur10 - digit * d;
        proof {
            assert(rem * (p * 10) == (acc * 10 + digit) * d + next) by (nonlinear_arith)
                requires
                    rem * p == acc * d + cur,
                    next == cur * 10 - digit * d,
            ;
            assert(acc * 10 + digit < p * 10) by (nonlinear_arith)
                requires
                    0 <= acc < p,
                    0 <= digit < 10,
            ;
            lemma_pow10_mono((i + 1) as nat, 18);
            lemma_pow10_scale();
        }
        acc = acc * 10 + digit;
        cur = next;
        i = i + 1;
        proof {
            p = p * 10;
        }
    }
    proof {
        lemma_pow10_scale();
        lemma_fundamental_div_mod_converse_div(rem * SCALE, d as int, acc as int, cur as int);
    }
    acc
}

impl Fixed {
    #[verifier::type_invariant]
    spec fn inv(self) -> bool {
        in_range(self.raw as int)
    }

    /// Every value lies in `[-LIMIT, LIMIT]`.
    pub fn check_range(&self)
        ensures
            in_range(self@),
    {
        proof {
            use_type_invariant(self);
        }
    }

    pub fn zero() -> (r: Fixed)
        ensures
            r@ == 0,
    {
        Fixed { raw: 0 }
    }

    pub fn one() -> (r: Fixed)
        ensures
            r@ == SCALE,
    {
        Fixed { raw: SCALE }
    }

    /// The value with `raw` units of 1e-18, saturated into range.
    pub fn from_raw(raw: i128) -> (r: Fixed)
        ensures
            r@ == clamp(raw as int),
    {
        saturate(raw)
    }

    /// The whole number `n`, saturated into range.
    pub fn from_int(n: i64) -> (r: Fixed)
        ensures
            r@ == clamp(n * SCALE),
    {
        proof {
            let a = n as int;
            assert(-0x8000_0000_0000_0000 * SCALE <= a * SCALE <= 0x8000_0000_0000_0000 * SCALE)
                by (nonlinear_arith)
                requires
                    -0x8000_0000_0000_0000 <= a < 0x8000_0000_0000_0000,
            ;
        }
        saturate(n as i128 * SCALE)
    }

    /// The count of units of 1e-18.
    pub fn raw(self) -> (r: i128)
        ensures
            r as int == self@,
    {
        self.raw
    }

    pub fn add(self, o: Fixed) -> (r: Fixed)
        ensures
            r@ == add_spec(self@, o@),
    {
        proof {
            use_type_invariant(self);
            use_type_invariant(o);
        }
        saturate(self.raw + o.raw)
    }

    pub fn sub(self, o: Fixed) -> (r: Fixed)
        ensures
            r@ == sub_spec(self@, o@),
    {
        proof {
            use_type_invariant(self);
            use_type_invariant(o);
        }
        saturate(self.raw - o.raw)
    }

    /// The product, taken apart into whole units and remainders so that no
    /// intermediate leaves `i128`.
    pub fn mul(self, o: Fixed) -> (r: Fixed)
        ensures
            r@ == mul_spec(self@, o@),
    {
        proof {
            use_type_invariant(self);
            use_type_invariant(o);
        }
        let (q1, r1) = split(self.raw);
        let (q2, r2) = split(o.raw);
        let ghost (a, b) = (self.raw as int, o.raw as int);
        proof {
            let (q1, r1, q2, r2) = (q1 as int, r1 as int, q2 as int, r2 as int);
            let s = SCALE as int;
            assert(-s * s <= q1 * q2 <= s * s && -s * s <= q1 * r2 <= s * s && -s * s <= r1 * q2
                <= s * s && 0 <= r1 * r2 < s * s) by (nonlinear_arith)
                requires
                    -s <= q1 <= s,
                    -s <= q2 <= s,
                    0 <= r1 < s,
                    0 <= r2 < s,
            ;
            let k = q1 * q2 * s + q1 * r2 + r1 * q2;
            lemma_expand(q1, r1, q2, r2, s);
            lemma_hoist_over_denominator(r1 * r2, k, s as nat);
            lemma_div_pos_is_pos(r1 * r2, s);
            lemma_div_is_ordered(r1 * r2, s * s, s);
            lemma_div_multiples_vanish(s, s);
            assert(q1 * q2 * s == (q1 * q2) * s) by (nonlinear_arith);
        }
        let hi = q1 * q2;
        if hi > 10 * SCALE {
            return Fixed { raw: LIMIT };
        }
        if hi < -10 * SCALE {
            return Fixed { raw: -LIMIT };
        }
        let low = match (r1 * r2).checked_div_euclid(SCALE) {
            Some(w) => w,
            None => 0,
        };
        saturate(hi * SCALE + q1 * r2 + r1 * q2 + low)
    }

    /// Division by a nonzero value.
    pub fn div(self, o: Fixed) -> (r: Fixed)
        requires
            o@ != 0,
        ensures
            r@ == div_spec(self@, o@),
    {
        proof {
            use_type_invariant(self);
            use_type_invariant(o);
        }
        let (n, d) = if o.raw > 0 {
            (self.raw, o.raw)
        } else {
            (-self.raw, -o.raw)
        };
        proof {
            let (n, d) = (n as int, d as int);
            lemma_fundamental_div_mod(n, d);
            let t = n / d;
            assert((n >= 0 ==> 0 <= t <= n) && (n < 0 ==> n <= t < 0)) by (nonlinear_arith)
                requires
                    n == d * t + n % d,
                    0 <= n % d < d,
                    d >= 1,
            ;
        }
        let q = match n.checked_div_euclid(d) {
            Some(q) => q,
            None => 0,
        };
        proof {
            lemma_fundamental_div_mod(n as int, d as int);
            assert(n - d < q * d <= n) by (nonlinear_arith)
                requires
                    n == d * q + n % d,
                    0 <= n % d < d,
            ;
        }
        let rem = n - q * d;
        let f = fraction_digits(rem, d);
        proof {
            let s = SCALE as int;
            let (n, d, q, rem, f) = (n as int, d as int, q as int, rem as int, f as int);
            lemma_fundamental_div_mod(rem * s, d);
            let rem2 = (rem * s) % d;
            assert(n * s == (q * s + f) * d + rem2) by (nonlinear_arith)
                requires
                    n == q * d + rem,
                    rem * s == d * f + rem2,
            ;
            lemma_fundamental_div_mod_converse_div(n * s, d, q * s + f, rem2);
            assert(q > s ==> q * s + f > LIMIT) by (nonlinear_arith)
                requires
                    0 <= f,
                    s == SCALE,
            ;
            assert(q < -s ==> q * s + f < -LIMIT) by (nonlinear_arith)
                requires
                    f < s,
                    s == SCALE,
            ;
            assert(-(self@ * s) == (-self@) * s) by (nonlinear_arith);
        }
        if q > SCALE {
            return Fixed { raw: LIMIT };
        }
        if q < -SCALE {
            return Fixed { raw: -LIMIT };
        }
        saturate(q * SCALE + f)
    }

    pub fn abs(self) -> (r: Fixed)
        ensures
            r@ == abs_spec(self@),
    {
        proof {
            use_type_invariant(self);
        }
        if self.raw < 0 {
            Fixed { raw: -self.raw }
        } else {
            self
        }
    }
}

/// Multiplying by one changes nothing.
pub proof fn lemma_mul_one(v: int)
    requires
        in_range(v),
    ensures
        mul_spec(SCALE as int, v) == v,
        mul_spec(v, SCALE as int) == v,
{
    lemma_div_multiples_vanish(v, SCALE as int);
}

/// Multiplying by a factor in `[0, 1]` moves a value toward zero and keeps
/// its sign.
pub proof fn lemma_mul_fraction(k: int, v: int)
    requires
        0 <= k <= SCALE,
        in_range(v),
    ensures
        v >= 0 ==> 0 <= mul_spec(k, v) <= v,
        v < 0 ==> v <= mul_spec(k, v) <= 0,
{
    let d = SCALE as int;
    lemma_div_multiples_vanish(v, d);
    if v >= 0 {
        assert(0 <= k * v <= d * v) by (nonlinear_arith)
            requires
                0 <= k <= d,
                v >= 0,
        ;
        lemma_div_is_ordered(0, k * v, d);
        lemma_div_is_ordered(k * v, d * v, d);
    } else {
        assert(d * v <= k * v <= 0) by (nonlinear_arith)
            requires
                0 <= k <= d,
                v < 0,
        ;
        lemma_div_is_ordered(d * v, k * v, d);
        lemma_div_is_ordered(k * v, 0, d);
    }
}

/// `v / s` lies in `[0, 1]` when `0 <= v <= s`.
pub proof fn lemma_div_fraction(v: int, s: int)
    requires
        0 <= v <= s,
        0 < s,
    ensures
        0 <= div_spec(v, s) <= SCALE,
{
    let d = SCALE as int;
    lemma_div_pos_is_pos(v * d, s);
    lemma_div_is_ordered(v * d, s * d, s);
    lemma_div_multiples_vanish(d, s);
    assert(s * d == d * s) by (nonlinear_arith);
}

} // verus!
