//! Decimal fixed-point numbers.
//!
//! A [`Scalar`] stands for the rational number `raw / SCALE`. Every operation
//! is total: a result that does not fit is clamped to `[-LIMIT, LIMIT]`, and
//! products and quotients are rounded toward zero. The range is symmetric, so
//! negating the result of any operation is exact.

use vstd::prelude::*;
use std::ops::{Add, Div, Mul, Neg, Sub};

verus! {

/// Number of raw units in the value one.
pub const SCALE: i64 = 1_000_000_000;

/// Largest magnitude, in raw units, that an operation returns.
pub const LIMIT: i64 = 9_223_372_036_854_775_807;

/// The nearest value to `x` within `[-LIMIT, LIMIT]`.
pub open spec fn clamp_raw(x: int) -> int {
    if x < -LIMIT {
        -LIMIT
    } else if x > LIMIT {
        LIMIT as int
    } else {
        x
    }
}

/// Quotient of `n` by a positive `d`, rounded toward zero.
pub open spec fn trunc_div(n: int, d: int) -> int
    recommends
        d > 0,
{
    if n >= 0 {
        n / d
    } else {
        -((-n) / d)
    }
}

/// Raw product of two raw values.
pub open spec fn mul_raw(a: int, b: int) -> int {
    clamp_raw(trunc_div(a * b, SCALE as int))
}

/// Raw quotient of two raw values. A quotient by zero is the limit with the
/// sign of the numerator, and zero for a zero numerator.
pub open spec fn div_raw(a: int, b: int) -> int {
    if b > 0 {
        clamp_raw(trunc_div(a * SCALE, b))
    } else if b < 0 {
        clamp_raw(trunc_div(-(a * SCALE), -b))
    } else if a > 0 {
        LIMIT as int
    } else if a < 0 {
        -LIMIT
    } else {
        0
    }
}

/// `r` is the integer square root of `n`, rounded down.
pub open spec fn is_floor_sqrt(n: int, r: int) -> bool {
    0 <= r && r * r <= n < (r + 1) * (r + 1)
}

/// The integer square root of `n`, rounded down (for `n >= 0`).
pub open spec fn floor_sqrt(n: int) -> int {
    choose|r: int| is_floor_sqrt(n, r)
}

/// Raw square root of a raw value; zero for a negative argument.
pub open spec fn sqrt_raw(a: int) -> int {
    if a <= 0 {
        0
    } else {
        floor_sqrt(a * SCALE)
    }
}

/// Raw `n`-th power of a raw value, multiplying from the left.
pub open spec fn powi_raw(a: int, n: nat) -> int
    decreases n,
{
    if n == 0 {
        SCALE as int
    } else {
        mul_raw(powi_raw(a, (n - 1) as nat), a)
    }
}

/// At most one number is the rounded-down square root of `n`.
pub proof fn lemma_floor_sqrt_unique(n: int, r1: int, r2: int)
    requires
        is_floor_sqrt(n, r1),
        is_floor_sqrt(n, r2),
    ensures
        r1 == r2,
{
    if r1 < r2 {
        assert((r1 + 1) * (r1 + 1) <= r2 * r2) by (nonlinear_arith)
            requires
                0 <= r1,
                r1 + 1 <= r2,
        ;
    } else if r2 < r1 {
        assert((r2 + 1) * (r2 + 1) <= r1 * r1) by (nonlinear_arith)
            requires
                0 <= r2,
                r2 + 1 <= r1,
        ;
    }
}

/// A witness of `is_floor_sqrt` is the value of `floor_sqrt`.
pub proof fn lemma_floor_sqrt_is(n: int, r: int)
    requires
        is_floor_sqrt(n, r),
    ensures
        floor_sqrt(n) == r,
{
    lemma_floor_sqrt_unique(n, floor_sqrt(n), r);
}

/// The product of two 64-bit values fits in 128 bits.
pub proof fn lemma_product_fits(a: int, b: int)
    requires
        -0x8000_0000_0000_0000 <= a <= 0x8000_0000_0000_0000,
        -0x8000_0000_0000_0000 <= b <= 0x8000_0000_0000_0000,
    ensures
        -0x4000_0000_0000_0000_0000_0000_0000_0000 <= a * b
            <= 0x4000_0000_0000_0000_0000_0000_0000_0000,
{
    assert(-0x4000_0000_0000_0000_0000_0000_0000_0000 <= a * b
        <= 0x4000_0000_0000_0000_0000_0000_0000_0000) by (nonlinear_arith)
        requires
            -0x8000_0000_0000_0000 <= a <= 0x8000_0000_0000_0000,
            -0x8000_0000_0000_0000 <= b <= 0x8000_0000_0000_0000,
    ;
}

fn clamp_wide(x: i128) -> (r: i64)
    ensures
        r == clamp_raw(x as int),
{
    if x < -(LIMIT as i128) {
        -LIMIT
    } else if x > LIMIT as i128 {
        LIMIT
    } else {
        x as i64
    }
}

/// Integer square root of `n`, rounded down, by bisection.
fn floor_sqrt_wide(n: u128) -> (r: u128)
    requires
        n < 0x4000_0000_0000_0000_0000_0000,
    ensures
        r == floor_sqrt(n as int),
        is_floor_sqrt(n as int, r as int),
        r < 0x8000_0000_0000,
{
    let mut lo: u128 = 0;
    let mut hi: u128 = 0x8000_0000_0000;
    while hi - lo > 1
        invariant
            lo < hi <= 0x8000_0000_0000,
            lo * lo <= n < hi * hi,
        decreases hi - lo,
    {
        let mid: u128 = lo + (hi - lo) / 2;
        assert(mid * mid < 0x4000_0000_0000_0000_0000_0000) by (nonlinear_arith)
            requires
                mid < 0x8000_0000_0000,
        ;
        if mid * mid <= n {
            lo = mid;
        } else {
            hi = mid;
        }
    }
    proof {
        lemma_floor_sqrt_is(n as int, lo as int);
    }
    lo
}

/// A fixed-point number: the rational `raw / SCALE`.
#[derive(Clone, Copy, Debug, PartialEq, Eq, Structural)]
pub struct Scalar {
    pub raw: i64,
}

impl Scalar {
    pub open spec fn spec_from_raw(raw: i64) -> Scalar {
        Scalar { raw }
    }

    /// The number `raw / SCALE`.
    #[verifier::when_used_as_spec(spec_from_raw)]
    pub fn from_raw(raw: i64) -> (r: Scalar)
        ensures
            r == Scalar::spec_from_raw(raw),
    {
        Scalar { raw }
    }

    pub open spec fn spec_from_int(n: i64) -> Scalar {
        Scalar { raw: clamp_raw(n * SCALE) as i64 }
    }

    /// The whole number `n`, clamped to the representable range.
    #[verifier::when_used_as_spec(spec_from_int)]
    pub fn from_int(n: i64) -> (r: Scalar)
        ensures
            r == Scalar::spec_from_int(n),
    {
        proof {
            lemma_product_fits(n as int, SCALE as int);
        }
        Scalar { raw: clamp_wide(n as i128 * SCALE as i128) }
    }

    /// The number zero.
    pub open spec fn spec_zero() -> Scalar {
        Scalar { raw: 0 }
    }

    /// The number zero.
    #[verifier::when_used_as_spec(spec_zero)]
    pub fn zero() -> (r: Scalar)
        ensures
            r == Scalar::spec_zero(),
    {
        Scalar { raw: 0 }
    }

    /// The number one.
    pub open spec fn spec_one() -> Scalar {
        Scalar { raw: SCALE }
    }

    /// The number one.
    #[verifier::when_used_as_spec(spec_one)]
    pub fn one() -> (r: Scalar)
        ensures
            r == Scalar::spec_one(),
    {
        Scalar { raw: SCALE }
    }

    /// Sum, clamped.
    pub open spec fn plus(self, rhs: Scalar) -> Scalar {
        Scalar { raw: clamp_raw(self.raw + rhs.raw) as i64 }
    }

    /// Difference, clamped.
    pub open spec fn minus(self, rhs: Scalar) -> Scalar {
        Scalar { raw: clamp_raw(self.raw - rhs.raw) as i64 }
    }

    /// Opposite, clamped.
    pub open spec fn negated(self) -> Scalar {
        Scalar { raw: clamp_raw(-self.raw) as i64 }
    }

    /// Product, rounded toward zero and clamped.
    pub open spec fn times(self, rhs: Scalar) -> Scalar {
        Scalar { raw: mul_raw(self.raw as int, rhs.raw as int) as i64 }
    }

    /// Quotient, rounded toward zero and clamped.
    pub open spec fn over(self, rhs: Scalar) -> Scalar {
        Scalar { raw: div_raw(self.raw as int, rhs.raw as int) as i64 }
    }

    /// Whether the value lies in the range that operations return.
    pub open spec fn in_range(self) -> bool {
        -LIMIT <= self.raw
    }

    pub open spec fn spec_trunc(self) -> i64 {
        trunc_div(self.raw as int, SCALE as int) as i64
    }

    /// The whole part of the number, rounded toward zero.
    #[verifier::when_used_as_spec(spec_trunc)]
    pub fn trunc(self) -> (r: i64)
        ensures
            r == self.spec_trunc(),
    {
        self.raw / SCALE
    }

    pub open spec fn spec_abs(self) -> Scalar {
        Scalar { raw: clamp_raw(if self.raw < 0 { -self.raw } else { self.raw as int }) as i64 }
    }

    /// The magnitude of the number.
    #[verifier::when_used_as_spec(spec_abs)]
    pub fn abs(self) -> (r: Scalar)
        ensures
            r == self.spec_abs(),
    {
        if self.raw < 0 {
            Scalar { raw: clamp_wide(-(self.raw as i128)) }
        } else {
            Scalar { raw: clamp_wide(self.raw as i128) }
        }
    }

    pub open spec fn spec_min(self, other: Scalar) -> Scalar {
        if other.raw < self.raw {
            other
        } else {
            self
        }
    }

    /// The smaller of two numbers.
    #[verifier::when_used_as_spec(spec_min)]
    pub fn min(self, other: Scalar) -> (r: Scalar)
        ensures
            r == self.spec_min(other),
    {
        if other.raw < self.raw {
            other
        } else {
            self
        }
    }

    pub open spec fn spec_sqrt(self) -> Scalar {
        Scalar { raw: sqrt_raw(self.raw as int) as i64 }
    }

    /// The square root, rounded down to a raw unit; zero for a negative number.
    #[verifier::when_used_as_spec(spec_sqrt)]
    pub fn sqrt(self) -> (r: Scalar)
        ensures
            r == self.spec_sqrt(),
            0 <= r.raw,
            self.raw > 0 ==> is_floor_sqrt(self.raw * SCALE, r.raw as int),
    {
        if self.raw <= 0 {
            Scalar { raw: 0 }
        } else {
            assert(self.raw * SCALE < 0x4000_0000_0000_0000_0000_0000) by (nonlinear_arith)
                requires
                    0 < self.raw <= 0x7fff_ffff_ffff_ffff,
                    SCALE == 1_000_000_000,
            ;
            let n: u128 = self.raw as u128 * SCALE as u128;
            let root = floor_sqrt_wide(n);
            Scalar { raw: root as i64 }
        }
    }

    pub open spec fn spec_powi(self, n: u32) -> Scalar {
        Scalar { raw: powi_raw(self.raw as int, n as nat) as i64 }
    }

    /// The `n`-th power, multiplying from the left.
    #[verifier::when_used_as_spec(spec_powi)]
    pub fn powi(self, n: u32) -> (r: Scalar)
        ensures
            r == self.spec_powi(n),
    {
        let mut acc = Scalar { raw: SCALE };
        let mut i: u32 = 0;
        while i < n
            invariant
                i <= n,
                acc.raw == powi_raw(self.raw as int, i as nat),
            decreases n - i,
        {
            acc = acc * self;
            i = i + 1;
        }
        acc
    }
}

impl Add for Scalar {
    type Output = Scalar;

    fn add(self, rhs: Scalar) -> (r: Scalar) {
        Scalar { raw: clamp_wide(self.raw as i128 + rhs.raw as i128) }
    }
}

impl vstd::std_specs::ops::AddSpecImpl for Scalar {
    open spec fn obeys_add_spec() -> bool {
        true
    }

    open spec fn add_req(self, rhs: Scalar) -> bool {
        true
    }

    open spec fn add_spec(self, rhs: Scalar) -> Scalar {
        self.plus(rhs)
    }
}

impl Sub for Scalar {
    type Output = Scalar;

    fn sub(self, rhs: Scalar) -> (r: Scalar) {
        Scalar { raw: clamp_wide(self.raw as i128 - rhs.raw as i128) }
    }
}

impl vstd::std_specs::ops::SubSpecImpl for Scalar {
    open spec fn obeys_sub_spec() -> bool {
        true
    }

    open spec fn sub_req(self, rhs: Scalar) -> bool {
        true
    }

    open spec fn sub_spec(self, rhs: Scalar) -> Scalar {
        self.minus(rhs)
    }
}

impl Neg for Scalar {
    type Output = Scalar;

    fn neg(self) -> (r: Scalar) {
        Scalar { raw: clamp_wide(-(self.raw as i128)) }
    }
}

impl vstd::std_specs::ops::NegSpecImpl for Scalar {
    open spec fn obeys_neg_spec() -> bool {
        true
    }

    open spec fn neg_req(self) -> bool {
        true
    }

    open spec fn neg_spec(self) -> Scalar {
        self.negated()
    }
}

impl Mul for Scalar {
    type Output = Scalar;

    fn mul(self, rhs: Scalar) -> (r: Scalar) {
        proof {
            lemma_product_fits(self.raw as int, rhs.raw as int);
        }
        let product: i128 = self.raw as i128 * rhs.raw as i128;
        Scalar { raw: clamp_wide(product / SCALE as i128) }
    }
}

impl vstd::std_specs::ops::MulSpecImpl for Scalar {
    open spec fn obeys_mul_spec() -> bool {
        true
    }

    open spec fn mul_req(self, rhs: Scalar) -> bool {
        true
    }

    open spec fn mul_spec(self, rhs: Scalar) -> Scalar {
        self.times(rhs)
    }
}

impl Div for Scalar {
    type Output = Scalar;

    fn div(self, rhs: Scalar) -> (r: Scalar) {
        proof {
            lemma_product_fits(self.raw as int, SCALE as int);
        }
        let scaled: i128 = self.raw as i128 * SCALE as i128;
        if rhs.raw > 0 {
            Scalar { raw: clamp_wide(scaled / rhs.raw as i128) }
        } else if rhs.raw < 0 {
            Scalar { raw: clamp_wide((-scaled) / -(rhs.raw as i128)) }
        } else if self.raw > 0 {
            Scalar { raw: LIMIT }
        } else if self.raw < 0 {
            Scalar { raw: -LIMIT }
        } else {
            Scalar { raw: 0 }
        }
    }
}

impl vstd::std_specs::ops::DivSpecImpl for Scalar {
    open spec fn obeys_div_spec() -> bool {
        true
    }

    open spec fn div_req(self, rhs: Scalar) -> bool {
        true
    }

    open spec fn div_spec(self, rhs: Scalar) -> Scalar {
        self.over(rhs)
    }
}

/// Rounding toward zero keeps the order of the numerators.
pub proof fn lemma_trunc_div_monotonic(x: int, y: int, d: int)
    requires
        x <= y,
        d > 0,
    ensures
        trunc_div(x, d) <= trunc_div(y, d),
{
    if x >= 0 {
        vstd::arithmetic::div_mod::lemma_div_is_ordered(x, y, d);
    } else if y < 0 {
        vstd::arithmetic::div_mod::lemma_div_is_ordered(-y, -x, d);
    } else {
        vstd::arithmetic::div_mod::lemma_div_pos_is_pos(-x, d);
        vstd::arithmetic::div_mod::lemma_div_pos_is_pos(y, d);
    }
}

/// Rounding toward zero commutes with negation.
pub proof fn lemma_trunc_div_negation(x: int, d: int)
    requires
        d > 0,
    ensures
        trunc_div(-x, d) == -trunc_div(x, d),
{
    if x == 0 {
        assert(0int / d == 0) by {
            vstd::arithmetic::div_mod::lemma_div_basics(d);
        }
    }
}

/// Division by a number that is not negative keeps the order of the
/// numerators.
pub proof fn lemma_over_monotonic(x: Scalar, y: Scalar, a: Scalar)
    requires
        x.raw <= y.raw,
        a.raw >= 0,
    ensures
        x.over(a).raw <= y.over(a).raw,
{
    if a.raw > 0 {
        lemma_trunc_div_monotonic(x.raw * SCALE, y.raw * SCALE, a.raw as int);
    }
}

/// A product with a negated factor is the negated product, for a factor in
/// the range that operations return.
pub proof fn lemma_times_negated(a: Scalar, b: Scalar)
    requires
        b.in_range(),
    ensures
        a.times(b.negated()) == a.times(b).negated(),
{
    assert(a.raw * (-b.raw) == -(a.raw * b.raw)) by (nonlinear_arith);
    lemma_trunc_div_negation(a.raw * b.raw, SCALE as int);
}

/// A sum of two negated numbers is the negated sum, for numbers in the range
/// that operations return.
pub proof fn lemma_plus_negated(a: Scalar, b: Scalar)
    requires
        a.in_range(),
        b.in_range(),
    ensures
        a.negated().plus(b.negated()) == a.plus(b).negated(),
{
}

/// The square root is not negative and fits, and squares back to the
/// argument up to rounding.
pub proof fn lemma_sqrt_bounds(a: Scalar)
    ensures
        0 <= sqrt_raw(a.raw as int) < 0x8000_0000_0000,
        a.spec_sqrt().raw == sqrt_raw(a.raw as int),
        a.raw > 0 ==> is_floor_sqrt(a.raw * SCALE, a.spec_sqrt().raw as int),
{
    if a.raw > 0 {
        let n = a.raw * SCALE;
        assert(0 < n < 0x4000_0000_0000_0000_0000_0000) by (nonlinear_arith)
            requires
                0 < a.raw <= 0x7fff_ffff_ffff_ffff,
                n == a.raw * SCALE,
                SCALE == 1_000_000_000,
        ;
        lemma_floor_sqrt_exists(n);
        let r = floor_sqrt(n);
        assert(r < 0x8000_0000_0000) by (nonlinear_arith)
            requires
                0 <= r,
                r * r <= n,
                n < 0x4000_0000_0000_0000_0000_0000,
        ;
    }
}

/// What an operation returns lies in the symmetric range.
pub proof fn lemma_results_in_range(a: Scalar, b: Scalar)
    ensures
        a.plus(b).in_range(),
        a.minus(b).in_range(),
        a.negated().in_range(),
        a.times(b).in_range(),
        a.over(b).in_range(),
        a.spec_abs().in_range(),
        a.spec_sqrt().in_range(),
{
    lemma_sqrt_bounds(a);
}

/// Every number that is not negative has a rounded-down square root.
pub proof fn lemma_floor_sqrt_exists(n: int)
    requires
        n >= 0,
    ensures
        is_floor_sqrt(n, floor_sqrt(n)),
    decreases n,
{
    if n == 0 {
        assert(is_floor_sqrt(0, 0));
    } else {
        lemma_floor_sqrt_exists(n - 1);
        let r = floor_sqrt(n - 1);
        if (r + 1) * (r + 1) <= n {
            assert((r + 1) * (r + 1) == n);
            assert(n < (r + 2) * (r + 2)) by (nonlinear_arith)
                requires
                    (r + 1) * (r + 1) == n,
                    r >= 0,
            ;
            assert(is_floor_sqrt(n, r + 1));
        } else {
            assert(r * r <= n);
            assert(is_floor_sqrt(n, r));
        }
    }
}

/// A square is not negative.
pub proof fn lemma_square_not_negative(a: Scalar)
    ensures
        a.times(a).raw >= 0,
{
    assert(a.raw * a.raw >= 0) by (nonlinear_arith);
    vstd::arithmetic::div_mod::lemma_div_pos_is_pos(a.raw * a.raw, SCALE as int);
}

/// One is neutral for the product of a number in the range that operations
/// return.
pub proof fn lemma_times_one(a: Scalar)
    requires
        a.in_range(),
    ensures
        a.times(Scalar::one()) == a,
        Scalar::one().times(a) == a,
{
    assert(a.raw * SCALE == SCALE * a.raw) by (nonlinear_arith);
    if a.raw >= 0 {
        vstd::arithmetic::div_mod::lemma_div_multiples_vanish(a.raw as int, SCALE as int);
    } else {
        vstd::arithmetic::div_mod::lemma_div_multiples_vanish(-a.raw, SCALE as int);
        assert(-(a.raw * SCALE) == (-a.raw) * SCALE) by (nonlinear_arith);
    }
}

/// A product with zero is zero.
pub proof fn lemma_times_zero(a: Scalar)
    ensures
        a.times(Scalar::zero()) == Scalar::zero(),
        Scalar::zero().times(a) == Scalar::zero(),
{
    assert(a.raw * 0 == 0 && 0 * a.raw == 0) by (nonlinear_arith);
}

/// The order of the terms of a sum does not matter.
pub proof fn lemma_plus_commutative(a: Scalar, b: Scalar)
    ensures
        a.plus(b) == b.plus(a),
{
}

/// Sums can be taken in any grouping, where neither `a + b` nor `b + c` is
/// clamped.
pub proof fn lemma_plus_associative(a: Scalar, b: Scalar, c: Scalar)
    requires
        -LIMIT <= a.raw + b.raw <= LIMIT,
        -LIMIT <= b.raw + c.raw <= LIMIT,
    ensures
        a.plus(b).plus(c) == a.plus(b.plus(c)),
{
}

/// A number in the range that operations return and its opposite sum to
/// zero.
pub proof fn lemma_plus_inverse(a: Scalar)
    requires
        a.in_range(),
    ensures
        a.plus(a.negated()) == Scalar::zero(),
{
}

/// The product of two numbers of `[0, 1]` lies in `[0, 1]` and is at most
/// either factor.
pub proof fn lemma_times_unit_interval(a: Scalar, b: Scalar)
    requires
        0 <= a.raw <= SCALE,
        0 <= b.raw <= SCALE,
    ensures
        0 <= a.times(b).raw <= a.raw,
        a.times(b).raw <= b.raw,
{
    lemma_times_below(a, b);
    lemma_times_below(b, a);
    assert(a.raw * b.raw == b.raw * a.raw) by (nonlinear_arith);
}

/// The product of a number that is not negative with a number of `[0, 1]` is
/// not negative and at most the first number.
pub proof fn lemma_times_below(a: Scalar, b: Scalar)
    requires
        0 <= a.raw,
        0 <= b.raw <= SCALE,
    ensures
        0 <= a.times(b).raw <= a.raw,
{
    assert(0 <= a.raw * b.raw <= a.raw * SCALE) by (nonlinear_arith)
        requires
            0 <= a.raw,
            0 <= b.raw <= SCALE,
    ;
    lemma_trunc_div_monotonic(a.raw * b.raw, a.raw * SCALE, SCALE as int);
    lemma_trunc_div_monotonic(0, a.raw * b.raw, SCALE as int);
    vstd::arithmetic::div_mod::lemma_div_multiples_vanish(a.raw as int, SCALE as int);
    assert(0int / (SCALE as int) == 0) by {
        vstd::arithmetic::div_mod::lemma_div_basics(SCALE as int);
    }
}

/// A power of a number of `[0, 1]` lies in `[0, 1]`.
pub proof fn lemma_powi_unit_interval(a: Scalar, n: u32)
    requires
        0 <= a.raw <= SCALE,
    ensures
        0 <= a.spec_powi(n).raw <= SCALE,
        a.spec_powi(n).raw == powi_raw(a.raw as int, n as nat),
    decreases n,
{
    if n > 0 {
        lemma_powi_unit_interval(a, (n - 1) as u32);
        lemma_times_unit_interval(a.spec_powi((n - 1) as u32), a);
    }
}

/// A quotient whose numerator is no larger in magnitude than its positive
/// denominator lies in `[-1, 1]`.
pub proof fn lemma_over_unit_interval(a: Scalar, b: Scalar)
    requires
        0 < b.raw,
        -b.raw <= a.raw <= b.raw,
    ensures
        -SCALE <= a.over(b).raw <= SCALE,
{
    assert(-(b.raw * SCALE) <= a.raw * SCALE <= b.raw * SCALE) by (nonlinear_arith)
        requires
            -b.raw <= a.raw <= b.raw,
            SCALE > 0,
    ;
    lemma_trunc_div_monotonic(a.raw * SCALE, b.raw * SCALE, b.raw as int);
    lemma_trunc_div_monotonic(-(b.raw * SCALE), a.raw * SCALE, b.raw as int);
    lemma_trunc_div_negation(b.raw * SCALE, b.raw as int);
    assert(b.raw * SCALE == SCALE * b.raw) by (nonlinear_arith);
    vstd::arithmetic::div_mod::lemma_div_multiples_vanish(SCALE as int, b.raw as int);
}

/// The square of a number of `[-1, 1]` lies in `[0, 1]`.
pub proof fn lemma_square_unit_interval(a: Scalar)
    requires
        -SCALE <= a.raw <= SCALE,
    ensures
        0 <= a.times(a).raw <= SCALE,
{
    lemma_square_not_negative(a);
    assert(a.raw * a.raw <= SCALE * SCALE) by (nonlinear_arith)
        requires
            -SCALE <= a.raw <= SCALE,
    ;
    lemma_trunc_div_monotonic(a.raw * a.raw, SCALE * SCALE, SCALE as int);
    vstd::arithmetic::div_mod::lemma_div_multiples_vanish(SCALE as int, SCALE as int);
}

/// The order of the factors of a product does not matter.
pub proof fn lemma_times_commutative(a: Scalar, b: Scalar)
    ensures
        a.times(b) == b.times(a),
{
    assert(a.raw * b.raw == b.raw * a.raw) by (nonlinear_arith);
}

} // verus!
