//! How far rounding moves a result: the length of a unit vector and of a
//! vector divided by a radius, the distance of a hit point from the center
//! of its sphere, the cross product of vectors of moderate size, and the
//! products of vectors of whole numbers, which are not rounded at all.

use crate::scalar::{is_floor_sqrt, lemma_sqrt_bounds, trunc_div, Scalar, LIMIT, SCALE};
use crate::vector::{fuzzy_equal_spec, Vector};
use vstd::prelude::*;

verus! {

/// Largest magnitude of a component, in raw units, for which the bound on the
/// length of the unit vector is stated: ten thousand.
pub const COMPONENT_MAX: i64 = 10_000_000_000_000;

/// Smallest length, in raw units, for which the bound on the length of the
/// unit vector is stated: a hundredth.
pub const LENGTH_MIN: i64 = 10_000_000;

/// `q` is the quotient of `n` by `d`, rounded down.
pub open spec fn is_quotient(n: int, d: int, q: int) -> bool {
    d * q <= n < d * q + d
}

/// The quotient of a number that is not negative by a positive one.
proof fn lemma_quotient(n: int, d: int)
    requires
        0 <= n,
        0 < d,
    ensures
        is_quotient(n, d, n / d),
        0 <= n / d,
{
    vstd::arithmetic::div_mod::lemma_fundamental_div_mod(n, d);
    vstd::arithmetic::div_mod::lemma_mod_pos_bound(n, d);
    vstd::arithmetic::div_mod::lemma_div_pos_is_pos(n, d);
}

/// Squares keep the order of numbers that are not negative.
proof fn lemma_square_ordered(p: int, q: int)
    requires
        0 <= p <= q,
    ensures
        p * p <= q * q,
{
    assert(p * p <= q * q) by (nonlinear_arith)
        requires
            0 <= p <= q,
    ;
}

/// The square of a quotient rounded down, times the square of the divisor,
/// is at most the square of the numerator, and not much less.
proof fn lemma_quotient_squared(n: int, d: int, q: int)
    requires
        0 <= n,
        0 < d,
        0 <= q,
        is_quotient(n, d, q),
    ensures
        (d * d) * (q * q) <= n * n,
        (d * d) * (q * q) >= n * n - 2 * n * d,
{
    let p = d * q;
    lemma_square_ordered(p, n);
    assert(p * p == (d * d) * (q * q)) by (nonlinear_arith)
        requires
            p == d * q,
    ;
    if n >= d {
        lemma_square_ordered(n - d, p);
        assert((n - d) * (n - d) == n * n - 2 * n * d + d * d) by (nonlinear_arith);
        assert(d * d >= 0) by (nonlinear_arith);
    } else {
        assert(n * n - 2 * n * d <= 0) by (nonlinear_arith)
            requires
                0 <= n < d,
        ;
        assert(p * p >= 0) by (nonlinear_arith);
    }
}

/// The heart of the bound, on plain integers: `a`, `b`, `c` are the
/// magnitudes of the components of a vector, `len` its rounded length, and
/// `ua`, `ub`, `uc` the magnitudes of the components of its unit vector. The
/// squared length `r` of the unit vector is close to one.
proof fn lemma_unit_bound(
    a: int,
    b: int,
    c: int,
    qa: int,
    qb: int,
    qc: int,
    len: int,
    ua: int,
    ub: int,
    uc: int,
    ra: int,
    rb: int,
    rc: int,
)
    requires
        0 <= a,
        0 <= b,
        0 <= c,
        is_quotient(a * a, SCALE as int, qa),
        is_quotient(b * b, SCALE as int, qb),
        is_quotient(c * c, SCALE as int, qc),
        is_floor_sqrt((qa + qb + qc) * SCALE, len),
        len >= LENGTH_MIN,
        0 <= ua,
        0 <= ub,
        0 <= uc,
        is_quotient(a * SCALE, len, ua),
        is_quotient(b * SCALE, len, ub),
        is_quotient(c * SCALE, len, uc),
        is_quotient(ua * ua, SCALE as int, ra),
        is_quotient(ub * ub, SCALE as int, rb),
        is_quotient(uc * uc, SCALE as int, rc),
    ensures
        SCALE - 9 <= ra + rb + rc <= SCALE + 30_200,
        a <= len + 200,
        b <= len + 200,
        c <= len + 200,
{
    let s = SCALE as int;
    let ll = len * len;
    let n2 = a * a + b * b + c * c;
    let l2 = qa + qb + qc;
    let r = ra + rb + rc;
    let uu = ua * ua + ub * ub + uc * uc;
    assert(s * l2 == s * qa + s * qb + s * qc) by (nonlinear_arith)
        requires
            l2 == qa + qb + qc,
    ;
    assert(l2 * s == s * l2) by (nonlinear_arith);
    assert((len + 1) * (len + 1) == ll + 2 * len + 1) by (nonlinear_arith)
        requires
            ll == len * len,
    ;
    // The exact squared length lies between `len * len` and a little more.
    assert(ll <= n2 <= ll + 2 * len + 3 * s - 1);
    assert(ll >= LENGTH_MIN * len && ll > 0) by (nonlinear_arith)
        requires
            ll == len * len,
            len >= LENGTH_MIN,
            LENGTH_MIN > 0,
    ;
    assert(s <= 100 * len);
    assert(s * len <= 100 * ll) by (nonlinear_arith)
        requires
            s <= 100 * len,
            ll == len * len,
            len >= 0,
    ;
    assert(s * s <= 10_000 * ll) by (nonlinear_arith)
        requires
            0 <= s <= 100 * len,
            ll == len * len,
    ;
    // No component is much longer than the vector.
    lemma_component_below(a, len, n2);
    lemma_component_below(b, len, n2);
    lemma_component_below(c, len, n2);
    // The components of the unit vector, squared.
    lemma_quotient_squared(a * s, len, ua);
    lemma_quotient_squared(b * s, len, ub);
    lemma_quotient_squared(c * s, len, uc);
    assert((a * s) * (a * s) == (s * s) * (a * a)) by (nonlinear_arith);
    assert((b * s) * (b * s) == (s * s) * (b * b)) by (nonlinear_arith);
    assert((c * s) * (c * s) == (s * s) * (c * c)) by (nonlinear_arith);
    assert(ll * uu == ll * (ua * ua) + ll * (ub * ub) + ll * (uc * uc)) by (nonlinear_arith)
        requires
            uu == ua * ua + ub * ub + uc * uc,
    ;
    assert((s * s) * n2 == (s * s) * (a * a) + (s * s) * (b * b) + (s * s) * (c * c))
        by (nonlinear_arith)
        requires
            n2 == a * a + b * b + c * c,
    ;
    assert(ll * uu <= (s * s) * n2);
    // From above.
    assert((s * s) * n2 <= (s * s) * (ll + 2 * len + 3 * s)) by (nonlinear_arith)
        requires
            n2 <= ll + 2 * len + 3 * s,
            s > 0,
    ;
    assert((s * s) * (ll + 2 * len + 3 * s) == s * (s * ll + 2 * (s * len) + 3 * (s * s)))
        by (nonlinear_arith);
    assert(s * ll + 2 * (s * len) + 3 * (s * s) <= (s + 30_200) * ll) by (nonlinear_arith)
        requires
            s * len <= 100 * ll,
            s * s <= 10_000 * ll,
    ;
    assert(s * r <= uu);
    assert(ll * (s * r) <= ll * uu) by (nonlinear_arith)
        requires
            s * r <= uu,
            ll >= 0,
    ;
    assert(ll * (s * r) == s * (ll * r)) by (nonlinear_arith);
    assert(s * (ll * r) <= s * ((s + 30_200) * ll)) by (nonlinear_arith)
        requires
            s * (ll * r) <= (s * s) * n2,
            (s * s) * n2 <= s * (s * ll + 2 * (s * len) + 3 * (s * s)),
            s * ll + 2 * (s * len) + 3 * (s * s) <= (s + 30_200) * ll,
            s > 0,
    ;
    assert(r <= s + 30_200) by (nonlinear_arith)
        requires
            s * (ll * r) <= s * ((s + 30_200) * ll),
            s > 0,
            ll > 0,
    ;
    // From below.
    assert((a * s) * len == (s * len) * a && (b * s) * len == (s * len) * b && (c * s) * len == (s
        * len) * c) by (nonlinear_arith);
    let sum = a + b + c;
    assert(2 * (a * s) * len + 2 * (b * s) * len + 2 * (c * s) * len == 2 * ((s * len) * sum))
        by (nonlinear_arith)
        requires
            sum == a + b + c,
    ;
    assert(ll * uu >= (s * s) * n2 - 2 * ((s * len) * sum));
    assert((s * s) * n2 >= (s * s) * ll) by (nonlinear_arith)
        requires
            n2 >= ll,
    ;
    assert((s * len) * sum <= (s * len) * (3 * len + 600)) by (nonlinear_arith)
        requires
            sum <= 3 * len + 600,
            s * len >= 0,
    ;
    assert((s * len) * (3 * len + 600) == 3 * (s * ll) + 600 * (s * len)) by (nonlinear_arith)
        requires
            ll == len * len,
    ;
    assert(ll * uu >= ll * (s * s - 6 * s - 120_000)) by (nonlinear_arith)
        requires
            ll * uu >= (s * s) * ll - 2 * (3 * (s * ll) + 600 * (s * len)),
            s * len <= 100 * ll,
    ;
    assert(uu >= s * s - 6 * s - 120_000) by (nonlinear_arith)
        requires
            ll * uu >= ll * (s * s - 6 * s - 120_000),
            ll > 0,
    ;
    assert(s * r > uu - 3 * s);
    assert(r >= s - 9) by (nonlinear_arith)
        requires
            s * r > s * s - 9 * s - 120_000,
            s == 1_000_000_000,
    ;
}

/// A component is at most a little longer than the rounded length.
proof fn lemma_component_below(a: int, len: int, n2: int)
    requires
        0 <= a,
        a * a <= n2,
        n2 <= len * len + 2 * len + 3 * SCALE - 1,
        len >= LENGTH_MIN,
    ensures
        a <= len + 200,
{
    if a >= len + 201 {
        lemma_square_ordered(len + 201, a);
        assert((len + 201) * (len + 201) == len * len + 402 * len + 40_401) by (nonlinear_arith);
    }
}

/// The magnitude of a raw value.
pub open spec fn magnitude(x: int) -> int {
    if x < 0 {
        -x
    } else {
        x
    }
}

/// The square of a number of moderate size, without clamping.
proof fn lemma_square_exact(x: Scalar, bound: int)
    requires
        0 <= bound <= 90_000_000_000_000,
        magnitude(x.raw as int) <= bound,
    ensures
        x.times(x).raw == (magnitude(x.raw as int) * magnitude(x.raw as int)) / (SCALE as int),
        is_quotient(
            magnitude(x.raw as int) * magnitude(x.raw as int),
            SCALE as int,
            x.times(x).raw as int,
        ),
        0 <= x.times(x).raw <= (bound * bound) / (SCALE as int),
{
    let a = magnitude(x.raw as int);
    let top = 8_100_000_000_000_000_000_000_000_000int;
    assert(x.raw * x.raw == a * a) by (nonlinear_arith)
        requires
            a == x.raw || a == -x.raw,
    ;
    lemma_square_ordered(a, bound);
    assert(0 <= a * a) by (nonlinear_arith);
    assert(bound * bound <= top) by (nonlinear_arith)
        requires
            0 <= bound <= 90_000_000_000_000,
            top == 8_100_000_000_000_000_000_000_000_000int,
    ;
    lemma_quotient(a * a, SCALE as int);
    vstd::arithmetic::div_mod::lemma_div_is_ordered(a * a, bound * bound, SCALE as int);
    vstd::arithmetic::div_mod::lemma_div_is_ordered(bound * bound, top, SCALE as int);
    assert(top / (SCALE as int) == 8_100_000_000_000_000_000int);
}

/// A quotient by a positive number, without clamping.
proof fn lemma_quotient_exact(x: Scalar, d: Scalar, bound: int)
    requires
        d.raw > 0,
        (magnitude(x.raw as int) * SCALE) / (d.raw as int) <= bound <= 9_000_000_000_000_000_000,
    ensures
        magnitude(x.over(d).raw as int) == (magnitude(x.raw as int) * SCALE) / (d.raw as int),
{
    let a = magnitude(x.raw as int);
    assert(0 <= a * SCALE);
    lemma_quotient(a * SCALE, d.raw as int);
    if x.raw < 0 {
        assert(-(x.raw * SCALE) == a * SCALE);
    }
}

/// Whether a vector is neither tiny nor huge: no component above
/// `COMPONENT_MAX` in magnitude, and the length at least `LENGTH_MIN`.
pub open spec fn is_moderate(v: Vector) -> bool {
    &&& magnitude(v.x().raw as int) <= COMPONENT_MAX
    &&& magnitude(v.y().raw as int) <= COMPONENT_MAX
    &&& magnitude(v.z().raw as int) <= COMPONENT_MAX
    &&& v.len_spec().raw >= LENGTH_MIN
}

/// The unit vector of a vector that is neither tiny nor huge is one long, up
/// to rounding: its squared length and its length differ from one by at most
/// 9 raw units below and 30 200 above, so its length is fuzzily equal to
/// one.
pub proof fn lemma_unit_vector_length(v: Vector)
    requires
        is_moderate(v),
    ensures
        SCALE - 9 <= v.unit_spec().length_squared_spec().raw <= SCALE + 30_200,
        SCALE - 9 <= v.unit_spec().len_spec().raw <= SCALE + 30_200,
        fuzzy_equal_spec(v.unit_spec().len_spec(), Scalar::one()),
{
    let s = SCALE as int;
    let a = magnitude(v.x().raw as int);
    let b = magnitude(v.y().raw as int);
    let c = magnitude(v.z().raw as int);
    lemma_square_exact(v.x(), COMPONENT_MAX as int);
    lemma_square_exact(v.y(), COMPONENT_MAX as int);
    lemma_square_exact(v.z(), COMPONENT_MAX as int);
    assert(COMPONENT_MAX * COMPONENT_MAX == 100_000_000_000_000_000_000_000_000);
    let qa = v.x().times(v.x()).raw as int;
    let qb = v.y().times(v.y()).raw as int;
    let qc = v.z().times(v.z()).raw as int;
    assert((COMPONENT_MAX * COMPONENT_MAX) / s == 100_000_000_000_000_000);
    let squared = v.length_squared_spec();
    assert(squared.raw == qa + qb + qc);
    lemma_sqrt_bounds(squared);
    let length = v.len_spec();
    let len = length.raw as int;
    assert(squared.raw > 0);
    assert(is_floor_sqrt((qa + qb + qc) * s, len));
    let ua = (a * s) / len;
    let ub = (b * s) / len;
    let uc = (c * s) / len;
    lemma_quotient(a * s, len);
    lemma_quotient(b * s, len);
    lemma_quotient(c * s, len);
    let ra = (ua * ua) / s;
    let rb = (ub * ub) / s;
    let rc = (uc * uc) / s;
    assert(0 <= ua * ua && 0 <= ub * ub && 0 <= uc * uc) by (nonlinear_arith);
    lemma_quotient(ua * ua, s);
    lemma_quotient(ub * ub, s);
    lemma_quotient(uc * uc, s);
    lemma_unit_bound(a, b, c, qa, qb, qc, len, ua, ub, uc, ra, rb, rc);
    lemma_unit_component_below(a, len, ua);
    lemma_unit_component_below(b, len, ub);
    lemma_unit_component_below(c, len, uc);
    let unit = v.unit_spec();
    lemma_quotient_exact(v.x(), length, s + 20_000);
    lemma_quotient_exact(v.y(), length, s + 20_000);
    lemma_quotient_exact(v.z(), length, s + 20_000);
    assert(magnitude(unit.x().raw as int) == ua);
    assert(magnitude(unit.y().raw as int) == ub);
    assert(magnitude(unit.z().raw as int) == uc);
    lemma_square_exact(unit.x(), s + 20_000);
    lemma_square_exact(unit.y(), s + 20_000);
    lemma_square_exact(unit.z(), s + 20_000);
    let r = unit.length_squared_spec();
    assert(r.raw == ra + rb + rc);
    // From the squared length to the length.
    lemma_sqrt_bounds(r);
    let root = unit.len_spec().raw as int;
    assert(is_floor_sqrt(r.raw * s, root));
    assert(r.raw * s >= (s - 9) * s && r.raw * s <= (s + 30_200) * s) by (nonlinear_arith)
        requires
            s - 9 <= r.raw <= s + 30_200,
            s > 0,
    ;
    if root <= s - 10 {
        lemma_square_ordered(root + 1, s - 9);
        assert((s - 9) * (s - 9) <= (s - 9) * s) by (nonlinear_arith)
            requires
                s >= 9,
        ;
    }
    if root >= s + 30_201 {
        lemma_square_ordered(s + 30_201, root);
        assert((s + 30_201) * (s + 30_201) > (s + 30_200) * s) by (nonlinear_arith)
            requires
                s > 0,
        ;
    }
}

/// A component of the unit vector is at most a little above one.
proof fn lemma_unit_component_below(a: int, len: int, ua: int)
    requires
        0 <= a <= len + 200,
        len >= LENGTH_MIN,
        is_quotient(a * SCALE, len, ua),
    ensures
        ua <= SCALE + 20_000,
{
    assert(a * SCALE <= len * SCALE + 200 * SCALE) by (nonlinear_arith)
        requires
            a <= len + 200,
            SCALE > 0,
    ;
    assert(200 * SCALE <= 20_000 * len);
    assert(len * (SCALE + 20_000) == len * SCALE + 20_000 * len) by (nonlinear_arith);
    assert(ua <= SCALE + 20_000) by (nonlinear_arith)
        requires
            len * ua <= len * (SCALE + 20_000),
            len > 0,
    ;
}

/// Largest magnitude of a component for which the products of whole vectors
/// are stated.
pub const WHOLE_MAX: i64 = 100;

/// Whether `a` is the whole number `n`.
pub open spec fn is_whole(a: Scalar, n: int) -> bool {
    a.raw == n * SCALE
}

/// Whether the components of `v` are the whole numbers `x`, `y`, `z`, each
/// at most `WHOLE_MAX` in magnitude.
pub open spec fn is_whole_vector(v: Vector, x: int, y: int, z: int) -> bool {
    &&& is_whole(v.x(), x) && -WHOLE_MAX <= x <= WHOLE_MAX
    &&& is_whole(v.y(), y) && -WHOLE_MAX <= y <= WHOLE_MAX
    &&& is_whole(v.z(), z) && -WHOLE_MAX <= z <= WHOLE_MAX
}

/// The product of two bounded numbers is bounded by the product of the
/// bounds.
proof fn lemma_product_bounded(p: int, q: int, bound_p: int, bound_q: int)
    requires
        -bound_p <= p <= bound_p,
        -bound_q <= q <= bound_q,
    ensures
        -(bound_p * bound_q) <= p * q <= bound_p * bound_q,
{
    assert(-(bound_p * bound_q) <= p * q <= bound_p * bound_q) by (nonlinear_arith)
        requires
            -bound_p <= p <= bound_p,
            -bound_q <= q <= bound_q,
    ;
}

/// The product of two whole numbers is their whole product, where that fits.
proof fn lemma_times_whole(a: Scalar, b: Scalar, p: int, q: int)
    requires
        is_whole(a, p),
        is_whole(b, q),
        -9_000_000_000 <= p * q <= 9_000_000_000,
    ensures
        is_whole(a.times(b), p * q),
{
    let k = p * q * SCALE;
    assert(a.raw * b.raw == k * SCALE) by (nonlinear_arith)
        requires
            a.raw == p * SCALE,
            b.raw == q * SCALE,
            k == p * q * SCALE,
    ;
    if k >= 0 {
        vstd::arithmetic::div_mod::lemma_div_multiples_vanish(k, SCALE as int);
    } else {
        assert(-(k * SCALE) == (-k) * SCALE) by (nonlinear_arith);
        vstd::arithmetic::div_mod::lemma_div_multiples_vanish(-k, SCALE as int);
    }
}

/// The dot product of two vectors of whole numbers is whole.
proof fn lemma_dot_whole(
    a: Vector,
    b: Vector,
    a1: int,
    a2: int,
    a3: int,
    b1: int,
    b2: int,
    b3: int,
    bound: int,
)
    requires
        is_whole(a.x(), a1) && is_whole(a.y(), a2) && is_whole(a.z(), a3),
        is_whole(b.x(), b1) && is_whole(b.y(), b2) && is_whole(b.z(), b3),
        0 <= bound <= 3_000_000_000,
        -bound <= a1 * b1 <= bound,
        -bound <= a2 * b2 <= bound,
        -bound <= a3 * b3 <= bound,
    ensures
        is_whole(a.dot_spec(&b), a1 * b1 + a2 * b2 + a3 * b3),
{
    lemma_times_whole(a.x(), b.x(), a1, b1);
    lemma_times_whole(a.y(), b.y(), a2, b2);
    lemma_times_whole(a.z(), b.z(), a3, b3);
}

/// The square of a difference of two products.
proof fn lemma_square_of_difference(p: int, q: int, r: int, t: int)
    ensures
        (p * q - r * t) * (p * q - r * t) == (p * p) * (q * q) - 2 * ((p * r) * (q * t)) + (r * r)
            * (t * t),
{
    let x = p * q;
    let y = r * t;
    assert((x - y) * (x - y) == x * x - 2 * (x * y) + y * y) by (nonlinear_arith);
    assert(x * x == (p * p) * (q * q)) by (nonlinear_arith)
        requires
            x == p * q,
    ;
    assert(y * y == (r * r) * (t * t)) by (nonlinear_arith)
        requires
            y == r * t,
    ;
    assert(x * y == (p * r) * (q * t)) by (nonlinear_arith)
        requires
            x == p * q,
            y == r * t,
    ;
}

/// Lagrange's identity on whole numbers.
proof fn lemma_lagrange(a1: int, a2: int, a3: int, b1: int, b2: int, b3: int)
    ensures
        (a2 * b3 - a3 * b2) * (a2 * b3 - a3 * b2) + (a3 * b1 - a1 * b3) * (a3 * b1 - a1 * b3) + (a1
            * b2 - a2 * b1) * (a1 * b2 - a2 * b1) == (a1 * a1 + a2 * a2 + a3 * a3) * (b1 * b1 + b2
            * b2 + b3 * b3) - (a1 * b1 + a2 * b2 + a3 * b3) * (a1 * b1 + a2 * b2 + a3 * b3),
{
    lemma_square_of_difference(a2, b3, a3, b2);
    lemma_square_of_difference(a3, b1, a1, b3);
    lemma_square_of_difference(a1, b2, a2, b1);
    let (s1, s2, s3) = (a1 * a1, a2 * a2, a3 * a3);
    let (t1, t2, t3) = (b1 * b1, b2 * b2, b3 * b3);
    assert((s1 + s2 + s3) * (t1 + t2 + t3) == s1 * t1 + s1 * t2 + s1 * t3 + s2 * t1 + s2 * t2 + s2
        * t3 + s3 * t1 + s3 * t2 + s3 * t3) by (nonlinear_arith);
    let (d1, d2, d3) = (a1 * b1, a2 * b2, a3 * b3);
    assert((d1 + d2 + d3) * (d1 + d2 + d3) == d1 * d1 + d2 * d2 + d3 * d3 + 2 * (d1 * d2) + 2 * (d1
        * d3) + 2 * (d2 * d3)) by (nonlinear_arith);
    assert(d1 * d1 == s1 * t1 && d2 * d2 == s2 * t2 && d3 * d3 == s3 * t3) by (nonlinear_arith)
        requires
            d1 == a1 * b1,
            d2 == a2 * b2,
            d3 == a3 * b3,
            s1 == a1 * a1,
            s2 == a2 * a2,
            s3 == a3 * a3,
            t1 == b1 * b1,
            t2 == b2 * b2,
            t3 == b3 * b3,
    ;
    assert(d1 * d2 == (a1 * a2) * (b1 * b2) && d1 * d2 == (a2 * a1) * (b2 * b1))
        by (nonlinear_arith)
        requires
            d1 == a1 * b1,
            d2 == a2 * b2,
    ;
    assert(d1 * d3 == (a1 * a3) * (b1 * b3) && d1 * d3 == (a3 * a1) * (b3 * b1))
        by (nonlinear_arith)
        requires
            d1 == a1 * b1,
            d3 == a3 * b3,
    ;
    assert(d2 * d3 == (a2 * a3) * (b2 * b3) && d2 * d3 == (a3 * a2) * (b3 * b2))
        by (nonlinear_arith)
        requires
            d2 == a2 * b2,
            d3 == a3 * b3,
    ;
}

/// For vectors of whole numbers of moderate size nothing is rounded. Their
/// cross product is at right angles to both, so its dot product with either
/// is zero, and its length is that of Lagrange's identity
/// `|a x b|^2 = |a|^2 |b|^2 - (a . b)^2`, the square of
/// `|a x b| = |a| |b| sin(angle)`.
pub proof fn lemma_cross_of_whole_vectors(
    a: Vector,
    b: Vector,
    a1: int,
    a2: int,
    a3: int,
    b1: int,
    b2: int,
    b3: int,
)
    requires
        is_whole_vector(a, a1, a2, a3),
        is_whole_vector(b, b1, b2, b3),
    ensures
        is_whole(a.cross_spec(&b).x(), a2 * b3 - a3 * b2),
        is_whole(a.cross_spec(&b).y(), a3 * b1 - a1 * b3),
        is_whole(a.cross_spec(&b).z(), a1 * b2 - a2 * b1),
        a.cross_spec(&b).dot_spec(&a) == Scalar::zero(),
        a.cross_spec(&b).dot_spec(&b) == Scalar::zero(),
        a.cross_spec(&b).length_squared_spec() == a.length_squared_spec().times(
            b.length_squared_spec(),
        ).minus(a.dot_spec(&b).times(a.dot_spec(&b))),
{
    let c = a.cross_spec(&b);
    let c1 = a2 * b3 - a3 * b2;
    let c2 = a3 * b1 - a1 * b3;
    let c3 = a1 * b2 - a2 * b1;
    // The cross product.
    lemma_product_bounded(a2, b3, 100, 100);
    lemma_product_bounded(a3, b2, 100, 100);
    lemma_product_bounded(a3, b1, 100, 100);
    lemma_product_bounded(a1, b3, 100, 100);
    lemma_product_bounded(a1, b2, 100, 100);
    lemma_product_bounded(a2, b1, 100, 100);
    lemma_times_whole(a.y(), b.z(), a2, b3);
    lemma_times_whole(a.z(), b.y(), a3, b2);
    lemma_times_whole(a.z(), b.x(), a3, b1);
    lemma_times_whole(a.x(), b.z(), a1, b3);
    lemma_times_whole(a.x(), b.y(), a1, b2);
    lemma_times_whole(a.y(), b.x(), a2, b1);
    assert(is_whole(c.x(), c1) && is_whole(c.y(), c2) && is_whole(c.z(), c3));
    // At right angles to both.
    lemma_product_bounded(c1, a1, 20_000, 100);
    lemma_product_bounded(c2, a2, 20_000, 100);
    lemma_product_bounded(c3, a3, 20_000, 100);
    lemma_dot_whole(c, a, c1, c2, c3, a1, a2, a3, 2_000_000);
    assert(c1 * a1 + c2 * a2 + c3 * a3 == 0) by (nonlinear_arith)
        requires
            c1 == a2 * b3 - a3 * b2,
            c2 == a3 * b1 - a1 * b3,
            c3 == a1 * b2 - a2 * b1,
    ;
    lemma_product_bounded(c1, b1, 20_000, 100);
    lemma_product_bounded(c2, b2, 20_000, 100);
    lemma_product_bounded(c3, b3, 20_000, 100);
    lemma_dot_whole(c, b, c1, c2, c3, b1, b2, b3, 2_000_000);
    assert(c1 * b1 + c2 * b2 + c3 * b3 == 0) by (nonlinear_arith)
        requires
            c1 == a2 * b3 - a3 * b2,
            c2 == a3 * b1 - a1 * b3,
            c3 == a1 * b2 - a2 * b1,
    ;
    // The lengths.
    lemma_product_bounded(c1, c1, 20_000, 20_000);
    lemma_product_bounded(c2, c2, 20_000, 20_000);
    lemma_product_bounded(c3, c3, 20_000, 20_000);
    lemma_dot_whole(c, c, c1, c2, c3, c1, c2, c3, 400_000_000);
    let cc = c1 * c1 + c2 * c2 + c3 * c3;
    assert(is_whole(c.length_squared_spec(), cc));
    lemma_product_bounded(a1, a1, 100, 100);
    lemma_product_bounded(a2, a2, 100, 100);
    lemma_product_bounded(a3, a3, 100, 100);
    lemma_dot_whole(a, a, a1, a2, a3, a1, a2, a3, 10_000);
    let aa = a1 * a1 + a2 * a2 + a3 * a3;
    assert(is_whole(a.length_squared_spec(), aa));
    lemma_product_bounded(b1, b1, 100, 100);
    lemma_product_bounded(b2, b2, 100, 100);
    lemma_product_bounded(b3, b3, 100, 100);
    lemma_dot_whole(b, b, b1, b2, b3, b1, b2, b3, 10_000);
    let bb = b1 * b1 + b2 * b2 + b3 * b3;
    assert(is_whole(b.length_squared_spec(), bb));
    lemma_product_bounded(a1, b1, 100, 100);
    lemma_product_bounded(a2, b2, 100, 100);
    lemma_product_bounded(a3, b3, 100, 100);
    lemma_dot_whole(a, b, a1, a2, a3, b1, b2, b3, 10_000);
    let ab = a1 * b1 + a2 * b2 + a3 * b3;
    assert(is_whole(a.dot_spec(&b), ab));
    lemma_product_bounded(aa, bb, 30_000, 30_000);
    lemma_times_whole(a.length_squared_spec(), b.length_squared_spec(), aa, bb);
    lemma_product_bounded(ab, ab, 30_000, 30_000);
    lemma_times_whole(a.dot_spec(&b), a.dot_spec(&b), ab, ab);
    lemma_lagrange(a1, a2, a3, b1, b2, b3);
    assert(cc == aa * bb - ab * ab);
}

/// How close the length of a vector must be to a divisor for their quotient
/// to be one long: within a part in `CLOSENESS` of the divisor, less 200 raw
/// units for the rounding of the length.
pub const CLOSENESS: i64 = 40_000;

/// Whether `offset` is about `radius` long: no component above
/// `COMPONENT_MAX` in magnitude, the radius at least `LENGTH_MIN`, and the
/// length within a part in `CLOSENESS` of the radius, less 200 raw units.
pub open spec fn is_near_radius(offset: Vector, radius: Scalar) -> bool {
    &&& magnitude(offset.x().raw as int) <= COMPONENT_MAX
    &&& magnitude(offset.y().raw as int) <= COMPONENT_MAX
    &&& magnitude(offset.z().raw as int) <= COMPONENT_MAX
    &&& radius.raw >= LENGTH_MIN
    &&& CLOSENESS * (magnitude(offset.len_spec().raw - radius.raw) + 200) <= radius.raw
}

/// The bound for a quotient by the radius, on plain integers: `a`, `b`, `c`
/// are the magnitudes of the components of a vector, `len` its rounded
/// length, `r` a radius close to it, and `ua`, `ub`, `uc` the magnitudes of
/// the components of the vector over the radius. The squared length of that
/// quotient is close to one.
proof fn lemma_near_radius_bound(
    a: int,
    b: int,
    c: int,
    qa: int,
    qb: int,
    qc: int,
    len: int,
    r: int,
    ua: int,
    ub: int,
    uc: int,
    ra: int,
    rb: int,
    rc: int,
)
    requires
        0 <= a,
        0 <= b,
        0 <= c,
        is_quotient(a * a, SCALE as int, qa),
        is_quotient(b * b, SCALE as int, qb),
        is_quotient(c * c, SCALE as int, qc),
        is_floor_sqrt((qa + qb + qc) * SCALE, len),
        r >= LENGTH_MIN,
        CLOSENESS * (magnitude(len - r) + 200) <= r,
        0 <= ua,
        0 <= ub,
        0 <= uc,
        is_quotient(a * SCALE, r, ua),
        is_quotient(b * SCALE, r, ub),
        is_quotient(c * SCALE, r, uc),
        is_quotient(ua * ua, SCALE as int, ra),
        is_quotient(ub * ub, SCALE as int, rb),
        is_quotient(uc * uc, SCALE as int, rc),
    ensures
        SCALE - 50_008 <= ra + rb + rc <= SCALE + 50_000,
        ua <= SCALE + 25_000,
        ub <= SCALE + 25_000,
        uc <= SCALE + 25_000,
{
    let s = SCALE as int;
    let k = CLOSENESS as int;
    let e = magnitude(len - r) + 200;
    let f = k * e;
    let lo = r - e;
    let hi = r + e;
    let ll = len * len;
    let rr = r * r;
    let n2 = a * a + b * b + c * c;
    let l2 = qa + qb + qc;
    let sum = ra + rb + rc;
    let uu = ua * ua + ub * ub + uc * uc;
    // The exact squared length lies between `len * len` and a little more.
    assert(s * l2 == s * qa + s * qb + s * qc) by (nonlinear_arith)
        requires
            l2 == qa + qb + qc,
    ;
    assert(l2 * s == s * l2) by (nonlinear_arith);
    assert((len + 1) * (len + 1) == ll + 2 * len + 1) by (nonlinear_arith)
        requires
            ll == len * len,
    ;
    assert(ll <= n2 <= ll + 2 * len + 3 * s - 1);
    // The length is close to the radius, so the exact length is too.
    assert(f <= r);
    assert(0 <= lo <= len);
    assert(len + 200 <= hi);
    assert(len >= 9_000_000);
    lemma_square_ordered(lo, len);
    lemma_square_ordered(len + 200, hi);
    assert((len + 200) * (len + 200) == ll + 400 * len + 40_000) by (nonlinear_arith)
        requires
            ll == len * len,
    ;
    assert(lo * lo <= n2 <= hi * hi);
    // No component is longer than that.
    lemma_component_at_most(a, hi, n2);
    lemma_component_at_most(b, hi, n2);
    lemma_component_at_most(c, hi, n2);
    // Scaled by `k`, the bounds are multiples of the radius.
    let klo = k * lo;
    let khi = k * hi;
    assert(klo == k * r - f && khi == k * r + f) by (nonlinear_arith)
        requires
            klo == k * lo,
            khi == k * hi,
            lo == r - e,
            hi == r + e,
            f == k * e,
    ;
    assert(0 <= (k - 1) * r <= klo && khi <= (k + 1) * r);
    lemma_square_ordered((k - 1) * r, klo);
    lemma_square_ordered(khi, (k + 1) * r);
    assert(((k - 1) * r) * ((k - 1) * r) == ((k - 1) * (k - 1)) * rr) by (nonlinear_arith)
        requires
            rr == r * r,
    ;
    assert(((k + 1) * r) * ((k + 1) * r) == ((k + 1) * (k + 1)) * rr) by (nonlinear_arith)
        requires
            rr == r * r,
    ;
    assert(klo * klo == (k * k) * (lo * lo) && khi * khi == (k * k) * (hi * hi))
        by (nonlinear_arith)
        requires
            klo == k * lo,
            khi == k * hi,
    ;
    assert(rr > 0) by (nonlinear_arith)
        requires
            rr == r * r,
            r > 0,
    ;
    // Each component of the quotient.
    lemma_quotient_component(a, hi, r, ua);
    lemma_quotient_component(b, hi, r, ub);
    lemma_quotient_component(c, hi, r, uc);
    lemma_quotient_squared(a * s, r, ua);
    lemma_quotient_squared(b * s, r, ub);
    lemma_quotient_squared(c * s, r, uc);
    assert((a * s) * (a * s) == (s * s) * (a * a)) by (nonlinear_arith);
    assert((b * s) * (b * s) == (s * s) * (b * b)) by (nonlinear_arith);
    assert((c * s) * (c * s) == (s * s) * (c * c)) by (nonlinear_arith);
    assert(rr * uu == rr * (ua * ua) + rr * (ub * ub) + rr * (uc * uc)) by (nonlinear_arith)
        requires
            uu == ua * ua + ub * ub + uc * uc,
    ;
    assert((s * s) * n2 == (s * s) * (a * a) + (s * s) * (b * b) + (s * s) * (c * c))
        by (nonlinear_arith)
        requires
            n2 == a * a + b * b + c * c,
    ;
    // From above.
    assert(rr * uu <= (s * s) * n2);
    assert((k * k) * (rr * uu) <= (s * s) * (((k + 1) * (k + 1)) * rr)) by (nonlinear_arith)
        requires
            rr * uu <= (s * s) * n2,
            n2 <= hi * hi,
            (k * k) * (hi * hi) <= ((k + 1) * (k + 1)) * rr,
            s > 0,
            k > 0,
    ;
    assert((k * k) * uu <= (s * s) * ((k + 1) * (k + 1))) by (nonlinear_arith)
        requires
            (k * k) * (rr * uu) <= (s * s) * (((k + 1) * (k + 1)) * rr),
            rr > 0,
    ;
    assert(s * sum <= uu);
    assert((k * k) * sum <= s * ((k + 1) * (k + 1))) by (nonlinear_arith)
        requires
            (k * k) * uu <= (s * s) * ((k + 1) * (k + 1)),
            s * sum <= uu,
            s > 0,
            k > 0,
    ;
    assert(k * k == 1_600_000_000 && (k + 1) * (k + 1) == 1_600_080_001 && (k - 1) * (k - 1)
        == 1_599_920_001);
    assert(sum <= s + 50_000);
    // From below.
    let total = a + b + c;
    assert((a * s) * r == (s * r) * a && (b * s) * r == (s * r) * b && (c * s) * r == (s * r)
        * c) by (nonlinear_arith);
    assert(2 * (a * s) * r + 2 * (b * s) * r + 2 * (c * s) * r == 2 * ((s * r) * total))
        by (nonlinear_arith)
        requires
            total == a + b + c,
    ;
    assert(rr * uu >= (s * s) * n2 - 2 * ((s * r) * total));
    assert((s * r) * total <= 3 * ((s * r) * hi)) by (nonlinear_arith)
        requires
            total <= 3 * hi,
            s > 0,
            r > 0,
    ;
    assert((k * k) * ((s * r) * hi) <= (s * (k * (k + 1))) * rr) by (nonlinear_arith)
        requires
            k * hi <= (k + 1) * r,
            rr == r * r,
            s > 0,
            r > 0,
            k > 0,
    ;
    assert((k * k) * ((s * s) * n2) >= (s * s) * (((k - 1) * (k - 1)) * rr)) by (nonlinear_arith)
        requires
            n2 >= lo * lo,
            (k * k) * (lo * lo) >= ((k - 1) * (k - 1)) * rr,
            s > 0,
            k > 0,
    ;
    let kk = k * k;
    let below = (k - 1) * (k - 1);
    let x = rr * uu;
    let y = (s * s) * n2;
    let t = (s * r) * total;
    let h = (s * r) * hi;
    let p = s * (k * (k + 1));
    assert(kk * x >= kk * y - 2 * (kk * t)) by (nonlinear_arith)
        requires
            x >= y - 2 * t,
            kk > 0,
    ;
    assert(kk * t <= 3 * (kk * h)) by (nonlinear_arith)
        requires
            t <= 3 * h,
            kk > 0,
    ;
    assert(kk * x >= (s * s) * (below * rr) - 6 * (p * rr));
    assert((s * s) * (below * rr) - 6 * (p * rr) == ((s * s) * below - 6 * p) * rr)
        by (nonlinear_arith);
    assert((k * k) * (rr * uu) >= ((s * s) * ((k - 1) * (k - 1)) - 6 * (s * (k * (k + 1)))) * rr);
    assert((k * k) * uu >= (s * s) * ((k - 1) * (k - 1)) - 6 * (s * (k * (k + 1))))
        by (nonlinear_arith)
        requires
            (k * k) * (rr * uu) >= ((s * s) * ((k - 1) * (k - 1)) - 6 * (s * (k * (k + 1))))
                * rr,
            rr > 0,
    ;
    assert(s * sum > uu - 3 * s);
    assert((k * k) * sum > s * ((k - 1) * (k - 1)) - 6 * (k * (k + 1)) - 3 * (k * k))
        by (nonlinear_arith)
        requires
            (k * k) * uu >= (s * s) * ((k - 1) * (k - 1)) - 6 * (s * (k * (k + 1))),
            s * sum > uu - 3 * s,
            s > 0,
            k > 0,
    ;
    assert(k * (k + 1) == 1_600_040_000);
    assert(sum >= s - 50_008);
}

/// A component is no longer than the vector.
proof fn lemma_component_at_most(a: int, hi: int, n2: int)
    requires
        0 <= a,
        0 <= hi,
        a * a <= n2 <= hi * hi,
    ensures
        a <= hi,
{
    if a >= hi + 1 {
        lemma_square_ordered(hi + 1, a);
        assert((hi + 1) * (hi + 1) == hi * hi + 2 * hi + 1) by (nonlinear_arith);
    }
}

/// A component of the quotient by the radius is at most a little above one.
proof fn lemma_quotient_component(a: int, hi: int, r: int, ua: int)
    requires
        0 <= a <= hi,
        r > 0,
        CLOSENESS * hi <= (CLOSENESS + 1) * r,
        0 <= ua,
        is_quotient(a * SCALE, r, ua),
    ensures
        ua <= SCALE + 25_000,
{
    let k = CLOSENESS as int;
    let s = SCALE as int;
    assert(k * (r * ua) <= ((k + 1) * s) * r) by (nonlinear_arith)
        requires
            r * ua <= a * s,
            a <= hi,
            k * hi <= (k + 1) * r,
            s > 0,
            k > 0,
    ;
    assert(k * ua <= (k + 1) * s) by (nonlinear_arith)
        requires
            k * (r * ua) <= ((k + 1) * s) * r,
            r > 0,
    ;
}

/// The squared length of a vector in the range that operations return is
/// that of its opposite.
pub proof fn lemma_length_of_opposite(v: Vector)
    requires
        v.in_range(),
    ensures
        v.negated().length_squared_spec() == v.length_squared_spec(),
        v.negated().len_spec() == v.len_spec(),
{
    lemma_square_of_opposite(v.x());
    lemma_square_of_opposite(v.y());
    lemma_square_of_opposite(v.z());
}

/// The square of a number in the range that operations return is that of its
/// opposite.
proof fn lemma_square_of_opposite(x: Scalar)
    requires
        x.in_range(),
    ensures
        x.negated().times(x.negated()) == x.times(x),
{
    assert((-x.raw) * (-x.raw) == x.raw * x.raw) by (nonlinear_arith);
}

/// A vector that is about `radius` long, divided by `radius`, is one long, up
/// to rounding: its squared length and its length differ from one by at most
/// 50 008 raw units, so its length is fuzzily equal to one.
pub proof fn lemma_quotient_by_radius_length(offset: Vector, radius: Scalar)
    requires
        is_near_radius(offset, radius),
    ensures
        SCALE - 50_008 <= offset.divided(radius).length_squared_spec().raw <= SCALE + 50_000,
        SCALE - 50_008 <= offset.divided(radius).len_spec().raw <= SCALE + 50_000,
        fuzzy_equal_spec(offset.divided(radius).len_spec(), Scalar::one()),
{
    let s = SCALE as int;
    let r = radius.raw as int;
    let a = magnitude(offset.x().raw as int);
    let b = magnitude(offset.y().raw as int);
    let c = magnitude(offset.z().raw as int);
    lemma_square_exact(offset.x(), COMPONENT_MAX as int);
    lemma_square_exact(offset.y(), COMPONENT_MAX as int);
    lemma_square_exact(offset.z(), COMPONENT_MAX as int);
    assert((COMPONENT_MAX * COMPONENT_MAX) / s == 100_000_000_000_000_000);
    let qa = offset.x().times(offset.x()).raw as int;
    let qb = offset.y().times(offset.y()).raw as int;
    let qc = offset.z().times(offset.z()).raw as int;
    let squared = offset.length_squared_spec();
    assert(squared.raw == qa + qb + qc);
    lemma_sqrt_bounds(squared);
    let len = offset.len_spec().raw as int;
    assert(len > 0);
    assert(squared.raw > 0);
    assert(is_floor_sqrt((qa + qb + qc) * s, len));
    let ua = (a * s) / r;
    let ub = (b * s) / r;
    let uc = (c * s) / r;
    lemma_quotient(a * s, r);
    lemma_quotient(b * s, r);
    lemma_quotient(c * s, r);
    let ra = (ua * ua) / s;
    let rb = (ub * ub) / s;
    let rc = (uc * uc) / s;
    assert(0 <= ua * ua && 0 <= ub * ub && 0 <= uc * uc) by (nonlinear_arith);
    lemma_quotient(ua * ua, s);
    lemma_quotient(ub * ub, s);
    lemma_quotient(uc * uc, s);
    lemma_near_radius_bound(a, b, c, qa, qb, qc, len, r, ua, ub, uc, ra, rb, rc);
    let quotient = offset.divided(radius);
    lemma_quotient_exact(offset.x(), radius, s + 25_000);
    lemma_quotient_exact(offset.y(), radius, s + 25_000);
    lemma_quotient_exact(offset.z(), radius, s + 25_000);
    lemma_square_exact(quotient.x(), s + 25_000);
    lemma_square_exact(quotient.y(), s + 25_000);
    lemma_square_exact(quotient.z(), s + 25_000);
    let total = quotient.length_squared_spec();
    assert(total.raw == ra + rb + rc);
    lemma_sqrt_bounds(total);
    let root = quotient.len_spec().raw as int;
    assert(is_floor_sqrt(total.raw * s, root));
    assert(total.raw * s >= (s - 50_008) * s && total.raw * s <= (s + 50_000) * s)
        by (nonlinear_arith)
        requires
            s - 50_008 <= total.raw <= s + 50_000,
            s > 0,
    ;
    if root <= s - 50_009 {
        lemma_square_ordered(root + 1, s - 50_008);
        assert((s - 50_008) * (s - 50_008) <= (s - 50_008) * s) by (nonlinear_arith)
            requires
                s >= 50_008,
        ;
    }
    if root >= s + 50_001 {
        lemma_square_ordered(s + 50_001, root);
        assert((s + 50_001) * (s + 50_001) > (s + 50_000) * s) by (nonlinear_arith)
            requires
                s > 0,
        ;
    }
}

/// Largest magnitude of a component, in raw units, for which the rounding of
/// the cross product is bounded: ten.
pub const FACTOR_MAX: i64 = 10_000_000_000;

/// Whether no component of `v` is above `FACTOR_MAX` in magnitude.
pub open spec fn is_small(v: Vector) -> bool {
    &&& magnitude(v.x().raw as int) <= FACTOR_MAX
    &&& magnitude(v.y().raw as int) <= FACTOR_MAX
    &&& magnitude(v.z().raw as int) <= FACTOR_MAX
}

/// `q` is `x` over the scale, rounded toward zero: less than one scale off.
pub open spec fn is_rounded(x: int, q: int) -> bool {
    -SCALE < x - SCALE * q < SCALE && (x >= 0 ==> x - SCALE * q >= 0)
}

/// Rounding toward zero is less than one unit off, and not upward for a
/// number that is not negative.
proof fn lemma_rounded(x: int)
    ensures
        is_rounded(x, trunc_div(x, SCALE as int)),
{
    if x >= 0 {
        lemma_quotient(x, SCALE as int);
    } else {
        lemma_quotient(-x, SCALE as int);
    }
}

/// The product of two numbers of moderate size is rounded, not clamped.
pub proof fn lemma_times_rounded(x: Scalar, y: Scalar, bound_x: int, bound_y: int)
    requires
        magnitude(x.raw as int) <= bound_x,
        magnitude(y.raw as int) <= bound_y,
        bound_x * bound_y <= 9_000_000_000_000_000_000_000_000_000,
    ensures
        is_rounded(x.raw * y.raw, x.times(y).raw as int),
        -(bound_x * bound_y) <= SCALE * x.times(y).raw <= bound_x * bound_y,
{
    let product = x.raw * y.raw;
    lemma_product_bounded(x.raw as int, y.raw as int, bound_x, bound_y);
    lemma_rounded(product);
    let q = trunc_div(product, SCALE as int);
    if product >= 0 {
        lemma_quotient(product, SCALE as int);
    } else {
        lemma_quotient(-product, SCALE as int);
    }
    assert(-(bound_x * bound_y) <= SCALE * q <= bound_x * bound_y);
}

/// Lagrange's identity up to rounding, on plain integers: the `a` and `b`
/// are the raw components of two vectors, `p` their products, `c` the
/// components of the cross product, and `s`, `u`, `v`, `w`, `t` the other
/// products, each rounded toward zero.
proof fn lemma_lagrange_rounded(
    a1: int, a2: int, a3: int, b1: int, b2: int, b3: int,
    p23: int, p32: int, p31: int, p13: int, p12: int, p21: int,
    s1: int, s2: int, s3: int,
    u1: int, u2: int, u3: int,
    v1: int, v2: int, v3: int,
    w1: int, w2: int, w3: int,
    t1: int, t2: int,
)
    requires
        -FACTOR_MAX <= a1 <= FACTOR_MAX && -FACTOR_MAX <= a2 <= FACTOR_MAX && -FACTOR_MAX <= a3
            <= FACTOR_MAX,
        -FACTOR_MAX <= b1 <= FACTOR_MAX && -FACTOR_MAX <= b2 <= FACTOR_MAX && -FACTOR_MAX <= b3
            <= FACTOR_MAX,
        is_rounded(a2 * b3, p23) && is_rounded(a3 * b2, p32),
        is_rounded(a3 * b1, p31) && is_rounded(a1 * b3, p13),
        is_rounded(a1 * b2, p12) && is_rounded(a2 * b1, p21),
        is_rounded((p23 - p32) * (p23 - p32), s1),
        is_rounded((p31 - p13) * (p31 - p13), s2),
        is_rounded((p12 - p21) * (p12 - p21), s3),
        is_rounded(a1 * a1, u1) && is_rounded(a2 * a2, u2) && is_rounded(a3 * a3, u3),
        is_rounded(b1 * b1, v1) && is_rounded(b2 * b2, v2) && is_rounded(b3 * b3, v3),
        is_rounded(a1 * b1, w1) && is_rounded(a2 * b2, w2) && is_rounded(a3 * b3, w3),
        is_rounded((u1 + u2 + u3) * (v1 + v2 + v3), t1),
        is_rounded((w1 + w2 + w3) * (w1 + w2 + w3), t2),
    ensures
        -6_002 <= (s1 + s2 + s3) - (t1 - t2) <= 6_002,
{
    let s = SCALE as int;
    let big = 100_000_000_000_000_000_000int;
    let c1 = p23 - p32;
    let c2 = p31 - p13;
    let c3 = p12 - p21;
    let cc = s1 + s2 + s3;
    let aa = u1 + u2 + u3;
    let bb = v1 + v2 + v3;
    let ab = w1 + w2 + w3;
    // The exact products.
    let e1 = a2 * b3 - a3 * b2;
    let e2 = a3 * b1 - a1 * b3;
    let e3 = a1 * b2 - a2 * b1;
    let sa = a1 * a1 + a2 * a2 + a3 * a3;
    let sb = b1 * b1 + b2 * b2 + b3 * b3;
    let sab = a1 * b1 + a2 * b2 + a3 * b3;
    lemma_product_bounded(a2, b3, FACTOR_MAX as int, FACTOR_MAX as int);
    lemma_product_bounded(a3, b2, FACTOR_MAX as int, FACTOR_MAX as int);
    lemma_product_bounded(a3, b1, FACTOR_MAX as int, FACTOR_MAX as int);
    lemma_product_bounded(a1, b3, FACTOR_MAX as int, FACTOR_MAX as int);
    lemma_product_bounded(a1, b2, FACTOR_MAX as int, FACTOR_MAX as int);
    lemma_product_bounded(a2, b1, FACTOR_MAX as int, FACTOR_MAX as int);
    lemma_product_bounded(a1, a1, FACTOR_MAX as int, FACTOR_MAX as int);
    lemma_product_bounded(a2, a2, FACTOR_MAX as int, FACTOR_MAX as int);
    lemma_product_bounded(a3, a3, FACTOR_MAX as int, FACTOR_MAX as int);
    lemma_product_bounded(b1, b1, FACTOR_MAX as int, FACTOR_MAX as int);
    lemma_product_bounded(b2, b2, FACTOR_MAX as int, FACTOR_MAX as int);
    lemma_product_bounded(b3, b3, FACTOR_MAX as int, FACTOR_MAX as int);
    lemma_product_bounded(a1, b1, FACTOR_MAX as int, FACTOR_MAX as int);
    lemma_product_bounded(a2, b2, FACTOR_MAX as int, FACTOR_MAX as int);
    lemma_product_bounded(a3, b3, FACTOR_MAX as int, FACTOR_MAX as int);
    assert(FACTOR_MAX * FACTOR_MAX == big);
    assert(a1 * a1 >= 0 && a2 * a2 >= 0 && a3 * a3 >= 0 && b1 * b1 >= 0 && b2 * b2 >= 0 && b3 * b3
        >= 0) by (nonlinear_arith);
    assert(-2 * big <= e1 <= 2 * big && -2 * big <= e2 <= 2 * big && -2 * big <= e3 <= 2 * big);
    assert(0 <= sa <= 3 * big && 0 <= sb <= 3 * big && -3 * big <= sab <= 3 * big);
    // The cross product, scaled, and how far it is off.
    let x1 = s * c1;
    let x2 = s * c2;
    let x3 = s * c3;
    let d1 = x1 - e1;
    let d2 = x2 - e2;
    let d3 = x3 - e3;
    assert(x1 == s * p23 - s * p32 && x2 == s * p31 - s * p13 && x3 == s * p12 - s * p21)
        by (nonlinear_arith)
        requires
            x1 == s * c1,
            x2 == s * c2,
            x3 == s * c3,
            c1 == p23 - p32,
            c2 == p31 - p13,
            c3 == p12 - p21,
    ;
    assert(-2 * s < d1 < 2 * s && -2 * s < d2 < 2 * s && -2 * s < d3 < 2 * s);
    lemma_square_with_error(e1, d1, 2 * big, 2 * s);
    lemma_square_with_error(e2, d2, 2 * big, 2 * s);
    lemma_square_with_error(e3, d3, 2 * big, 2 * s);
    let g = e1 * e1 + e2 * e2 + e3 * e3;
    let xx = x1 * x1 + x2 * x2 + x3 * x3;
    assert((2 * big) * (2 * s) == 4 * big * s && (2 * s) * (2 * s) == 4 * s * s)
        by (nonlinear_arith);
    assert(-3 * (8 * big * s) <= xx - g <= 3 * (8 * big * s + 4 * s * s));
    lemma_lagrange(a1, a2, a3, b1, b2, b3);
    assert(g == sa * sb - sab * sab);
    // The squared length of the cross product.
    let cq = c1 * c1 + c2 * c2 + c3 * c3;
    assert(x1 * x1 == (s * s) * (c1 * c1) && x2 * x2 == (s * s) * (c2 * c2) && x3 * x3 == (s * s)
        * (c3 * c3)) by (nonlinear_arith)
        requires
            x1 == s * c1,
            x2 == s * c2,
            x3 == s * c3,
    ;
    assert(xx == (s * s) * cq) by (nonlinear_arith)
        requires
            xx == x1 * x1 + x2 * x2 + x3 * x3,
            cq == c1 * c1 + c2 * c2 + c3 * c3,
            x1 * x1 == (s * s) * (c1 * c1),
            x2 * x2 == (s * s) * (c2 * c2),
            x3 * x3 == (s * s) * (c3 * c3),
    ;
    assert(c1 * c1 >= 0 && c2 * c2 >= 0 && c3 * c3 >= 0) by (nonlinear_arith);
    let rho = cq - s * cc;
    assert(0 <= rho < 3 * s);
    assert((s * s) * (s * cc) == (s * s) * cq - (s * s) * rho) by (nonlinear_arith)
        requires
            rho == cq - s * cc,
    ;
    // The product of the squared lengths.
    let alpha = sa - s * aa;
    let beta = sb - s * bb;
    let gamma = sab - s * ab;
    assert(0 <= alpha < 3 * s && 0 <= beta < 3 * s && -3 * s < gamma < 3 * s);
    let tau1 = aa * bb - s * t1;
    let tau2 = ab * ab - s * t2;
    assert(-s < tau1 < s && -s < tau2 < s);
    assert((s * aa) * (s * bb) == (s * s) * (aa * bb) && (s * ab) * (s * ab) == (s * s) * (ab
        * ab)) by (nonlinear_arith);
    assert((s * s) * (aa * bb) == (s * s) * (s * t1) + (s * s) * tau1) by (nonlinear_arith)
        requires
            tau1 == aa * bb - s * t1,
    ;
    assert((s * s) * (ab * ab) == (s * s) * (s * t2) + (s * s) * tau2) by (nonlinear_arith)
        requires
            tau2 == ab * ab - s * t2,
    ;
    assert((sa - alpha) * (sb - beta) == sa * sb - alpha * sb - beta * sa + alpha * beta)
        by (nonlinear_arith);
    assert((sab - gamma) * (sab - gamma) == sab * sab - 2 * (gamma * sab) + gamma * gamma)
        by (nonlinear_arith);
    lemma_product_bounded(alpha, sb, 3 * s, 3 * big);
    lemma_product_bounded(beta, sa, 3 * s, 3 * big);
    lemma_product_bounded(alpha, beta, 3 * s, 3 * s);
    lemma_product_bounded(gamma, sab, 3 * s, 3 * big);
    lemma_product_bounded(gamma, gamma, 3 * s, 3 * s);
    assert((3 * s) * (3 * big) == 9 * big * s && (3 * s) * (3 * s) == 9 * s * s)
        by (nonlinear_arith);
    assert(alpha * sb >= 0 && beta * sa >= 0 && alpha * beta >= 0 && gamma * gamma >= 0)
        by (nonlinear_arith)
        requires
            alpha >= 0,
            beta >= 0,
            sa >= 0,
            sb >= 0,
    ;
    // Together.
    let sss = (s * s) * s;
    let diff = cc - (t1 - t2);
    assert((s * s) * (s * cc) == sss * cc && (s * s) * (s * t1) == sss * t1 && (s * s) * (s * t2)
        == sss * t2) by (nonlinear_arith)
        requires
            sss == (s * s) * s,
    ;
    assert(sss * diff == sss * cc - sss * t1 + sss * t2) by (nonlinear_arith)
        requires
            diff == cc - (t1 - t2),
    ;
    assert(s * aa == sa - alpha && s * bb == sb - beta && s * ab == sab - gamma);
    let total = sss * diff;
    assert(total == (xx - g) - (s * s) * rho + alpha * sb + beta * sa - alpha * beta - 2 * (gamma
        * sab) + gamma * gamma + (s * s) * tau1 - (s * s) * tau2);
    assert(big == 100 * (s * s));
    assert(0 <= (s * s) * rho <= 3 * sss && -sss <= (s * s) * tau1 <= sss && -sss <= (s * s)
        * tau2 <= sss) by (nonlinear_arith)
        requires
            0 <= rho < 3 * s,
            -s < tau1 < s,
            -s < tau2 < s,
            sss == (s * s) * s,
            s > 0,
    ;
    assert(big * s == 100 * sss) by (nonlinear_arith)
        requires
            big == 100 * (s * s),
            sss == (s * s) * s,
    ;
    assert(s * s <= sss) by (nonlinear_arith)
        requires
            sss == (s * s) * s,
            s >= 1,
    ;
    assert(-6_002 * sss <= total <= 6_002 * sss);
    assert(-6_002 <= diff <= 6_002) by (nonlinear_arith)
        requires
            -6_002 * sss <= sss * diff <= 6_002 * sss,
            sss > 0,
    ;
}

/// The square of a number that is a little off.
proof fn lemma_square_with_error(e: int, d: int, bound_e: int, bound_d: int)
    requires
        -bound_e <= e <= bound_e,
        -bound_d <= d <= bound_d,
    ensures
        -2 * (bound_e * bound_d) <= (e + d) * (e + d) - e * e <= 2 * (bound_e * bound_d) + bound_d
            * bound_d,
{
    let ed = e * d;
    let dd = d * d;
    let limit = bound_e * bound_d;
    let square = bound_d * bound_d;
    assert((e + d) * (e + d) - e * e == 2 * ed + dd) by (nonlinear_arith)
        requires
            ed == e * d,
            dd == d * d,
    ;
    lemma_product_bounded(e, d, bound_e, bound_d);
    lemma_product_bounded(d, d, bound_d, bound_d);
    assert(dd >= 0) by (nonlinear_arith)
        requires
            dd == d * d,
    ;
    assert(-limit <= ed <= limit && dd <= square);
    assert(-2 * limit <= 2 * ed + dd <= 2 * limit + square);
}

/// For vectors with components up to ten, the cross product obeys
/// Lagrange's identity `|a x b|^2 = |a|^2 |b|^2 - (a . b)^2`, the square of
/// `|a x b| = |a| |b| sin(angle)`, up to rounding: the two sides differ by
/// at most 6 002 raw units.
pub proof fn lemma_cross_length_rounded(a: Vector, b: Vector)
    requires
        is_small(a),
        is_small(b),
    ensures
        -6_002 <= a.cross_spec(&b).length_squared_spec().raw - a.length_squared_spec().times(
            b.length_squared_spec(),
        ).minus(a.dot_spec(&b).times(a.dot_spec(&b))).raw <= 6_002,
{
    let m = FACTOR_MAX as int;
    let n = 200_000_000_000int;
    let l = 300_000_000_000int;
    assert(m * m == 100_000_000_000_000_000_000 && n * n
        == 40_000_000_000_000_000_000_000 && l * l == 90_000_000_000_000_000_000_000);
    // The cross product.
    lemma_times_rounded(a.y(), b.z(), m, m);
    lemma_times_rounded(a.z(), b.y(), m, m);
    lemma_times_rounded(a.z(), b.x(), m, m);
    lemma_times_rounded(a.x(), b.z(), m, m);
    lemma_times_rounded(a.x(), b.y(), m, m);
    lemma_times_rounded(a.y(), b.x(), m, m);
    let p23 = a.y().times(b.z()).raw as int;
    let p32 = a.z().times(b.y()).raw as int;
    let p31 = a.z().times(b.x()).raw as int;
    let p13 = a.x().times(b.z()).raw as int;
    let p12 = a.x().times(b.y()).raw as int;
    let p21 = a.y().times(b.x()).raw as int;
    let c = a.cross_spec(&b);
    assert(c.x().raw == p23 - p32 && c.y().raw == p31 - p13 && c.z().raw == p12 - p21);
    lemma_times_rounded(c.x(), c.x(), n, n);
    lemma_times_rounded(c.y(), c.y(), n, n);
    lemma_times_rounded(c.z(), c.z(), n, n);
    let s1 = c.x().times(c.x()).raw as int;
    let s2 = c.y().times(c.y()).raw as int;
    let s3 = c.z().times(c.z()).raw as int;
    assert(c.length_squared_spec().raw == s1 + s2 + s3);
    // The squared lengths and the dot product.
    lemma_times_rounded(a.x(), a.x(), m, m);
    lemma_times_rounded(a.y(), a.y(), m, m);
    lemma_times_rounded(a.z(), a.z(), m, m);
    lemma_times_rounded(b.x(), b.x(), m, m);
    lemma_times_rounded(b.y(), b.y(), m, m);
    lemma_times_rounded(b.z(), b.z(), m, m);
    lemma_times_rounded(a.x(), b.x(), m, m);
    lemma_times_rounded(a.y(), b.y(), m, m);
    lemma_times_rounded(a.z(), b.z(), m, m);
    let u1 = a.x().times(a.x()).raw as int;
    let u2 = a.y().times(a.y()).raw as int;
    let u3 = a.z().times(a.z()).raw as int;
    let v1 = b.x().times(b.x()).raw as int;
    let v2 = b.y().times(b.y()).raw as int;
    let v3 = b.z().times(b.z()).raw as int;
    let w1 = a.x().times(b.x()).raw as int;
    let w2 = a.y().times(b.y()).raw as int;
    let w3 = a.z().times(b.z()).raw as int;
    let aa = a.length_squared_spec();
    let bb = b.length_squared_spec();
    let ab = a.dot_spec(&b);
    assert(aa.raw == u1 + u2 + u3 && bb.raw == v1 + v2 + v3 && ab.raw == w1 + w2 + w3);
    lemma_times_rounded(aa, bb, l, l);
    lemma_times_rounded(ab, ab, l, l);
    let t1 = aa.times(bb).raw as int;
    let t2 = ab.times(ab).raw as int;
    assert(aa.times(bb).minus(ab.times(ab)).raw == t1 - t2);
    lemma_lagrange_rounded(
        a.x().raw as int,
        a.y().raw as int,
        a.z().raw as int,
        b.x().raw as int,
        b.y().raw as int,
        b.z().raw as int,
        p23,
        p32,
        p31,
        p13,
        p12,
        p21,
        s1,
        s2,
        s3,
        u1,
        u2,
        u3,
        v1,
        v2,
        v3,
        w1,
        w2,
        w3,
        t1,
        t2,
    );
}

/// A dot product with a vector at right angles, up to rounding, on plain
/// integers: the `e` are exactly at right angles to the `a`, the `c` times
/// the scale are less than two scales off the `e`, and the `z` are the
/// rounded products of the `c` and the `a`.
proof fn lemma_right_angle_rounded(
    a1: int, a2: int, a3: int,
    e1: int, e2: int, e3: int,
    c1: int, c2: int, c3: int,
    z1: int, z2: int, z3: int,
)
    requires
        -FACTOR_MAX <= a1 <= FACTOR_MAX && -FACTOR_MAX <= a2 <= FACTOR_MAX && -FACTOR_MAX <= a3
            <= FACTOR_MAX,
        e1 * a1 + e2 * a2 + e3 * a3 == 0,
        -2 * SCALE < SCALE * c1 - e1 < 2 * SCALE,
        -2 * SCALE < SCALE * c2 - e2 < 2 * SCALE,
        -2 * SCALE < SCALE * c3 - e3 < 2 * SCALE,
        is_rounded(c1 * a1, z1) && is_rounded(c2 * a2, z2) && is_rounded(c3 * a3, z3),
    ensures
        -62 <= z1 + z2 + z3 <= 62,
{
    let s = SCALE as int;
    let d1 = s * c1 - e1;
    let d2 = s * c2 - e2;
    let d3 = s * c3 - e3;
    let sum = z1 + z2 + z3;
    lemma_product_bounded(d1, a1, 2 * s, FACTOR_MAX as int);
    lemma_product_bounded(d2, a2, 2 * s, FACTOR_MAX as int);
    lemma_product_bounded(d3, a3, 2 * s, FACTOR_MAX as int);
    assert((2 * s) * FACTOR_MAX == 20 * (s * s)) by (nonlinear_arith)
        requires
            FACTOR_MAX == 10 * s,
    ;
    assert(d1 * a1 == s * (c1 * a1) - e1 * a1 && d2 * a2 == s * (c2 * a2) - e2 * a2 && d3 * a3
        == s * (c3 * a3) - e3 * a3) by (nonlinear_arith)
        requires
            d1 == s * c1 - e1,
            d2 == s * c2 - e2,
            d3 == s * c3 - e3,
    ;
    let zeta = (c1 * a1 - s * z1) + (c2 * a2 - s * z2) + (c3 * a3 - s * z3);
    assert(-3 * s < zeta < 3 * s);
    assert(s * (s * sum) == s * (c1 * a1) + s * (c2 * a2) + s * (c3 * a3) - s * zeta)
        by (nonlinear_arith)
        requires
            sum == z1 + z2 + z3,
            zeta == (c1 * a1 - s * z1) + (c2 * a2 - s * z2) + (c3 * a3 - s * z3),
    ;
    assert(-3 * (s * s) < s * zeta < 3 * (s * s)) by (nonlinear_arith)
        requires
            -3 * s < zeta < 3 * s,
            s > 0,
    ;
    assert(-63 * (s * s) < s * (s * sum) < 63 * (s * s));
    assert(-62 <= sum <= 62) by (nonlinear_arith)
        requires
            -63 * (s * s) < s * (s * sum) < 63 * (s * s),
            s > 0,
    ;
}

/// For vectors with components up to ten, the cross product is at right
/// angles to both, up to rounding: its dot product with either is at most 62
/// raw units away from zero.
pub proof fn lemma_cross_right_angle_rounded(a: Vector, b: Vector)
    requires
        is_small(a),
        is_small(b),
    ensures
        -62 <= a.cross_spec(&b).dot_spec(&a).raw <= 62,
        -62 <= a.cross_spec(&b).dot_spec(&b).raw <= 62,
{
    let m = FACTOR_MAX as int;
    let n = 200_000_000_000int;
    assert(m * m == 100_000_000_000_000_000_000 && n * m == 2_000_000_000_000_000_000_000);
    lemma_times_rounded(a.y(), b.z(), m, m);
    lemma_times_rounded(a.z(), b.y(), m, m);
    lemma_times_rounded(a.z(), b.x(), m, m);
    lemma_times_rounded(a.x(), b.z(), m, m);
    lemma_times_rounded(a.x(), b.y(), m, m);
    lemma_times_rounded(a.y(), b.x(), m, m);
    let (a1, a2, a3) = (a.x().raw as int, a.y().raw as int, a.z().raw as int);
    let (b1, b2, b3) = (b.x().raw as int, b.y().raw as int, b.z().raw as int);
    let c = a.cross_spec(&b);
    let (c1, c2, c3) = (c.x().raw as int, c.y().raw as int, c.z().raw as int);
    let e1 = a2 * b3 - a3 * b2;
    let e2 = a3 * b1 - a1 * b3;
    let e3 = a1 * b2 - a2 * b1;
    assert(c1 == a.y().times(b.z()).raw - a.z().times(b.y()).raw);
    assert(c2 == a.z().times(b.x()).raw - a.x().times(b.z()).raw);
    assert(c3 == a.x().times(b.y()).raw - a.y().times(b.x()).raw);
    assert(-2 * SCALE < SCALE * c1 - e1 < 2 * SCALE);
    assert(-2 * SCALE < SCALE * c2 - e2 < 2 * SCALE);
    assert(-2 * SCALE < SCALE * c3 - e3 < 2 * SCALE);
    assert(e1 * a1 + e2 * a2 + e3 * a3 == 0) by (nonlinear_arith)
        requires
            e1 == a2 * b3 - a3 * b2,
            e2 == a3 * b1 - a1 * b3,
            e3 == a1 * b2 - a2 * b1,
    ;
    assert(e1 * b1 + e2 * b2 + e3 * b3 == 0) by (nonlinear_arith)
        requires
            e1 == a2 * b3 - a3 * b2,
            e2 == a3 * b1 - a1 * b3,
            e3 == a1 * b2 - a2 * b1,
    ;
    lemma_times_rounded(c.x(), a.x(), n, m);
    lemma_times_rounded(c.y(), a.y(), n, m);
    lemma_times_rounded(c.z(), a.z(), n, m);
    lemma_times_rounded(c.x(), b.x(), n, m);
    lemma_times_rounded(c.y(), b.y(), n, m);
    lemma_times_rounded(c.z(), b.z(), n, m);
    lemma_right_angle_rounded(
        a1,
        a2,
        a3,
        e1,
        e2,
        e3,
        c1,
        c2,
        c3,
        c.x().times(a.x()).raw as int,
        c.y().times(a.y()).raw as int,
        c.z().times(a.z()).raw as int,
    );
    lemma_right_angle_rounded(
        b1,
        b2,
        b3,
        e1,
        e2,
        e3,
        c1,
        c2,
        c3,
        c.x().times(b.x()).raw as int,
        c.y().times(b.y()).raw as int,
        c.z().times(b.z()).raw as int,
    );
}

/// Largest magnitude, in raw units, of a component of the offset of a ray's
/// origin from a sphere's center for which the hit point is bounded: a
/// hundred.
pub const OFFSET_MAX: i64 = 100_000_000_000;

/// Largest magnitude, in raw units, of a component of a ray's direction for
/// which the hit point is bounded: two.
pub const DIRECTION_MAX: i64 = 2_000_000_000;

/// Smallest squared length of a ray's direction, in raw units, for which the
/// hit point is bounded: a quarter.
pub const DIRECTION_MIN: i64 = 250_000_000;

/// Largest magnitude, in raw units, of a hit's parameter for which the hit
/// point is bounded: fifty.
pub const PARAMETER_MAX: i64 = 50_000_000_000;

/// How far the square of the distance of a hit point from the center can be
/// from the square of the radius, in squared raw units.
pub open spec fn surface_error() -> int {
    22_000_000_000_000
}

/// The distance of a hit point from the center of its sphere, on plain
/// integers: the `o` are the offset of the origin from the center, the `d`
/// the direction, `a`, `hb`, `c` the coefficients of the equation as they
/// are computed, `disc` a quarter of its discriminant, `sq` the root of
/// that, `num` the numerator of the root `t`, and the `m` the components of
/// `t` times the direction. The hit point is about one radius from the
/// center.
proof fn lemma_hit_point_bound(
    o1: int, o2: int, o3: int,
    d1: int, d2: int, d3: int,
    rad: int,
    a: int, hb: int, c: int, disc: int, sq: int, num: int, t: int,
    m1: int, m2: int, m3: int,
)
    requires
        -OFFSET_MAX <= o1 <= OFFSET_MAX && -OFFSET_MAX <= o2 <= OFFSET_MAX && -OFFSET_MAX <= o3
            <= OFFSET_MAX,
        -DIRECTION_MAX <= d1 <= DIRECTION_MAX && -DIRECTION_MAX <= d2 <= DIRECTION_MAX
            && -DIRECTION_MAX <= d3 <= DIRECTION_MAX,
        a >= DIRECTION_MIN,
        -PARAMETER_MAX <= t <= PARAMETER_MAX,
        0 <= (d1 * d1 + d2 * d2 + d3 * d3) - SCALE * a < 3 * SCALE,
        -3 * SCALE < (o1 * d1 + o2 * d2 + o3 * d3) - SCALE * hb < 3 * SCALE,
        -SCALE < (o1 * o1 + o2 * o2 + o3 * o3 - rad * rad) - SCALE * c < 3 * SCALE,
        -SCALE < hb * hb - a * c - SCALE * disc < 2 * SCALE,
        0 <= sq,
        sq * sq <= disc * SCALE <= sq * sq + 2 * sq,
        num == -hb - sq || num == -hb + sq,
        -a < num * SCALE - a * t < a,
        -SCALE < d1 * t - SCALE * m1 < SCALE,
        -SCALE < d2 * t - SCALE * m2 < SCALE,
        -SCALE < d3 * t - SCALE * m3 < SCALE,
    ensures
        -surface_error() <= (o1 + m1) * (o1 + m1) + (o2 + m2) * (o2 + m2) + (o3 + m3) * (o3 + m3)
            - rad * rad <= surface_error(),
        -100_000_000_001 <= m1 <= 100_000_000_001,
        -100_000_000_001 <= m2 <= 100_000_000_001,
        -100_000_000_001 <= m3 <= 100_000_000_001,
{
    let s = SCALE as int;
    let ss = s * s;
    let sss = ss * s;
    let bo = OFFSET_MAX as int;
    let bd = DIRECTION_MAX as int;
    let tm = PARAMETER_MAX as int;
    assert(ss == 1_000_000_000_000_000_000 && sss == 1_000_000_000_000_000_000_000_000_000);
    let osq = o1 * o1 + o2 * o2 + o3 * o3;
    let od = o1 * d1 + o2 * d2 + o3 * d3;
    let dd = d1 * d1 + d2 * d2 + d3 * d3;
    let alpha = dd - s * a;
    let gamma = od - s * hb;
    let kappa = (osq - rad * rad) - s * c;
    let eta = hb * hb - a * c - s * disc;
    let sigma = disc * s - sq * sq;
    let theta = num * s - a * t;
    let w1 = d1 * t - s * m1;
    let w2 = d2 * t - s * m2;
    let w3 = d3 * t - s * m3;
    // How large the quantities are.
    lemma_product_bounded(d1, d1, bd, bd);
    lemma_product_bounded(d2, d2, bd, bd);
    lemma_product_bounded(d3, d3, bd, bd);
    lemma_product_bounded(o1, d1, bo, bd);
    lemma_product_bounded(o2, d2, bo, bd);
    lemma_product_bounded(o3, d3, bo, bd);
    lemma_product_bounded(d1, t, bd, tm);
    lemma_product_bounded(d2, t, bd, tm);
    lemma_product_bounded(d3, t, bd, tm);
    assert(bd * bd == 4_000_000_000_000_000_000 && bo * bd == 200_000_000_000_000_000_000 && bd
        * tm == 100_000_000_000_000_000_000);
    assert(a <= 12_000_000_000);
    assert(-600_000_000_003 <= hb <= 600_000_000_003);
    assert(-100_000_000_001 <= m1 <= 100_000_000_001 && -100_000_000_001 <= m2
        <= 100_000_000_001 && -100_000_000_001 <= m3 <= 100_000_000_001);
    let u = a * t;
    lemma_product_bounded(a, t, 12_000_000_000, tm);
    assert(12_000_000_000 * tm == 600_000_000_000_000_000_000);
    assert(-600_000_000_013 <= num <= 600_000_000_013);
    let v = hb + num;
    assert(v == sq || v == -sq);
    assert(sq <= 1_200_000_000_016);
    assert(v * v == sq * sq) by (nonlinear_arith)
        requires
            v == sq || v == -sq,
    ;
    // The main part of the error, times `a`.
    let thb = t * hb;
    let att = a * (t * t);
    let main = sss * c + 2 * (ss * thb) + s * att;
    let ac = a * c;
    let nh = num * hb;
    let nn = num * num;
    let hh = hb * hb;
    let qq = sq * sq;
    let tv = theta * v;
    let tt = theta * theta;
    assert(a * att == u * u && a * thb == u * hb) by (nonlinear_arith)
        requires
            att == a * (t * t),
            thb == t * hb,
            u == a * t,
    ;
    assert(u * hb == s * nh - theta * hb && u * u == ss * nn - 2 * (s * (num * theta)) + tt)
        by (nonlinear_arith)
        requires
            u == num * s - theta,
            nh == num * hb,
            nn == num * num,
            tt == theta * theta,
            ss == s * s,
    ;
    assert(v * v == hh + 2 * nh + nn && tv == theta * hb + num * theta) by (nonlinear_arith)
        requires
            v == hb + num,
            hh == hb * hb,
            nh == num * hb,
            nn == num * num,
            tv == theta * v,
    ;
    lemma_scale_product(sss, a, c);
    lemma_scale_product(ss, a, thb);
    lemma_scale_product(s, a, att);
    lemma_distribute(a, sss * c, 2 * (ss * thb), s * att);
    assert(a * (2 * (ss * thb)) == 2 * (a * (ss * thb))) by (nonlinear_arith);
    assert(a * main == sss * ac + 2 * (ss * (a * thb)) + s * (a * att));
    assert(ac == hh - s * disc - eta);
    assert(s * disc == qq + sigma);
    assert(a * main == -(sss * (sigma + eta)) - 2 * (ss * tv) + s * tt);
    lemma_product_bounded(theta, v, a, sq);
    lemma_product_bounded(theta, theta, a, a);
    assert(tt >= 0) by (nonlinear_arith)
        requires
            tt == theta * theta,
    ;
    let asq = a * sq;
    let asqr = a * a;
    assert(-asq <= tv <= asq && 0 <= tt <= asqr);
    assert(0 <= sigma <= 2 * sq && -s < eta < 2 * s);
    // Divided by `a`.
    let part = 12_208_000_000_200int;
    assert(asq <= a * 1_200_000_000_016 && asqr <= a * 12_000_000_000) by (nonlinear_arith)
        requires
            asq == a * sq,
            asqr == a * a,
            0 <= sq <= 1_200_000_000_016,
            0 < a <= 12_000_000_000,
    ;
    assert(sss * (2 * sq + 2 * s) <= (a * 9_768_000_000_200) * ss) by (nonlinear_arith)
        requires
            0 <= sq <= 1_200_000_000_016,
            a >= 250_000_000,
            s == 1_000_000_000,
            ss == s * s,
            sss == ss * s,
    ;
    assert(-((a * part) * ss) <= a * main <= (a * part) * ss) by (nonlinear_arith)
        requires
            a * main == -(sss * (sigma + eta)) - 2 * (ss * tv) + s * tt,
            0 <= sigma <= 2 * sq,
            -s < eta < 2 * s,
            -asq <= tv <= asq,
            0 <= tt <= asqr,
            asq <= a * 1_200_000_000_016,
            asqr <= a * 12_000_000_000,
            sss * (2 * sq + 2 * s) <= (a * 9_768_000_000_200) * ss,
            part == 12_208_000_000_200,
            s == 1_000_000_000,
            ss == s * s,
            sss == ss * s,
            a > 0,
    ;
    assert(-(part * ss) <= main <= part * ss) by (nonlinear_arith)
        requires
            -((a * part) * ss) <= a * main <= (a * part) * ss,
            a > 0,
    ;
    // The rest of the error.
    let y1 = s * o1 + d1 * t;
    let y2 = s * o2 + d2 * t;
    let y3 = s * o3 + d3 * t;
    let n1 = o1 + m1;
    let n2 = o2 + m2;
    let n3 = o3 + m3;
    assert(s * n1 == y1 - w1 && s * n2 == y2 - w2 && s * n3 == y3 - w3);
    let total = n1 * n1 + n2 * n2 + n3 * n3;
    assert(ss * (n1 * n1) == (y1 - w1) * (y1 - w1) && ss * (n2 * n2) == (y2 - w2) * (y2 - w2) && ss
        * (n3 * n3) == (y3 - w3) * (y3 - w3)) by (nonlinear_arith)
        requires
            s * n1 == y1 - w1,
            s * n2 == y2 - w2,
            s * n3 == y3 - w3,
            ss == s * s,
    ;
    assert((y1 - w1) * (y1 - w1) == y1 * y1 - 2 * (w1 * y1) + w1 * w1 && (y2 - w2) * (y2 - w2) == y2
        * y2 - 2 * (w2 * y2) + w2 * w2 && (y3 - w3) * (y3 - w3) == y3 * y3 - 2 * (w3 * y3) + w3
        * w3) by (nonlinear_arith);
    let tsq = t * t;
    lemma_ray_square(o1, d1, t);
    lemma_ray_square(o2, d2, t);
    lemma_ray_square(o3, d3, t);
    assert(y1 * y1 == ss * (o1 * o1) + 2 * (s * (t * (o1 * d1))) + tsq * (d1 * d1));
    assert(y2 * y2 == ss * (o2 * o2) + 2 * (s * (t * (o2 * d2))) + tsq * (d2 * d2));
    assert(y3 * y3 == ss * (o3 * o3) + 2 * (s * (t * (o3 * d3))) + tsq * (d3 * d3));
    assert(t * od == t * (o1 * d1) + t * (o2 * d2) + t * (o3 * d3) && tsq * dd == tsq * (d1 * d1)
        + tsq * (d2 * d2) + tsq * (d3 * d3)) by (nonlinear_arith)
        requires
            od == o1 * d1 + o2 * d2 + o3 * d3,
            dd == d1 * d1 + d2 * d2 + d3 * d3,
    ;
    let yy = y1 * y1 + y2 * y2 + y3 * y3;
    assert(yy == ss * osq + 2 * (s * (t * od)) + tsq * dd);
    assert(t * od == s * thb + t * gamma && tsq * dd == s * att + tsq * alpha) by (nonlinear_arith)
        requires
            od == s * hb + gamma,
            dd == s * a + alpha,
            thb == t * hb,
            att == a * (t * t),
            tsq == t * t,
    ;
    assert(osq == s * c + rad * rad + kappa);
    assert(yy == main + ss * (rad * rad) + ss * kappa + 2 * (s * (t * gamma)) + tsq * alpha);
    let wy = w1 * y1 + w2 * y2 + w3 * y3;
    let ww = w1 * w1 + w2 * w2 + w3 * w3;
    assert(ss * total == yy - 2 * wy + ww);
    // How large the rest is.
    lemma_product_bounded(t, gamma, tm, 3 * s);
    lemma_product_bounded(t, t, tm, tm);
    assert(tsq >= 0) by (nonlinear_arith)
        requires
            tsq == t * t,
    ;
    lemma_product_bounded(tsq, alpha, tm * tm, 3 * s);
    assert(tsq * alpha >= 0) by (nonlinear_arith)
        requires
            tsq >= 0,
            alpha >= 0,
    ;
    assert(tm * (3 * s) == 150_000_000_000_000_000_000 && (tm * tm) * (3 * s)
        == 7_500_000_000_000_000_000_000_000_000_000);
    let ymax = 200_000_000_000_000_000_000int;
    assert(-ymax <= y1 <= ymax && -ymax <= y2 <= ymax && -ymax <= y3 <= ymax);
    lemma_product_bounded(w1, y1, s, ymax);
    lemma_product_bounded(w2, y2, s, ymax);
    lemma_product_bounded(w3, y3, s, ymax);
    lemma_product_bounded(w1, w1, s, s);
    lemma_product_bounded(w2, w2, s, s);
    lemma_product_bounded(w3, w3, s, s);
    assert(w1 * w1 >= 0 && w2 * w2 >= 0 && w3 * w3 >= 0) by (nonlinear_arith);
    assert(s * ymax == 200_000_000_000_000_000_000_000_000_000);
    let rest = ss * total - ss * (rad * rad) - main;
    assert(rest == ss * kappa + 2 * (s * (t * gamma)) + tsq * alpha - 2 * wy + ww);
    assert(-(9_100_000_000_000 * ss) <= rest <= 9_100_000_000_000 * ss);
    let gap = total - rad * rad;
    assert(ss * gap == main + rest);
    assert(-(22_000_000_000_000 * ss) <= ss * gap <= 22_000_000_000_000 * ss);
}

/// A factor can be moved out of a product.
proof fn lemma_scale_product(k: int, x: int, y: int)
    ensures
        x * (k * y) == k * (x * y),
{
    assert(x * (k * y) == k * (x * y)) by (nonlinear_arith);
}

/// A product with a sum of three is the sum of the products.
proof fn lemma_distribute(x: int, p: int, q: int, r: int)
    ensures
        x * (p + q + r) == x * p + x * q + x * r,
{
    assert(x * (p + q + r) == x * p + x * q + x * r) by (nonlinear_arith);
}

/// The square of a component of a point on a ray, times the scale.
proof fn lemma_ray_square(o: int, d: int, t: int)
    ensures
        (SCALE * o + d * t) * (SCALE * o + d * t) == (SCALE * SCALE) * (o * o) + 2 * (SCALE * (t
            * (o * d))) + (t * t) * (d * d),
{
    let s = SCALE as int;
    let p = s * o;
    let q = d * t;
    assert((p + q) * (p + q) == p * p + 2 * (p * q) + q * q) by (nonlinear_arith);
    assert(p * p == (s * s) * (o * o)) by (nonlinear_arith)
        requires
            p == s * o,
    ;
    assert(q * q == (t * t) * (d * d)) by (nonlinear_arith)
        requires
            q == d * t,
    ;
    assert(p * q == s * (t * (o * d))) by (nonlinear_arith)
        requires
            p == s * o,
            q == d * t,
    ;
}

/// Largest magnitude, in raw units, of a coordinate of a ray's origin or of a
/// sphere's center, and largest radius, for which the hit point is bounded:
/// a thousand.
pub const PLACE_MAX: i64 = 1_000_000_000_000;

/// A quarter of the discriminant of the equation of a sphere of radius `rad`
/// along a ray in direction `d` that starts `oc` off the center.
pub open spec fn equation_discriminant(oc: Vector, d: Vector, rad: Scalar) -> Scalar {
    let a = d.length_squared_spec();
    let half_b = oc.dot_spec(&d);
    let c = oc.length_squared_spec().minus(rad.times(rad));
    half_b.times(half_b).minus(a.times(c))
}

/// A root of that equation: the larger one where `far` holds, else the
/// smaller one.
pub open spec fn equation_root(oc: Vector, d: Vector, rad: Scalar, far: bool) -> Scalar {
    let a = d.length_squared_spec();
    let half_b = oc.dot_spec(&d);
    let root = equation_discriminant(oc, d, rad).spec_sqrt();
    if far {
        half_b.negated().plus(root).over(a)
    } else {
        half_b.negated().minus(root).over(a)
    }
}

/// Whether a ray from `origin` in direction `d` and a sphere of radius `rad`
/// around `center` are of moderate size, and `t` is a moderate parameter:
/// coordinates and radius up to a thousand, the radius at least one, the
/// origin within a hundred of the center along each axis, the direction
/// between a half and two long along each axis, and `t` up to fifty.
pub open spec fn is_moderate_hit(
    origin: Vector,
    center: Vector,
    d: Vector,
    rad: Scalar,
    t: Scalar,
) -> bool {
    let oc = origin.minus(center);
    &&& magnitude(origin.x().raw as int) <= PLACE_MAX && magnitude(origin.y().raw as int)
        <= PLACE_MAX && magnitude(origin.z().raw as int) <= PLACE_MAX
    &&& magnitude(center.x().raw as int) <= PLACE_MAX && magnitude(center.y().raw as int)
        <= PLACE_MAX && magnitude(center.z().raw as int) <= PLACE_MAX
    &&& magnitude(oc.x().raw as int) <= OFFSET_MAX && magnitude(oc.y().raw as int) <= OFFSET_MAX
        && magnitude(oc.z().raw as int) <= OFFSET_MAX
    &&& magnitude(d.x().raw as int) <= DIRECTION_MAX && magnitude(d.y().raw as int)
        <= DIRECTION_MAX && magnitude(d.z().raw as int) <= DIRECTION_MAX
    &&& d.length_squared_spec().raw >= DIRECTION_MIN
    &&& SCALE <= rad.raw <= PLACE_MAX
    &&& magnitude(t.raw as int) <= PARAMETER_MAX
}

/// The coefficients of the equation, as they are computed, are close to the
/// exact ones.
proof fn lemma_equation_rounded(oc: Vector, d: Vector, rad: Scalar)
    requires
        magnitude(oc.x().raw as int) <= OFFSET_MAX && magnitude(oc.y().raw as int) <= OFFSET_MAX
            && magnitude(oc.z().raw as int) <= OFFSET_MAX,
        magnitude(d.x().raw as int) <= DIRECTION_MAX && magnitude(d.y().raw as int)
            <= DIRECTION_MAX && magnitude(d.z().raw as int) <= DIRECTION_MAX,
        0 <= rad.raw <= PLACE_MAX,
    ensures
        ({
            let (o1, o2, o3) = (oc.x().raw as int, oc.y().raw as int, oc.z().raw as int);
            let (d1, d2, d3) = (d.x().raw as int, d.y().raw as int, d.z().raw as int);
            let a = d.length_squared_spec().raw as int;
            let hb = oc.dot_spec(&d).raw as int;
            let c = oc.length_squared_spec().minus(rad.times(rad)).raw as int;
            let disc = equation_discriminant(oc, d, rad).raw as int;
            &&& 0 <= (d1 * d1 + d2 * d2 + d3 * d3) - SCALE * a < 3 * SCALE
            &&& -3 * SCALE < (o1 * d1 + o2 * d2 + o3 * d3) - SCALE * hb < 3 * SCALE
            &&& -SCALE < (o1 * o1 + o2 * o2 + o3 * o3 - rad.raw * rad.raw) - SCALE * c < 3 * SCALE
            &&& -SCALE < hb * hb - a * c - SCALE * disc < 2 * SCALE
            &&& 0 <= a <= 12_000_000_000
            &&& -600_000_000_003 <= hb <= 600_000_000_003
        }),
{
    let bo = OFFSET_MAX as int;
    let bd = DIRECTION_MAX as int;
    let br = PLACE_MAX as int;
    assert(bd * bd == 4_000_000_000_000_000_000 && bo * bd == 200_000_000_000_000_000_000 && bo
        * bo == 10_000_000_000_000_000_000_000 && br * br
        == 1_000_000_000_000_000_000_000_000);
    lemma_times_rounded(d.x(), d.x(), bd, bd);
    lemma_times_rounded(d.y(), d.y(), bd, bd);
    lemma_times_rounded(d.z(), d.z(), bd, bd);
    lemma_times_rounded(oc.x(), d.x(), bo, bd);
    lemma_times_rounded(oc.y(), d.y(), bo, bd);
    lemma_times_rounded(oc.z(), d.z(), bo, bd);
    lemma_times_rounded(oc.x(), oc.x(), bo, bo);
    lemma_times_rounded(oc.y(), oc.y(), bo, bo);
    lemma_times_rounded(oc.z(), oc.z(), bo, bo);
    lemma_times_rounded(rad, rad, br, br);
    let (o1, o2, o3) = (oc.x().raw as int, oc.y().raw as int, oc.z().raw as int);
    let (d1, d2, d3) = (d.x().raw as int, d.y().raw as int, d.z().raw as int);
    assert(d1 * d1 >= 0 && d2 * d2 >= 0 && d3 * d3 >= 0 && o1 * o1 >= 0 && o2 * o2 >= 0 && o3 * o3
        >= 0 && rad.raw * rad.raw >= 0) by (nonlinear_arith);
    let a = d.length_squared_spec();
    let hb = oc.dot_spec(&d);
    let c = oc.length_squared_spec().minus(rad.times(rad));
    assert(a.raw == d.x().times(d.x()).raw + d.y().times(d.y()).raw + d.z().times(d.z()).raw);
    assert(hb.raw == oc.x().times(d.x()).raw + oc.y().times(d.y()).raw + oc.z().times(
        d.z(),
    ).raw);
    assert(c.raw == oc.x().times(oc.x()).raw + oc.y().times(oc.y()).raw + oc.z().times(
        oc.z(),
    ).raw - rad.times(rad).raw);
    assert(0 <= a.raw <= 12_000_000_000);
    assert(-600_000_000_003 <= hb.raw <= 600_000_000_003);
    assert(-1_000_000_000_000_000 <= c.raw <= 30_000_000_000_000);
    assert(600_000_000_003int * 600_000_000_003int <= 400_000_000_000_000_000_000_000int);
    lemma_times_rounded(hb, hb, 600_000_000_003, 600_000_000_003);
    assert(12_000_000_000int * 1_000_000_000_000_000int
        == 12_000_000_000_000_000_000_000_000int);
    lemma_times_rounded(a, c, 12_000_000_000, 1_000_000_000_000_000);
    assert(hb.raw * hb.raw >= 0) by (nonlinear_arith);
}

/// A vector whose exact squared length is close to the square of a radius
/// is about that radius long.
proof fn lemma_near_radius_from_squares(w: Vector, radius: Scalar)
    requires
        magnitude(w.x().raw as int) <= COMPONENT_MAX,
        magnitude(w.y().raw as int) <= COMPONENT_MAX,
        magnitude(w.z().raw as int) <= COMPONENT_MAX,
        radius.raw >= SCALE,
        -surface_error() <= w.x().raw * w.x().raw + w.y().raw * w.y().raw + w.z().raw * w.z().raw
            - radius.raw * radius.raw <= surface_error(),
    ensures
        is_near_radius(w, radius),
{
    let s = SCALE as int;
    let r = radius.raw as int;
    let g = 22_000int;
    let a = magnitude(w.x().raw as int);
    let b = magnitude(w.y().raw as int);
    let c = magnitude(w.z().raw as int);
    lemma_square_exact(w.x(), COMPONENT_MAX as int);
    lemma_square_exact(w.y(), COMPONENT_MAX as int);
    lemma_square_exact(w.z(), COMPONENT_MAX as int);
    assert((COMPONENT_MAX * COMPONENT_MAX) / s == 100_000_000_000_000_000);
    let qa = w.x().times(w.x()).raw as int;
    let qb = w.y().times(w.y()).raw as int;
    let qc = w.z().times(w.z()).raw as int;
    let squared = w.length_squared_spec();
    assert(squared.raw == qa + qb + qc);
    lemma_sqrt_bounds(squared);
    let len = w.len_spec().raw as int;
    let n2 = a * a + b * b + c * c;
    assert(w.x().raw * w.x().raw == a * a && w.y().raw * w.y().raw == b * b && w.z().raw
        * w.z().raw == c * c) by (nonlinear_arith)
        requires
            a == w.x().raw || a == -w.x().raw,
            b == w.y().raw || b == -w.y().raw,
            c == w.z().raw || c == -w.z().raw,
    ;
    let l2 = qa + qb + qc;
    assert(s * l2 == s * qa + s * qb + s * qc) by (nonlinear_arith)
        requires
            l2 == qa + qb + qc,
    ;
    assert(s * l2 <= n2 < s * l2 + 3 * s);
    let rr = r * r;
    assert((r + g) * (r + g) == rr + 2 * (r * g) + g * g && (r - g) * (r - g) == rr - 2 * (r * g)
        + g * g) by (nonlinear_arith)
        requires
            rr == r * r,
    ;
    assert(r * g >= 22_000_000_000_000 && g * g == 484_000_000) by (nonlinear_arith)
        requires
            r >= 1_000_000_000,
            g == 22_000,
    ;
    assert((r - g) * (r - g) <= n2 <= (r + g) * (r + g));
    lemma_square_ordered(900_000_000, r - g);
    assert(n2 >= 810_000_000_000_000_000);
    assert(l2 > 0);
    assert(is_floor_sqrt(l2 * s, len));
    assert(l2 * s == s * l2) by (nonlinear_arith);
    let ll = len * len;
    assert((len + 1) * (len + 1) == ll + 2 * len + 1) by (nonlinear_arith)
        requires
            ll == len * len,
    ;
    assert(ll <= n2 <= ll + 2 * len + 3 * s - 1);
    if len <= 800_000_000 {
        lemma_square_ordered(len, 800_000_000);
    }
    assert(len > 800_000_000);
    assert((len + 200) * (len + 200) == ll + 400 * len + 40_000) by (nonlinear_arith)
        requires
            ll == len * len,
    ;
    if len >= r + g + 1 {
        lemma_square_ordered(r + g + 1, len);
        assert((r + g + 1) * (r + g + 1) > (r + g) * (r + g)) by (nonlinear_arith)
            requires
                r + g >= 0,
        ;
    }
    if len + 200 <= r - g {
        lemma_square_ordered(len + 200, r - g);
    }
    assert(r - g - 200 < len <= r + g);
}

/// Where a ray and a sphere of moderate size meet at a moderate parameter,
/// the point that is computed for the root lies about one radius from the
/// center: the coefficients, the root and the point are each rounded, and
/// the roundings add up to little.
pub proof fn lemma_root_point_near_radius(
    origin: Vector,
    center: Vector,
    d: Vector,
    rad: Scalar,
    far: bool,
)
    requires
        equation_discriminant(origin.minus(center), d, rad).raw >= 0,
        is_moderate_hit(
            origin,
            center,
            d,
            rad,
            equation_root(origin.minus(center), d, rad, far),
        ),
    ensures
        is_near_radius(
            origin.plus(d.scaled(equation_root(origin.minus(center), d, rad, far))).minus(
                center,
            ),
            rad,
        ),
{
    let s = SCALE as int;
    let oc = origin.minus(center);
    lemma_equation_rounded(oc, d, rad);
    let a = d.length_squared_spec();
    let hb = oc.dot_spec(&d);
    let c = oc.length_squared_spec().minus(rad.times(rad));
    let disc = equation_discriminant(oc, d, rad);
    lemma_sqrt_bounds(disc);
    let sq = disc.spec_sqrt();
    if disc.raw == 0 {
        assert(sq.raw == 0);
    }
    assert(sq.raw * sq.raw <= disc.raw * s <= sq.raw * sq.raw + 2 * sq.raw) by {
        if disc.raw > 0 {
            assert((sq.raw + 1) * (sq.raw + 1) == sq.raw * sq.raw + 2 * sq.raw + 1)
                by (nonlinear_arith);
        } else {
            assert(sq.raw * sq.raw == 0 && disc.raw * s == 0) by (nonlinear_arith)
                requires
                    sq.raw == 0,
                    disc.raw == 0,
            ;
        }
    }
    let num = if far {
        hb.negated().plus(sq)
    } else {
        hb.negated().minus(sq)
    };
    assert(far ==> num.raw == -hb.raw + sq.raw);
    assert(!far ==> num.raw == -hb.raw - sq.raw);
    let t = equation_root(oc, d, rad, far);
    assert(t == num.over(a));
    let n = num.raw * s;
    let whole = trunc_div(n, a.raw as int);
    assert(a.raw > 0);
    assert(t.raw == crate::scalar::clamp_raw(whole));
    assert(whole == t.raw);
    if n >= 0 {
        lemma_quotient(n, a.raw as int);
        assert(whole == n / (a.raw as int));
    } else {
        lemma_quotient(-n, a.raw as int);
        let q = (-n) / (a.raw as int);
        assert(whole == -q);
        assert(a.raw * (-q) == -(a.raw * q)) by (nonlinear_arith);
    }
    assert(-a.raw < n - a.raw * whole < a.raw);
    assert(-a.raw < num.raw * s - a.raw * t.raw < a.raw);
    let bd = DIRECTION_MAX as int;
    let tm = PARAMETER_MAX as int;
    assert(bd * tm == 100_000_000_000_000_000_000);
    lemma_times_rounded(d.x(), t, bd, tm);
    lemma_times_rounded(d.y(), t, bd, tm);
    lemma_times_rounded(d.z(), t, bd, tm);
    let step = d.scaled(t);
    let w = origin.plus(step).minus(center);
    lemma_hit_point_bound(
        oc.x().raw as int,
        oc.y().raw as int,
        oc.z().raw as int,
        d.x().raw as int,
        d.y().raw as int,
        d.z().raw as int,
        rad.raw as int,
        a.raw as int,
        hb.raw as int,
        c.raw as int,
        disc.raw as int,
        sq.raw as int,
        num.raw as int,
        t.raw as int,
        step.x().raw as int,
        step.y().raw as int,
        step.z().raw as int,
    );
    assert(w.x().raw == oc.x().raw + step.x().raw);
    assert(w.y().raw == oc.y().raw + step.y().raw);
    assert(w.z().raw == oc.z().raw + step.z().raw);
    lemma_near_radius_from_squares(w, rad);
}

} // verus!
