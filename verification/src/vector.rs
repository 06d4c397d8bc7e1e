//! Three-component vectors with a tag that says what they stand for.

use crate::random::uniform;
use crate::rounding::{is_moderate, lemma_unit_vector_length};
use crate::scalar::{
    is_floor_sqrt, lemma_plus_associative, lemma_plus_commutative, lemma_plus_inverse,
    lemma_plus_negated, lemma_results_in_range, lemma_sqrt_bounds, lemma_square_not_negative,
    lemma_times_commutative, lemma_times_negated, lemma_times_zero, lemma_trunc_div_monotonic,
    Scalar, LIMIT, SCALE,
};
use vstd::prelude::*;
use std::ops::{Add, Div, Mul, Neg, Sub};

verus! {

/// Two numbers closer than this many raw units compare as equal.
pub const FUZZY_EPSILON: i64 = 100_000;

/// A component smaller than this many raw units counts as zero. The square of
/// anything at least this large is positive at this resolution.
pub const NEAR_ZERO_EPSILON: i64 = 100_000;

/// What a vector stands for. The tag travels with the left operand of every
/// operation and takes part in equality; it says nothing about the numbers.
#[derive(Debug, Clone, Copy, PartialEq, Eq, Structural)]
pub enum VectorType {
    Vector,
    Color,
    Point,
}

/// Three numbers and what they stand for. Equality is fuzzy: the tags must
/// be equal and the components fuzzily equal.
#[derive(Debug, Clone, Copy)]
pub struct Vector {
    pub data: (Scalar, Scalar, Scalar),
    pub data_type: VectorType,
}

pub open spec fn fuzzy_equal_spec(lhs: Scalar, rhs: Scalar) -> bool {
    lhs.minus(rhs).spec_abs().raw < FUZZY_EPSILON
}

/// Whether two numbers differ by less than `FUZZY_EPSILON`.
#[verifier::when_used_as_spec(fuzzy_equal_spec)]
pub fn fuzzy_equal(lhs: Scalar, rhs: Scalar) -> (r: bool)
    ensures
        r == fuzzy_equal_spec(lhs, rhs),
{
    (lhs - rhs).abs().raw < FUZZY_EPSILON
}

impl Vector {
    pub open spec fn spec_new(x: Scalar, y: Scalar, z: Scalar, data_type: VectorType) -> Vector {
        Vector { data: (x, y, z), data_type }
    }

    /// The vector with the given components and tag.
    #[verifier::when_used_as_spec(spec_new)]
    pub fn new(x: Scalar, y: Scalar, z: Scalar, data_type: VectorType) -> (r: Vector)
        ensures
            r == Vector::spec_new(x, y, z, data_type),
    {
        Vector { data: (x, y, z), data_type }
    }

    /// The first component.
    pub open spec fn x(self) -> Scalar {
        self.data.0
    }

    /// The second component.
    pub open spec fn y(self) -> Scalar {
        self.data.1
    }

    /// The third component.
    pub open spec fn z(self) -> Scalar {
        self.data.2
    }

    /// Every component lies in the range that operations return.
    pub open spec fn in_range(self) -> bool {
        self.x().in_range() && self.y().in_range() && self.z().in_range()
    }

    /// Componentwise sum, with the tag of `self`.
    pub open spec fn plus(self, other: Vector) -> Vector {
        Vector {
            data: (self.x().plus(other.x()), self.y().plus(other.y()), self.z().plus(other.z())),
            data_type: self.data_type,
        }
    }

    /// Componentwise difference, with the tag of `self`.
    pub open spec fn minus(self, other: Vector) -> Vector {
        Vector {
            data: (self.x().minus(other.x()), self.y().minus(other.y()), self.z().minus(other.z())),
            data_type: self.data_type,
        }
    }

    /// Componentwise opposite.
    pub open spec fn negated(self) -> Vector {
        Vector {
            data: (self.x().negated(), self.y().negated(), self.z().negated()),
            data_type: self.data_type,
        }
    }

    /// Componentwise product, with the tag of `self`.
    pub open spec fn times(self, other: Vector) -> Vector {
        Vector {
            data: (self.x().times(other.x()), self.y().times(other.y()), self.z().times(other.z())),
            data_type: self.data_type,
        }
    }

    /// Every component times `factor`.
    pub open spec fn scaled(self, factor: Scalar) -> Vector {
        Vector {
            data: (self.x().times(factor), self.y().times(factor), self.z().times(factor)),
            data_type: self.data_type,
        }
    }

    /// Componentwise quotient, with the tag of `self`.
    pub open spec fn over(self, other: Vector) -> Vector {
        Vector {
            data: (self.x().over(other.x()), self.y().over(other.y()), self.z().over(other.z())),
            data_type: self.data_type,
        }
    }

    /// Every component over `divisor`.
    pub open spec fn divided(self, divisor: Scalar) -> Vector {
        Vector {
            data: (self.x().over(divisor), self.y().over(divisor), self.z().over(divisor)),
            data_type: self.data_type,
        }
    }

    pub open spec fn length_squared_spec(&self) -> Scalar {
        self.x().times(self.x()).plus(self.y().times(self.y())).plus(
            self.z().times(self.z()),
        )
    }

    /// Sum of the squares of the components.
    #[verifier::when_used_as_spec(length_squared_spec)]
    pub fn length_squared(&self) -> (r: Scalar)
        ensures
            r == self.length_squared_spec(),
    {
        self.data.0 * self.data.0 + self.data.1 * self.data.1 + self.data.2 * self.data.2
    }

    pub open spec fn len_spec(&self) -> Scalar {
        self.length_squared_spec().spec_sqrt()
    }

    /// Square root of the squared length.
    #[verifier::when_used_as_spec(len_spec)]
    pub fn len(&self) -> (r: Scalar)
        ensures
            r == self.len_spec(),
    {
        self.length_squared().sqrt()
    }

    pub open spec fn dot_spec(&self, other: &Self) -> Scalar {
        self.x().times(other.x()).plus(self.y().times(other.y())).plus(
            self.z().times(other.z()),
        )
    }

    /// Sum of the products of matching components.
    #[verifier::when_used_as_spec(dot_spec)]
    pub fn dot(&self, other: &Self) -> (r: Scalar)
        ensures
            r == self.dot_spec(other),
    {
        self.data.0 * other.data.0 + self.data.1 * other.data.1 + self.data.2 * other.data.2
    }

    pub open spec fn cross_spec(&self, other: &Self) -> Vector {
        Vector {
            data: (
                self.y().times(other.z()).minus(self.z().times(other.y())),
                self.z().times(other.x()).minus(self.x().times(other.z())),
                self.x().times(other.y()).minus(self.y().times(other.x())),
            ),
            data_type: self.data_type,
        }
    }

    /// Cross product; the result carries the tag of `self`.
    #[verifier::when_used_as_spec(cross_spec)]
    pub fn cross(&self, other: &Self) -> (r: Vector)
        ensures
            r == self.cross_spec(other),
    {
        Vector::new(
            self.data.1 * other.data.2 - self.data.2 * other.data.1,
            self.data.2 * other.data.0 - self.data.0 * other.data.2,
            self.data.0 * other.data.1 - self.data.1 * other.data.0,
            self.data_type,
        )
    }

    pub open spec fn unit_spec(&self) -> Vector {
        self.divided(self.len_spec())
    }

    /// The vector divided by its length, which is one long, up to rounding,
    /// for a vector that is neither tiny nor huge. For a vector whose length
    /// rounds to zero the quotient is the one that `Scalar` division by zero
    /// defines.
    #[verifier::when_used_as_spec(unit_spec)]
    pub fn get_unit_vector(&self) -> (r: Vector)
        ensures
            r == self.unit_spec(),
            is_moderate(*self) ==> fuzzy_equal_spec(r.len_spec(), Scalar::one()),
    {
        proof {
            if is_moderate(*self) {
                lemma_unit_vector_length(*self);
            }
        }
        *self / self.len()
    }

    pub open spec fn near_zero_spec(&self) -> bool {
        self.x().spec_abs().raw < NEAR_ZERO_EPSILON && self.y().spec_abs().raw < NEAR_ZERO_EPSILON
            && self.z().spec_abs().raw < NEAR_ZERO_EPSILON
    }

    /// Whether every component is smaller than `NEAR_ZERO_EPSILON`.
    #[verifier::when_used_as_spec(near_zero_spec)]
    pub fn near_zero(&self) -> (r: bool)
        ensures
            r == self.near_zero_spec(),
    {
        self.data.0.abs().raw < NEAR_ZERO_EPSILON && self.data.1.abs().raw < NEAR_ZERO_EPSILON
            && self.data.2.abs().raw < NEAR_ZERO_EPSILON
    }

    /// Every component lies in `[min, max)`.
    pub open spec fn within(self, min: Scalar, max: Scalar) -> bool {
        &&& min.raw <= self.x().raw < max.raw
        &&& min.raw <= self.y().raw < max.raw
        &&& min.raw <= self.z().raw < max.raw
    }

    /// Strictly inside the ball of radius one.
    pub open spec fn in_unit_ball(self) -> bool {
        self.length_squared_spec().raw < SCALE
    }

    /// A point that `random_in_unit_sphere` may return.
    pub open spec fn is_ball_sample(self) -> bool {
        self.in_unit_ball() && self.within(Scalar::from_int(-1i64), Scalar::from_int(1))
            && self.data_type == VectorType::Vector
    }

    /// A vector whose components are drawn independently from `[min, max)`,
    /// which must not be empty.
    pub fn random(min: Scalar, max: Scalar) -> (r: Vector)
        requires
            min.raw < max.raw,
        ensures
            r.within(min, max),
            r.data_type == VectorType::Vector,
    {
        let x = uniform(min, max);
        let y = uniform(min, max);
        let z = uniform(min, max);
        Vector::new(x, y, z, VectorType::Vector)
    }

    /// A point that one draw from the cube around the unit ball may give.
    pub open spec fn is_cube_draw(self) -> bool {
        self.within(Scalar::from_int(-1i64), Scalar::from_int(1)) && self.data_type
            == VectorType::Vector
    }

    /// The vector of three zeros.
    pub open spec fn zero_vector() -> Vector {
        Vector {
            data: (Scalar::zero(), Scalar::zero(), Scalar::zero()),
            data_type: VectorType::Vector,
        }
    }

    /// The first of `draws` that lies strictly inside the unit ball, and the
    /// zero vector where none does.
    pub open spec fn first_in_unit_ball_spec(draws: Seq<Vector>) -> Vector
        decreases draws.len(),
    {
        if draws.len() == 0 {
            Vector::zero_vector()
        } else if draws.first().in_unit_ball() {
            draws.first()
        } else {
            Vector::first_in_unit_ball_spec(draws.drop_first())
        }
    }

    /// The first of `draws` that lies strictly inside the unit ball, and the
    /// zero vector where none does: what rejection sampling returns when its
    /// draws are those of `draws`, in their order.
    pub fn first_in_unit_ball(draws: &Vec<Vector>) -> (r: Vector)
        ensures
            r == Vector::first_in_unit_ball_spec(draws@),
    {
        let mut i: usize = 0;
        proof {
            assert(draws@.skip(0) =~= draws@);
        }
        while i < draws.len()
            invariant
                i <= draws.len(),
                Vector::first_in_unit_ball_spec(draws@) == Vector::first_in_unit_ball_spec(
                    draws@.skip(i as int),
                ),
            decreases draws.len() - i,
        {
            proof {
                assert(draws@.skip(i as int).first() == draws[i as int]);
                assert(draws@.skip(i as int).drop_first() =~= draws@.skip(i + 1));
            }
            if draws[i].length_squared().raw < SCALE {
                return draws[i];
            }
            i = i + 1;
        }
        Vector::new(Scalar::zero(), Scalar::zero(), Scalar::zero(), VectorType::Vector)
    }

    /// Whether `draws` is a run of draws that rejection sampling may make:
    /// every one comes from the cube, every one but the last lies outside the
    /// ball, and the run ends with the first draw inside the ball or, if
    /// there is none, after `u64::MAX` draws.
    pub open spec fn is_rejection_run(draws: Seq<Vector>) -> bool {
        &&& draws.len() <= u64::MAX
        &&& forall|i: int| 0 <= i < draws.len() ==> (#[trigger] draws[i]).is_cube_draw()
        &&& forall|i: int| 0 <= i < draws.len() - 1 ==> !(#[trigger] draws[i]).in_unit_ball()
        &&& draws.len() == u64::MAX || (draws.len() > 0 && draws.last().in_unit_ball())
    }

    /// A point strictly inside the unit ball: draws from the cube around it
    /// until one falls inside, and returns that one. The zero vector stands
    /// in if none of `u64::MAX` draws does.
    pub fn random_in_unit_sphere() -> (r: Vector)
        ensures
            r.is_ball_sample(),
            exists|draws: Seq<Vector>|
                Vector::is_rejection_run(draws) && r == #[trigger] Vector::first_in_unit_ball_spec(
                    draws,
                ),
    {
        let low = Scalar::from_int(-1);
        let high = Scalar::from_int(1);
        let mut attempts: u64 = 0;
        let ghost mut rejected: Seq<Vector> = Seq::empty();
        while attempts < u64::MAX
            invariant
                low == Scalar::from_int(-1i64),
                high == Scalar::from_int(1),
                rejected.len() == attempts,
                forall|i: int| 0 <= i < rejected.len() ==> (#[trigger] rejected[i]).is_cube_draw(),
                forall|i: int| 0 <= i < rejected.len() ==> !(#[trigger] rejected[i]).in_unit_ball(),
            decreases u64::MAX - attempts,
        {
            let p = Vector::random(low, high);
            if p.length_squared().raw < SCALE {
                proof {
                    let draws = rejected.push(p);
                    assert(draws =~= rejected + seq![p]);
                    lemma_first_skips_rejected(rejected, seq![p]);
                    assert(seq![p].first() == p);
                    assert(Vector::first_in_unit_ball_spec(seq![p]) == p);
                    assert(Vector::is_rejection_run(draws));
                }
                return p;
            }
            proof {
                rejected = rejected.push(p);
            }
            attempts = attempts + 1;
        }
        proof {
            lemma_first_skips_rejected(rejected, Seq::empty());
            assert(rejected + Seq::<Vector>::empty() =~= rejected);
            assert(Vector::is_rejection_run(rejected));
            lemma_times_zero(Scalar::zero());
        }
        Vector::new(Scalar::zero(), Scalar::zero(), Scalar::zero(), VectorType::Vector)
    }

    /// The unit vector of a random point of the unit ball.
    pub fn random_unit_vector() -> (r: Vector)
        ensures
            exists|p: Vector| p.is_ball_sample() && r == #[trigger] p.unit_spec(),
    {
        Vector::random_in_unit_sphere().get_unit_vector()
    }

    pub open spec fn toward_spec(self, normal: &Self) -> Vector {
        if self.dot_spec(normal).raw > 0 {
            self
        } else {
            self.negated()
        }
    }

    /// The vector itself where it points to the side of `normal`, else its
    /// opposite.
    #[verifier::when_used_as_spec(toward_spec)]
    pub fn toward(self, normal: &Self) -> (r: Vector)
        ensures
            r == self.toward_spec(normal),
    {
        if self.dot(normal).raw > 0 {
            self
        } else {
            self.neg()
        }
    }

    /// A random point of the unit ball, on the side of `normal`.
    pub fn random_in_hemisphere(normal: &Self) -> (r: Vector)
        ensures
            exists|p: Vector| p.is_ball_sample() && r == #[trigger] p.toward_spec(normal),
            r.dot_spec(normal).raw >= 0,
    {
        let in_unit_sphere = Vector::random_in_unit_sphere();
        proof {
            lemma_dot_commutative(in_unit_sphere.negated(), *normal);
            lemma_dot_negated(*normal, in_unit_sphere);
            lemma_dot_commutative(*normal, in_unit_sphere);
        }
        in_unit_sphere.toward(normal)
    }
}

impl Add for Vector {
    type Output = Vector;

    fn add(self, other: Vector) -> (r: Vector) {
        Vector::new(
            self.data.0 + other.data.0,
            self.data.1 + other.data.1,
            self.data.2 + other.data.2,
            self.data_type,
        )
    }
}

impl vstd::std_specs::ops::AddSpecImpl for Vector {
    open spec fn obeys_add_spec() -> bool {
        true
    }

    open spec fn add_req(self, other: Vector) -> bool {
        true
    }

    open spec fn add_spec(self, other: Vector) -> Vector {
        self.plus(other)
    }
}

impl Sub for Vector {
    type Output = Vector;

    fn sub(self, other: Vector) -> (r: Vector) {
        Vector::new(
            self.data.0 - other.data.0,
            self.data.1 - other.data.1,
            self.data.2 - other.data.2,
            self.data_type,
        )
    }
}

impl vstd::std_specs::ops::SubSpecImpl for Vector {
    open spec fn obeys_sub_spec() -> bool {
        true
    }

    open spec fn sub_req(self, other: Vector) -> bool {
        true
    }

    open spec fn sub_spec(self, other: Vector) -> Vector {
        self.minus(other)
    }
}

impl Neg for Vector {
    type Output = Vector;

    fn neg(self) -> (r: Vector) {
        Vector::new(self.data.0.neg(), self.data.1.neg(), self.data.2.neg(), self.data_type)
    }
}

impl vstd::std_specs::ops::NegSpecImpl for Vector {
    open spec fn obeys_neg_spec() -> bool {
        true
    }

    open spec fn neg_req(self) -> bool {
        true
    }

    open spec fn neg_spec(self) -> Vector {
        self.negated()
    }
}

impl Mul for Vector {
    type Output = Vector;

    fn mul(self, other: Vector) -> (r: Vector) {
        Vector::new(
            self.data.0 * other.data.0,
            self.data.1 * other.data.1,
            self.data.2 * other.data.2,
            self.data_type,
        )
    }
}

impl vstd::std_specs::ops::MulSpecImpl for Vector {
    open spec fn obeys_mul_spec() -> bool {
        true
    }

    open spec fn mul_req(self, other: Vector) -> bool {
        true
    }

    open spec fn mul_spec(self, other: Vector) -> Vector {
        self.times(other)
    }
}

impl Mul<Scalar> for Vector {
    type Output = Vector;

    fn mul(self, other: Scalar) -> (r: Vector) {
        Vector::new(self.data.0 * other, self.data.1 * other, self.data.2 * other, self.data_type)
    }
}

impl vstd::std_specs::ops::MulSpecImpl<Scalar> for Vector {
    open spec fn obeys_mul_spec() -> bool {
        true
    }

    open spec fn mul_req(self, other: Scalar) -> bool {
        true
    }

    open spec fn mul_spec(self, other: Scalar) -> Vector {
        self.scaled(other)
    }
}

impl Mul<Vector> for Scalar {
    type Output = Vector;

    fn mul(self, other: Vector) -> (r: Vector) {
        other.mul(self)
    }
}

impl vstd::std_specs::ops::MulSpecImpl<Vector> for Scalar {
    open spec fn obeys_mul_spec() -> bool {
        true
    }

    open spec fn mul_req(self, other: Vector) -> bool {
        true
    }

    open spec fn mul_spec(self, other: Vector) -> Vector {
        other.scaled(self)
    }
}

impl Div for Vector {
    type Output = Vector;

    fn div(self, other: Vector) -> (r: Vector) {
        Vector::new(
            self.data.0 / other.data.0,
            self.data.1 / other.data.1,
            self.data.2 / other.data.2,
            self.data_type,
        )
    }
}

impl vstd::std_specs::ops::DivSpecImpl for Vector {
    open spec fn obeys_div_spec() -> bool {
        true
    }

    open spec fn div_req(self, other: Vector) -> bool {
        true
    }

    open spec fn div_spec(self, other: Vector) -> Vector {
        self.over(other)
    }
}

impl Div<Scalar> for Vector {
    type Output = Vector;

    fn div(self, other: Scalar) -> (r: Vector) {
        Vector::new(self.data.0 / other, self.data.1 / other, self.data.2 / other, self.data_type)
    }
}

impl vstd::std_specs::ops::DivSpecImpl<Scalar> for Vector {
    open spec fn obeys_div_spec() -> bool {
        true
    }

    open spec fn div_req(self, other: Scalar) -> bool {
        true
    }

    open spec fn div_spec(self, other: Scalar) -> Vector {
        self.divided(other)
    }
}

impl PartialEq for Vector {
    /// Equal tags, and components that are fuzzily equal.
    fn eq(&self, other: &Self) -> (r: bool) {
        fuzzy_equal(self.data.0, other.data.0) && fuzzy_equal(self.data.1, other.data.1)
            && fuzzy_equal(self.data.2, other.data.2) && self.data_type == other.data_type
    }
}

impl vstd::std_specs::cmp::PartialEqSpecImpl for Vector {
    open spec fn obeys_eq_spec() -> bool {
        true
    }

    open spec fn eq_spec(&self, other: &Self) -> bool {
        fuzzy_equal_spec(self.x(), other.x()) && fuzzy_equal_spec(self.y(), other.y())
            && fuzzy_equal_spec(self.z(), other.z()) && self.data_type == other.data_type
    }
}

/// A squared length is not negative.
pub proof fn lemma_length_squared_not_negative(v: Vector)
    ensures
        v.length_squared_spec().raw >= 0,
{
    lemma_square_not_negative(v.x());
    lemma_square_not_negative(v.y());
    lemma_square_not_negative(v.z());
}

/// The dot product with a negated vector is the negated dot product, for a
/// vector in the range that operations return.
pub proof fn lemma_dot_negated(a: Vector, b: Vector)
    requires
        b.in_range(),
    ensures
        a.dot_spec(&b.negated()) == a.dot_spec(&b).negated(),
{
    lemma_times_negated(a.x(), b.x());
    lemma_times_negated(a.y(), b.y());
    lemma_times_negated(a.z(), b.z());
    lemma_results_in_range(a.x(), b.x());
    lemma_results_in_range(a.y(), b.y());
    lemma_results_in_range(a.z(), b.z());
    lemma_plus_negated(a.x().times(b.x()), a.y().times(b.y()));
    lemma_results_in_range(a.x().times(b.x()), a.y().times(b.y()));
    lemma_plus_negated(a.x().times(b.x()).plus(a.y().times(b.y())), a.z().times(b.z()));
}

/// The components of a sum do not depend on the order of its terms; the tag
/// is that of the left one.
pub proof fn lemma_add_commutative(a: Vector, b: Vector)
    ensures
        a.plus(b).data == b.plus(a).data,
        a.data_type == b.data_type ==> a.plus(b) == b.plus(a),
{
    lemma_plus_commutative(a.x(), b.x());
    lemma_plus_commutative(a.y(), b.y());
    lemma_plus_commutative(a.z(), b.z());
}

/// No sum of a component of `a` and the matching one of `b` is clamped.
pub open spec fn sum_fits(a: Vector, b: Vector) -> bool {
    &&& -LIMIT <= a.x().raw + b.x().raw <= LIMIT
    &&& -LIMIT <= a.y().raw + b.y().raw <= LIMIT
    &&& -LIMIT <= a.z().raw + b.z().raw <= LIMIT
}

/// Sums can be taken in any grouping, where neither `a + b` nor `b + c` is
/// clamped.
pub proof fn lemma_add_associative(a: Vector, b: Vector, c: Vector)
    requires
        sum_fits(a, b),
        sum_fits(b, c),
    ensures
        a.plus(b).plus(c) == a.plus(b.plus(c)),
{
    lemma_plus_associative(a.x(), b.x(), c.x());
    lemma_plus_associative(a.y(), b.y(), c.y());
    lemma_plus_associative(a.z(), b.z(), c.z());
}

/// A vector in the range that operations return and its opposite sum to the
/// zero vector.
pub proof fn lemma_add_inverse(a: Vector)
    requires
        a.in_range(),
    ensures
        a.plus(a.negated()) == Vector::new(
            Scalar::zero(),
            Scalar::zero(),
            Scalar::zero(),
            a.data_type,
        ),
{
    lemma_plus_inverse(a.x());
    lemma_plus_inverse(a.y());
    lemma_plus_inverse(a.z());
}

/// A vector that is not near zero has a squared length and a length above
/// zero.
pub proof fn lemma_not_near_zero_has_length(v: Vector)
    requires
        !v.near_zero_spec(),
    ensures
        v.length_squared_spec().raw > 0,
        v.len_spec().raw > 0,
{
    lemma_square_not_negative(v.x());
    lemma_square_not_negative(v.y());
    lemma_square_not_negative(v.z());
    if v.x().spec_abs().raw >= NEAR_ZERO_EPSILON {
        lemma_square_of_large(v.x());
    } else if v.y().spec_abs().raw >= NEAR_ZERO_EPSILON {
        lemma_square_of_large(v.y());
    } else {
        lemma_square_of_large(v.z());
    }
    let n = v.length_squared_spec();
    lemma_sqrt_bounds(n);
    let root = n.spec_sqrt().raw;
    if root == 0 {
        assert(n.raw * SCALE >= 1) by (nonlinear_arith)
            requires
                n.raw >= 1,
                SCALE == 1_000_000_000,
        ;
        assert((root + 1) * (root + 1) == 1) by (nonlinear_arith)
            requires
                root == 0,
        ;
        assert(is_floor_sqrt(n.raw * SCALE, root as int));
    }
}

/// The square of a number at least `NEAR_ZERO_EPSILON` in magnitude is
/// positive.
proof fn lemma_square_of_large(a: Scalar)
    requires
        a.spec_abs().raw >= NEAR_ZERO_EPSILON,
    ensures
        a.times(a).raw >= 10,
{
    assert(a.raw * a.raw >= 10 * SCALE) by (nonlinear_arith)
        requires
            a.raw >= 100_000 || a.raw <= -100_000,
            SCALE == 1_000_000_000,
    ;
    lemma_trunc_div_monotonic(10 * SCALE, a.raw * a.raw, SCALE as int);
    vstd::arithmetic::div_mod::lemma_div_multiples_vanish(10, SCALE as int);
}

/// The dot product does not depend on the order of the vectors.
pub proof fn lemma_dot_commutative(a: Vector, b: Vector)
    ensures
        a.dot_spec(&b) == b.dot_spec(&a),
{
    lemma_times_commutative(a.x(), b.x());
    lemma_times_commutative(a.y(), b.y());
    lemma_times_commutative(a.z(), b.z());
}

/// Swapping the vectors of a cross product negates its components.
pub proof fn lemma_cross_anticommutative(a: Vector, b: Vector)
    ensures
        a.cross_spec(&b).data == b.cross_spec(&a).negated().data,
{
    lemma_times_commutative(a.y(), b.z());
    lemma_times_commutative(a.z(), b.y());
    lemma_times_commutative(a.z(), b.x());
    lemma_times_commutative(a.x(), b.z());
    lemma_times_commutative(a.x(), b.y());
    lemma_times_commutative(a.y(), b.x());
    lemma_results_in_range(a.y(), b.z());
    lemma_results_in_range(a.z(), b.y());
    lemma_results_in_range(a.z(), b.x());
    lemma_results_in_range(a.x(), b.z());
    lemma_results_in_range(a.x(), b.y());
    lemma_results_in_range(a.y(), b.x());
}

/// Draws outside the ball do not count: after them, the first draw inside
/// the ball is the first one among the draws that follow.
pub proof fn lemma_first_skips_rejected(rejected: Seq<Vector>, rest: Seq<Vector>)
    requires
        forall|i: int| 0 <= i < rejected.len() ==> !(#[trigger] rejected[i]).in_unit_ball(),
    ensures
        Vector::first_in_unit_ball_spec(rejected + rest) == Vector::first_in_unit_ball_spec(rest),
    decreases rejected.len(),
{
    if rejected.len() == 0 {
        assert(rejected + rest =~= rest);
    } else {
        let all = rejected + rest;
        assert(all.first() == rejected[0]);
        assert(all.drop_first() =~= rejected.drop_first() + rest);
        assert forall|i: int| 0 <= i < rejected.drop_first().len() implies !(
        #[trigger] rejected.drop_first()[i]).in_unit_ball() by {
            assert(rejected.drop_first()[i] == rejected[i + 1]);
        }
        lemma_first_skips_rejected(rejected.drop_first(), rest);
    }
}

} // verus!
