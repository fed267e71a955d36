//! Three-component vectors, and the rotations that turn them.

use crate::float::{F32, F64};
use crate::format::Format;
use vstd::arithmetic::power2::*;
use vstd::prelude::*;

verus! {

#[derive(Clone, Copy, Debug, PartialEq, Eq, Structural)]
pub struct Vec3 {
    pub x: F32,
    pub y: F32,
    pub z: F32,
}

impl Vec3 {
    #[verifier::allow_in_spec]
    pub fn zero() -> Vec3
        returns
            (Vec3 { x: F32 { bits: 0 }, y: F32 { bits: 0 }, z: F32 { bits: 0 } }),
    {
        Vec3 { x: F32 { bits: 0 }, y: F32 { bits: 0 }, z: F32 { bits: 0 } }
    }

    /// The first unit axis.
    #[verifier::allow_in_spec]
    pub fn unit_x() -> Vec3
        returns
            (Vec3 { x: F32 { bits: 0x3f80_0000 }, y: F32 { bits: 0 }, z: F32 { bits: 0 } }),
    {
        Vec3 { x: F32 { bits: 0x3f80_0000 }, y: F32 { bits: 0 }, z: F32 { bits: 0 } }
    }

    /// The second unit axis.
    #[verifier::allow_in_spec]
    pub fn unit_y() -> Vec3
        returns
            (Vec3 { x: F32 { bits: 0 }, y: F32 { bits: 0x3f80_0000 }, z: F32 { bits: 0 } }),
    {
        Vec3 { x: F32 { bits: 0 }, y: F32 { bits: 0x3f80_0000 }, z: F32 { bits: 0 } }
    }

    pub open spec fn sum(self, other: Vec3) -> Vec3 {
        Vec3 { x: self.x.sum(other.x), y: self.y.sum(other.y), z: self.z.sum(other.z) }
    }

    pub open spec fn difference(self, other: Vec3) -> Vec3 {
        Vec3 {
            x: self.x.difference(other.x),
            y: self.y.difference(other.y),
            z: self.z.difference(other.z),
        }
    }

    pub open spec fn negation(self) -> Vec3 {
        Vec3 { x: self.x.negation(), y: self.y.negation(), z: self.z.negation() }
    }

    pub open spec fn scaled(self, s: F32) -> Vec3 {
        Vec3 { x: self.x.product(s), y: self.y.product(s), z: self.z.product(s) }
    }

    pub open spec fn shared(self, s: F32) -> Vec3 {
        Vec3 { x: self.x.quotient(s), y: self.y.quotient(s), z: self.z.quotient(s) }
    }

    /// The scalar product, its three terms added in order.
    pub open spec fn inner(self, other: Vec3) -> F32 {
        self.x.product(other.x).sum(self.y.product(other.y)).sum(self.z.product(other.z))
    }

    /// The vector product.
    pub open spec fn outer(self, other: Vec3) -> Vec3 {
        Vec3 {
            x: self.y.product(other.z).difference(other.y.product(self.z)),
            y: self.z.product(other.x).difference(other.z.product(self.x)),
            z: self.x.product(other.y).difference(other.x.product(self.y)),
        }
    }

    pub open spec fn norm(self) -> F32 {
        self.inner(self).root()
    }

    /// Every component equal as a number.
    pub open spec fn equals(self, other: Vec3) -> bool {
        self.x.equals(other.x) && self.y.equals(other.y) && self.z.equals(other.z)
    }

    /// The direction of a vector longer than a millionth; zero otherwise.
    pub open spec fn direction(self) -> Vec3 {
        if (F32 { bits: 0x3586_37bd }).below(self.norm()) {
            self.shared(self.norm())
        } else {
            Vec3::zero()
        }
    }

    /// What has no length has no direction.
    pub proof fn lemma_no_direction(self)
        requires
            self == Vec3::zero(),
        ensures
            self.direction().equals(Vec3::zero()),
    {
        reveal(F32::product);
        reveal(F32::sum);
        reveal(F32::root);
        reveal(F32::value);
        let f = Format::Single;
        lemma_pow2_pos(f.scale());
        f.lemma_zero(pow2(f.scale()));
        f.lemma_zero(1);
        let none = f.magnitude(0) * f.magnitude(0);
        assert(none == 0) by (nonlinear_arith)
            requires none == f.magnitude(0) * f.magnitude(0), f.magnitude(0) == 0;
        let zero = F32::zero();
        assert(zero.product(zero) == zero);
        assert(zero.sum(zero) == zero);
        assert(self.norm() == zero);
        assert(!(F32 { bits: 0x3586_37bd }).below(zero)) by {
            f.lemma_monotone(0, 0x3586_37bd);
        }
    }

    /// The vector over its length; zero where that reciprocal is not a positive number.
    pub open spec fn normalized_or_zero(self) -> Vec3 {
        let reciprocal = F32::one().quotient(self.norm());
        if reciprocal.finite() && F32::zero().below(reciprocal) {
            self.scaled(reciprocal)
        } else {
            Vec3::zero()
        }
    }

    /// Each component without its sign.
    pub open spec fn absolute(self) -> Vec3 {
        Vec3 { x: self.x.absolute(), y: self.y.absolute(), z: self.z.absolute() }
    }

    /// The largest component.
    pub open spec fn largest(self) -> F32 {
        self.x.larger(self.y.larger(self.z))
    }

    /// The smaller of each pair of components.
    pub open spec fn lower(self, other: Vec3) -> Vec3 {
        Vec3 { x: self.x.smaller(other.x), y: self.y.smaller(other.y), z: self.z.smaller(other.z) }
    }

    /// The larger of each pair of components.
    pub open spec fn upper(self, other: Vec3) -> Vec3 {
        Vec3 { x: self.x.larger(other.x), y: self.y.larger(other.y), z: self.z.larger(other.z) }
    }

    /// The same vector in double precision.
    pub open spec fn doubled(self) -> DVec3 {
        DVec3 { x: self.x.doubled(), y: self.y.doubled(), z: self.z.doubled() }
    }

    /// The same number in every component.
    #[verifier::allow_in_spec]
    pub fn splat(s: F32) -> Vec3
        returns
            (Vec3 { x: s, y: s, z: s }),
    {
        Vec3 { x: s, y: s, z: s }
    }

    pub fn plus(self, other: Vec3) -> (v: Vec3)
        ensures
            v == self.sum(other),
    {
        Vec3 { x: self.x.plus(other.x), y: self.y.plus(other.y), z: self.z.plus(other.z) }
    }

    pub fn minus(self, other: Vec3) -> (v: Vec3)
        ensures
            v == self.difference(other),
    {
        Vec3 { x: self.x.minus(other.x), y: self.y.minus(other.y), z: self.z.minus(other.z) }
    }

    pub fn negated(self) -> (v: Vec3)
        ensures
            v == self.negation(),
    {
        Vec3 { x: self.x.negated(), y: self.y.negated(), z: self.z.negated() }
    }

    pub fn times(self, s: F32) -> (v: Vec3)
        ensures
            v == self.scaled(s),
    {
        Vec3 { x: self.x.times(s), y: self.y.times(s), z: self.z.times(s) }
    }

    pub fn over(self, s: F32) -> (v: Vec3)
        ensures
            v == self.shared(s),
    {
        Vec3 { x: self.x.over(s), y: self.y.over(s), z: self.z.over(s) }
    }

    pub fn dot(self, other: Vec3) -> (s: F32)
        ensures
            s == self.inner(other),
    {
        self.x.times(other.x).plus(self.y.times(other.y)).plus(self.z.times(other.z))
    }

    pub fn cross(self, other: Vec3) -> (v: Vec3)
        ensures
            v == self.outer(other),
    {
        Vec3 {
            x: self.y.times(other.z).minus(other.y.times(self.z)),
            y: self.z.times(other.x).minus(other.z.times(self.x)),
            z: self.x.times(other.y).minus(other.x.times(self.y)),
        }
    }

    pub fn length(self) -> (s: F32)
        ensures
            s == self.norm(),
    {
        self.dot(self).sqrt()
    }

    pub fn same(self, other: Vec3) -> (yes: bool)
        ensures
            yes == self.equals(other),
    {
        self.x.same(other.x) && self.y.same(other.y) && self.z.same(other.z)
    }

    pub fn normalize_or_zero(self) -> (v: Vec3)
        ensures
            v == self.normalized_or_zero(),
    {
        let reciprocal: F32 = F32::one().over(self.length());
        if reciprocal.is_finite() && F32::zero().lt(reciprocal) {
            self.times(reciprocal)
        } else {
            Vec3::zero()
        }
    }

    pub fn abs(self) -> (v: Vec3)
        ensures
            v == self.absolute(),
    {
        Vec3 { x: self.x.abs(), y: self.y.abs(), z: self.z.abs() }
    }

    pub fn max_element(self) -> (s: F32)
        ensures
            s == self.largest(),
    {
        self.x.max(self.y.max(self.z))
    }

    pub fn min(self, other: Vec3) -> (v: Vec3)
        ensures
            v == self.lower(other),
    {
        Vec3 { x: self.x.min(other.x), y: self.y.min(other.y), z: self.z.min(other.z) }
    }

    pub fn max(self, other: Vec3) -> (v: Vec3)
        ensures
            v == self.upper(other),
    {
        Vec3 { x: self.x.max(other.x), y: self.y.max(other.y), z: self.z.max(other.z) }
    }

    pub fn to_double(self) -> (v: DVec3)
        ensures
            v == self.doubled(),
    {
        DVec3 { x: self.x.to_double(), y: self.y.to_double(), z: self.z.to_double() }
    }
}

/// A vector of double-precision numbers.
#[derive(Clone, Copy, Debug, PartialEq, Eq, Structural)]
pub struct DVec3 {
    pub x: F64,
    pub y: F64,
    pub z: F64,
}

impl DVec3 {
    #[verifier::allow_in_spec]
    pub fn zero() -> DVec3
        returns
            (DVec3 { x: F64 { bits: 0 }, y: F64 { bits: 0 }, z: F64 { bits: 0 } }),
    {
        DVec3 { x: F64 { bits: 0 }, y: F64 { bits: 0 }, z: F64 { bits: 0 } }
    }

    pub open spec fn difference(self, other: DVec3) -> DVec3 {
        DVec3 {
            x: self.x.difference(other.x),
            y: self.y.difference(other.y),
            z: self.z.difference(other.z),
        }
    }

    /// The scalar product, its three terms added in order.
    pub open spec fn inner(self, other: DVec3) -> F64 {
        self.x.product(other.x).sum(self.y.product(other.y)).sum(self.z.product(other.z))
    }

    /// The vector product.
    pub open spec fn outer(self, other: DVec3) -> DVec3 {
        DVec3 {
            x: self.y.product(other.z).difference(other.y.product(self.z)),
            y: self.z.product(other.x).difference(other.z.product(self.x)),
            z: self.x.product(other.y).difference(other.x.product(self.y)),
        }
    }

    /// The vector over its length; zero where that reciprocal is not a positive number.
    pub open spec fn normalized_or_zero(self) -> DVec3 {
        let reciprocal = F64::one().quotient(self.inner(self).root());
        if reciprocal.finite() && F64::zero().below(reciprocal) {
            DVec3 { x: self.x.product(reciprocal), y: self.y.product(reciprocal), z: self.z.product(reciprocal) }
        } else {
            DVec3::zero()
        }
    }

    /// The same vector in single precision.
    pub open spec fn halved(self) -> Vec3 {
        Vec3 { x: self.x.halved(), y: self.y.halved(), z: self.z.halved() }
    }

    pub fn minus(self, other: DVec3) -> (v: DVec3)
        ensures
            v == self.difference(other),
    {
        DVec3 { x: self.x.minus(other.x), y: self.y.minus(other.y), z: self.z.minus(other.z) }
    }

    pub fn dot(self, other: DVec3) -> (s: F64)
        ensures
            s == self.inner(other),
    {
        self.x.times(other.x).plus(self.y.times(other.y)).plus(self.z.times(other.z))
    }

    pub fn cross(self, other: DVec3) -> (v: DVec3)
        ensures
            v == self.outer(other),
    {
        DVec3 {
            x: self.y.times(other.z).minus(other.y.times(self.z)),
            y: self.z.times(other.x).minus(other.z.times(self.x)),
            z: self.x.times(other.y).minus(other.x.times(self.y)),
        }
    }

    pub fn normalize_or_zero(self) -> (v: DVec3)
        ensures
            v == self.normalized_or_zero(),
    {
        let reciprocal: F64 = F64::one().over(self.dot(self).sqrt());
        if reciprocal.is_finite() && F64::zero().lt(reciprocal) {
            DVec3 { x: self.x.times(reciprocal), y: self.y.times(reciprocal), z: self.z.times(reciprocal) }
        } else {
            DVec3::zero()
        }
    }

    pub fn to_single(self) -> (v: Vec3)
        ensures
            v == self.halved(),
    {
        Vec3 { x: self.x.to_single(), y: self.y.to_single(), z: self.z.to_single() }
    }
}

/// A rotation, as a unit quaternion.
#[derive(Clone, Copy, Debug, PartialEq, Eq, Structural)]
pub struct Quat {
    pub x: F32,
    pub y: F32,
    pub z: F32,
    pub w: F32,
}

impl Quat {
    /// The rotation by nothing.
    #[verifier::allow_in_spec]
    pub fn identity() -> Quat
        returns
            (Quat { x: F32 { bits: 0 }, y: F32 { bits: 0 }, z: F32 { bits: 0 }, w: F32 { bits: 0x3f80_0000 } }),
    {
        Quat { x: F32 { bits: 0 }, y: F32 { bits: 0 }, z: F32 { bits: 0 }, w: F32 { bits: 0x3f80_0000 } }
    }

    /// The rotation back.
    pub open spec fn conjugate(self) -> Quat {
        Quat { x: self.x.negation(), y: self.y.negation(), z: self.z.negation(), w: self.w }
    }

    /// The vector, turned.
    pub open spec fn rotated(self, v: Vec3) -> Vec3 {
        let b = Vec3 { x: self.x, y: self.y, z: self.z };
        let two = F32 { bits: 0x4000_0000 };
        v.scaled(self.w.product(self.w).difference(b.inner(b))).sum(b.scaled(v.inner(b).product(two))).sum(
            b.outer(v).scaled(self.w.product(two)),
        )
    }

    pub fn inverse(self) -> (q: Quat)
        ensures
            q == self.conjugate(),
    {
        Quat { x: self.x.negated(), y: self.y.negated(), z: self.z.negated(), w: self.w }
    }

    pub fn rotate(self, v: Vec3) -> (turned: Vec3)
        ensures
            turned == self.rotated(v),
    {
        let b: Vec3 = Vec3 { x: self.x, y: self.y, z: self.z };
        let two: F32 = F32 { bits: 0x4000_0000 };
        let along: Vec3 = b.times(v.dot(b).times(two));
        v.times(self.w.times(self.w).minus(b.dot(b))).plus(along).plus(b.cross(v).times(self.w.times(two)))
    }
}

/// The direction of a vector longer than a millionth; zero otherwise.
pub fn unit_or_zero(v: Vec3) -> (unit: Vec3)
    ensures
        unit == v.direction(),
{
    let len: F32 = v.length();
    if (F32 { bits: 0x3586_37bd }).lt(len) {
        v.over(len)
    } else {
        Vec3::zero()
    }
}

} // verus!
