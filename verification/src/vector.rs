//! Vectors in space.

use crate::double::Double;
use vstd::prelude::*;

verus! {

#[derive(Clone, Copy, Debug, PartialEq, Eq, Structural)]
pub struct Vector3 {
    pub x: Double,
    pub y: Double,
    pub z: Double,
}

impl Vector3 {
    pub open spec fn sum(self, other: Vector3) -> Vector3 {
        Vector3 { x: self.x.sum(other.x), y: self.y.sum(other.y), z: self.z.sum(other.z) }
    }

    pub open spec fn difference(self, other: Vector3) -> Vector3 {
        Vector3 {
            x: self.x.difference(other.x),
            y: self.y.difference(other.y),
            z: self.z.difference(other.z),
        }
    }

    /// Each component multiplied by a factor.
    pub open spec fn stretched(self, factor: Double) -> Vector3 {
        Vector3 {
            x: self.x.product(factor),
            y: self.y.product(factor),
            z: self.z.product(factor),
        }
    }

    /// Each component divided by a divisor.
    pub open spec fn shrunk(self, divisor: Double) -> Vector3 {
        Vector3 {
            x: self.x.quotient(divisor),
            y: self.y.quotient(divisor),
            z: self.z.quotient(divisor),
        }
    }

    pub open spec fn inner(self, other: Vector3) -> Double {
        self.x.product(other.x).sum(self.y.product(other.y)).sum(self.z.product(other.z))
    }

    pub open spec fn outer(self, other: Vector3) -> Vector3 {
        Vector3 {
            x: self.y.product(other.z).difference(self.z.product(other.y)),
            y: self.z.product(other.x).difference(self.x.product(other.z)),
            z: self.x.product(other.y).difference(self.y.product(other.x)),
        }
    }

    /// The Euclidean length.
    pub open spec fn length(self) -> Double {
        self.inner(self).root()
    }

    /// The vector divided by its length.
    pub open spec fn direction(self) -> Vector3 {
        self.shrunk(self.length())
    }

    pub fn plus(self, other: Vector3) -> (result: Vector3)
        ensures
            result == self.sum(other),
    {
        Vector3 { x: self.x.plus(other.x), y: self.y.plus(other.y), z: self.z.plus(other.z) }
    }

    pub fn minus(self, other: Vector3) -> (result: Vector3)
        ensures
            result == self.difference(other),
    {
        Vector3 { x: self.x.minus(other.x), y: self.y.minus(other.y), z: self.z.minus(other.z) }
    }

    pub fn times(self, factor: Double) -> (result: Vector3)
        ensures
            result == self.stretched(factor),
    {
        Vector3 { x: self.x.times(factor), y: self.y.times(factor), z: self.z.times(factor) }
    }

    pub fn over(self, divisor: Double) -> (result: Vector3)
        ensures
            result == self.shrunk(divisor),
    {
        Vector3 { x: self.x.over(divisor), y: self.y.over(divisor), z: self.z.over(divisor) }
    }

    pub fn dot(self, other: Vector3) -> (result: Double)
        ensures
            result == self.inner(other),
    {
        self.x.times(other.x).plus(self.y.times(other.y)).plus(self.z.times(other.z))
    }

    pub fn cross(self, other: Vector3) -> (result: Vector3)
        ensures
            result == self.outer(other),
    {
        Vector3 {
            x: self.y.times(other.z).minus(self.z.times(other.y)),
            y: self.z.times(other.x).minus(self.x.times(other.z)),
            z: self.x.times(other.y).minus(self.y.times(other.x)),
        }
    }

    pub fn norm(self) -> (result: Double)
        ensures
            result == self.length(),
    {
        self.dot(self).sqrt()
    }

    pub fn normalize(self) -> (result: Vector3)
        ensures
            result == self.direction(),
    {
        self.over(self.norm())
    }
}

} // verus!
