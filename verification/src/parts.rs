//! Machine parts with four ratings, and the comparisons that sort them.

use vstd::prelude::*;

verus! {

/// One of the four ratings of a part.
#[derive(Copy, Clone, Debug, PartialEq, Eq, Structural)]
pub enum RatingType {
    X,
    M,
    A,
    S,
}

/// A part with its four ratings.
#[derive(Copy, Clone, Debug, PartialEq, Eq, Structural)]
pub struct Part {
    pub x: i64,
    pub m: i64,
    pub a: i64,
    pub s: i64,
}

/// How a rating is compared with a number.
#[derive(Copy, Clone, Debug, PartialEq, Eq, Structural)]
pub enum Comparator {
    LessThan,
    GreaterThan,
}

impl Part {
    /// The rating of the given kind.
    pub open spec fn rating(self, rtype: RatingType) -> i64 {
        match rtype {
            RatingType::X => self.x,
            RatingType::M => self.m,
            RatingType::A => self.a,
            RatingType::S => self.s,
        }
    }

    /// The part with the rating of the given kind replaced by `v`.
    pub open spec fn with_rating(self, rtype: RatingType, v: i64) -> Part {
        match rtype {
            RatingType::X => Part { x: v, ..self },
            RatingType::M => Part { m: v, ..self },
            RatingType::A => Part { a: v, ..self },
            RatingType::S => Part { s: v, ..self },
        }
    }

    /// The rating of the given kind.
    pub fn get_rating_by_type(&self, rtype: RatingType) -> (r: i64)
        ensures
            r == self.rating(rtype),
    {
        match rtype {
            RatingType::X => self.x,
            RatingType::M => self.m,
            RatingType::A => self.a,
            RatingType::S => self.s,
        }
    }

    /// The rating of the given kind, to be changed in place.
    pub fn get_rating_mut_by_type(&mut self, rtype: RatingType) -> (r: &mut i64)
        ensures
            *r == old(self).rating(rtype),
            *final(self) == old(self).with_rating(rtype, *final(r)),
    {
        match rtype {
            RatingType::X => &mut self.x,
            RatingType::M => &mut self.m,
            RatingType::A => &mut self.a,
            RatingType::S => &mut self.s,
        }
    }
}

impl Comparator {
    /// Whether the rating of the given kind is, in the sense of this
    /// comparison, less or greater than `n`.
    pub open spec fn holds(self, rtype: RatingType, part: Part, n: i64) -> bool {
        match self {
            Comparator::LessThan => part.rating(rtype) < n,
            Comparator::GreaterThan => part.rating(rtype) > n,
        }
    }

    /// Whether the rating of the given kind is, in the sense of this
    /// comparison, less or greater than `n`.
    pub fn apply(&self, rtype: RatingType, part: Part, n: i64) -> (r: bool)
        ensures
            r == self.holds(rtype, part, n),
    {
        match self {
            Comparator::LessThan => part.get_rating_by_type(rtype) < n,
            Comparator::GreaterThan => part.get_rating_by_type(rtype) > n,
        }
    }
}

} // verus!
