//! Validated intervals and the policies that admit them.

use crate::random::RandomSource;
use std::marker::PhantomData;
use vstd::prelude::*;

verus! {

/// Seconds in one hour.
pub const HOUR: u64 = 3600;

/// Seconds in one day, the cycle that restricted hours wrap around.
pub const DAY: u64 = 86400;

/// Why a pair of bounds was turned down.
#[derive(Clone, Copy, Debug, PartialEq, Eq, Structural)]
pub enum ValidationError {
    /// The lower bound lies above the upper bound.
    Crossed,
    /// The lower bound is negative.
    Negative,
    /// The upper bound lies beyond the end of the day.
    BeyondDay,
}

/// A validation policy for the bounds of a [`Range`].
pub trait RangeType: Sized {
    /// What the policy says of the bounds `from` and `to`.
    spec fn verdict(from: int, to: int) -> Result<(), ValidationError>;

    /// Whatever else a policy asks, it admits only ordered, non-negative bounds.
    proof fn admitted_bounds_are_ordered(from: int, to: int)
        requires
            Self::verdict(from, to) is Ok,
        ensures
            0 <= from <= to,
    ;

    /// Checks the bounds against the policy.
    fn validate(from: i64, to: i64) -> (r: Result<(), ValidationError>)
        ensures
            r == Self::verdict(from as int, to as int),
    ;
}

/// The policy of plain quantities: ordered bounds, none of them negative.
#[derive(Clone, Copy, Debug)]
pub struct BasicRange;

impl RangeType for BasicRange {
    open spec fn verdict(from: int, to: int) -> Result<(), ValidationError> {
        if from > to {
            Err(ValidationError::Crossed)
        } else if from < 0 {
            Err(ValidationError::Negative)
        } else {
            Ok(())
        }
    }

    proof fn admitted_bounds_are_ordered(from: int, to: int) {
    }

    fn validate(from: i64, to: i64) -> (r: Result<(), ValidationError>) {
        if from > to {
            return Err(ValidationError::Crossed);
        }
        if from < 0 {
            return Err(ValidationError::Negative);
        }
        Ok(())
    }
}

/// The policy of times of day: a basic range that ends within the day.
#[derive(Clone, Copy, Debug)]
pub struct DayHours;

impl RangeType for DayHours {
    open spec fn verdict(from: int, to: int) -> Result<(), ValidationError> {
        match BasicRange::verdict(from, to) {
            Err(e) => Err(e),
            Ok(_) => if to > DAY {
                Err(ValidationError::BeyondDay)
            } else {
                Ok(())
            },
        }
    }

    proof fn admitted_bounds_are_ordered(from: int, to: int) {
    }

    fn validate(from: i64, to: i64) -> (r: Result<(), ValidationError>) {
        match BasicRange::validate(from, to) {
            Err(e) => Err(e),
            Ok(_) => if to > DAY as i64 {
                Err(ValidationError::BeyondDay)
            } else {
                Ok(())
            },
        }
    }
}

/// An interval, given by its two bounds, that its policy `T` has admitted.
#[derive(Debug)]
pub struct Range<T: RangeType> {
    from: u64,
    to: u64,
    _type: PhantomData<T>,
}

impl<T: RangeType> Clone for Range<T> {
    fn clone(&self) -> (r: Self)
        ensures
            r == *self,
    {
        *self
    }
}

impl<T: RangeType> Copy for Range<T> {

}

impl<T: RangeType> Range<T> {
    /// The lower bound.
    pub closed spec fn lo(self) -> int {
        self.from as int
    }

    /// The upper bound.
    pub closed spec fn hi(self) -> int {
        self.to as int
    }

    /// The policy has admitted the bounds. Every range that a program holds
    /// is such a one.
    #[verifier::type_invariant]
    pub open spec fn wf(self) -> bool {
        T::verdict(self.lo(), self.hi()) is Ok
    }

    /// Both bounds are numbers that a `u64` holds.
    pub proof fn lemma_bounds(self)
        ensures
            0 <= self.lo() <= u64::MAX,
            0 <= self.hi() <= u64::MAX,
    {
    }

    /// An admitted range has ordered bounds, the lower one not negative.
    pub proof fn lemma_ordered(self)
        requires
            self.wf(),
        ensures
            0 <= self.lo() <= self.hi(),
    {
        T::admitted_bounds_are_ordered(self.lo(), self.hi());
    }

    /// Builds the range, or says which rule the bounds break.
    pub fn new(from: i64, to: i64) -> (r: Result<Self, ValidationError>)
        ensures
            match r {
                Ok(range) => T::verdict(from as int, to as int) is Ok && range.lo() == from
                    && range.hi() == to && range.wf(),
                Err(e) => T::verdict(from as int, to as int) == Err::<(), ValidationError>(e),
            },
    {
        match T::validate(from, to) {
            Err(e) => Err(e),
            Ok(_) => {
                proof {
                    T::admitted_bounds_are_ordered(from as int, to as int);
                }
                Ok(Range { from: from as u64, to: to as u64, _type: PhantomData })
            },
        }
    }

    /// Whether a draw from this range can come out as `v`: any value from the
    /// lower bound up to, but not including, the upper bound; the lower bound
    /// itself where the two coincide.
    pub open spec fn holds(self, v: int) -> bool {
        if self.lo() < self.hi() {
            self.lo() <= v < self.hi()
        } else {
            v == self.lo()
        }
    }

    /// Draws a value of the range from `rng`.
    pub fn pick<R: RandomSource>(&self, rng: &mut R) -> (r: u64)
        ensures
            self.holds(r as int),
            self.lo() <= r <= self.hi(),
    {
        proof {
            use_type_invariant(self);
            self.lemma_ordered();
        }
        if self.from < self.to {
            rng.uniform(self.from, self.to)
        } else {
            self.from
        }
    }

    /// The lower bound.
    pub fn from(&self) -> (r: u64)
        ensures
            r == self.lo(),
    {
        self.from
    }

    /// The upper bound.
    pub fn to(&self) -> (r: u64)
        ensures
            r == self.hi(),
    {
        self.to
    }
}

/// The whole day, from its first second to its last: the restriction of a
/// schedule that names none.
pub fn restrict_whole_day() -> (r: Range<DayHours>)
    ensures
        r.lo() == 0,
        r.hi() == DAY,
        r.wf(),
{
    Range { from: 0, to: DAY, _type: PhantomData }
}

} // verus!
