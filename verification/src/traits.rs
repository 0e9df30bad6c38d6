//! The numeric domain in which ballot weights are counted.

use vstd::prelude::*;

verus! {

/// An exact, totally ordered field of ballot weights.
///
/// Every value stands for one number, `value()`, and the operations are exact
/// on those numbers.
pub trait Weight: Sized {
    /// The number that this weight stands for.  A verified implementation says
    /// here what that number is; the body given here only spares an
    /// implementation that no proof reads the need to say it.
    open spec fn value(&self) -> real {
        0real
    }

    fn zero() -> (r: Self)
        ensures
            r.value() == 0real,
    ;

    fn one() -> (r: Self)
        ensures
            r.value() == 1real,
    ;

    fn from_i64(n: i64) -> (r: Self)
        ensures
            r.value() == n as real,
    ;

    fn plus(&self, other: &Self) -> (r: Self)
        ensures
            r.value() == self.value() + other.value(),
    ;

    fn minus(&self, other: &Self) -> (r: Self)
        ensures
            r.value() == self.value() - other.value(),
    ;

    fn times(&self, other: &Self) -> (r: Self)
        ensures
            r.value() == self.value() * other.value(),
    ;

    fn over(&self, other: &Self) -> (r: Self)
        requires
            other.value() != 0real,
        ensures
            r.value() == self.value() / other.value(),
    ;

    fn is_zero(&self) -> (b: bool)
        ensures
            b == (self.value() == 0real),
    ;

    fn less_than(&self, other: &Self) -> (b: bool)
        ensures
            b == (self.value() < other.value()),
    ;

    fn fuzzy_eq(&self, other: &Self) -> (b: bool)
        ensures
            b == (self.value() == other.value()),
    ;

    fn duplicate(&self) -> (r: Self)
        ensures
            r.value() == self.value(),
    ;
}

} // verus!
