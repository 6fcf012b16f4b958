//! The numbers that coordinates and side lengths are made of.
//!
//! A coordinate type stands for a range of the integers. Contracts speak of
//! the integer a number stands for, never of its machine representation.

use vstd::prelude::*;

verus! {

/// Half of `v`, rounded toward zero.
///
/// Twice the half of an odd number falls one short of it:
/// `2 * half(5) == 4`.
pub open spec fn half(v: int) -> int {
    if v >= 0 {
        v / 2
    } else {
        -((-v) / 2)
    }
}

/// A coordinate type: the integers of some range, ordered, with addition and
/// halving and a default value, copied freely.
pub trait QTNumber: Copy + Default {
    /// The integer this number stands for.
    spec fn value(self) -> int;

    /// The least integer the type can hold.
    spec fn lowest() -> int;

    /// The greatest integer the type can hold.
    spec fn highest() -> int;

    /// Every number lies within the range of its type.
    proof fn bounded(self)
        ensures
            Self::lowest() <= self.value() <= Self::highest(),
    ;

    /// Strict order of the values.
    fn less(self, other: Self) -> (b: bool)
        ensures
            b == (self.value() < other.value()),
    ;

    /// The sum, where the type can hold it.
    fn plus(self, other: Self) -> (sum: Self)
        requires
            Self::lowest() <= self.value() + other.value() <= Self::highest(),
        ensures
            sum.value() == self.value() + other.value(),
    ;

    /// Half of the number, rounded toward zero.
    fn halved(self) -> (h: Self)
        ensures
            h.value() == half(self.value()),
    ;
}

impl QTNumber for i32 {
    open spec fn value(self) -> int {
        self as int
    }

    open spec fn lowest() -> int {
        i32::MIN as int
    }

    open spec fn highest() -> int {
        i32::MAX as int
    }

    proof fn bounded(self) {
    }

    fn less(self, other: Self) -> (b: bool) {
        self < other
    }

    fn plus(self, other: Self) -> (sum: Self) {
        self + other
    }

    fn halved(self) -> (h: Self) {
        self / 2
    }
}

impl QTNumber for i64 {
    open spec fn value(self) -> int {
        self as int
    }

    open spec fn lowest() -> int {
        i64::MIN as int
    }

    open spec fn highest() -> int {
        i64::MAX as int
    }

    proof fn bounded(self) {
    }

    fn less(self, other: Self) -> (b: bool) {
        self < other
    }

    fn plus(self, other: Self) -> (sum: Self) {
        self + other
    }

    fn halved(self) -> (h: Self) {
        self / 2
    }
}

impl QTNumber for u32 {
    open spec fn value(self) -> int {
        self as int
    }

    open spec fn lowest() -> int {
        0
    }

    open spec fn highest() -> int {
        u32::MAX as int
    }

    proof fn bounded(self) {
    }

    fn less(self, other: Self) -> (b: bool) {
        self < other
    }

    fn plus(self, other: Self) -> (sum: Self) {
        self + other
    }

    fn halved(self) -> (h: Self) {
        self / 2
    }
}

impl QTNumber for u64 {
    open spec fn value(self) -> int {
        self as int
    }

    open spec fn lowest() -> int {
        0
    }

    open spec fn highest() -> int {
        u64::MAX as int
    }

    proof fn bounded(self) {
    }

    fn less(self, other: Self) -> (b: bool) {
        self < other
    }

    fn plus(self, other: Self) -> (sum: Self) {
        self + other
    }

    fn halved(self) -> (h: Self) {
        self / 2
    }
}

} // verus!
