//! The numbers that the solver computes with.
use vstd::prelude::*;

verus! {

/// A number type. Every operation is a function of its operands, named by the spec function
/// beside it; nothing else is promised of it, so that rounding arithmetic qualifies.
/// What holds of arithmetic that does not round is the subject of [`exact`].
pub trait Scalar: Copy {
    /// The real number that a finite scalar stands for.
    closed spec fn val(self) -> real {
        arbitrary()
    }

    /// Whether the scalar stands for a real number (neither infinite nor undefined).
    closed spec fn finite(self) -> bool {
        arbitrary()
    }

    closed spec fn infinite(self) -> bool {
        arbitrary()
    }

    /// Whether the scalar is finite and far enough from zero to be divided by.
    closed spec fn normal(self) -> bool {
        arbitrary()
    }

    closed spec fn zero_spec() -> Self {
        arbitrary()
    }

    closed spec fn one_spec() -> Self {
        arbitrary()
    }

    closed spec fn infinity_spec() -> Self {
        arbitrary()
    }

    closed spec fn neg_infinity_spec() -> Self {
        arbitrary()
    }

    /// Magnitudes below this one count as zero in the simplex method.
    closed spec fn tolerance_spec() -> Self {
        arbitrary()
    }

    /// The least share of the largest candidate that an LU pivot may have.
    closed spec fn stability_spec() -> Self {
        arbitrary()
    }

    closed spec fn plus_spec(self, other: Self) -> Self {
        arbitrary()
    }

    closed spec fn minus_spec(self, other: Self) -> Self {
        arbitrary()
    }

    closed spec fn times_spec(self, other: Self) -> Self {
        arbitrary()
    }

    closed spec fn over_spec(self, other: Self) -> Self {
        arbitrary()
    }

    closed spec fn negated_spec(self) -> Self {
        arbitrary()
    }

    closed spec fn absolute_spec(self) -> Self {
        arbitrary()
    }

    closed spec fn signum_spec(self) -> Self {
        arbitrary()
    }

    closed spec fn floor_spec(self) -> Self {
        arbitrary()
    }

    closed spec fn same_spec(self, other: Self) -> bool {
        arbitrary()
    }

    closed spec fn less_spec(self, other: Self) -> bool {
        arbitrary()
    }

    closed spec fn less_eq_spec(self, other: Self) -> bool {
        arbitrary()
    }

    fn zero() -> (r: Self)
        ensures
            r == Self::zero_spec(),
    ;

    fn one() -> (r: Self)
        ensures
            r == Self::one_spec(),
    ;

    fn infinity() -> (r: Self)
        ensures
            r == Self::infinity_spec(),
    ;

    fn neg_infinity() -> (r: Self)
        ensures
            r == Self::neg_infinity_spec(),
    ;

    fn tolerance() -> (r: Self)
        ensures
            r == Self::tolerance_spec(),
    ;

    /// One and minus one are acceptable pivots at the returned threshold.
    fn stability() -> (r: Self)
        ensures
            r == Self::stability_spec(),
            Self::zero_spec().less_spec(Self::one_spec().absolute_spec()),
            Self::one_spec().absolute_spec().normal(),
            r.times_spec(Self::one_spec().absolute_spec()).less_eq_spec(
                Self::one_spec().absolute_spec(),
            ),
            !Self::one_spec().same_spec(Self::zero_spec()),
            Self::zero_spec().less_spec(Self::one_spec().negated_spec().absolute_spec()),
            Self::one_spec().negated_spec().absolute_spec().normal(),
            r.times_spec(Self::one_spec().negated_spec().absolute_spec()).less_eq_spec(
                Self::one_spec().negated_spec().absolute_spec(),
            ),
            !Self::one_spec().negated_spec().same_spec(Self::zero_spec()),
    ;

    fn plus(self, other: Self) -> (r: Self)
        ensures
            r == self.plus_spec(other),
    ;

    fn minus(self, other: Self) -> (r: Self)
        ensures
            r == self.minus_spec(other),
    ;

    fn times(self, other: Self) -> (r: Self)
        ensures
            r == self.times_spec(other),
    ;

    fn over(self, other: Self) -> (r: Self)
        ensures
            r == self.over_spec(other),
    ;

    fn negated(self) -> (r: Self)
        ensures
            r == self.negated_spec(),
    ;

    fn absolute(self) -> (r: Self)
        ensures
            r == self.absolute_spec(),
    ;

    /// One with the sign of the number.
    fn signum(self) -> (r: Self)
        ensures
            r == self.signum_spec(),
    ;

    /// The largest integer that is not above the number.
    fn floor(self) -> (r: Self)
        ensures
            r == self.floor_spec(),
    ;

    fn same(self, other: Self) -> (r: bool)
        ensures
            r == self.same_spec(other),
    ;

    fn less(self, other: Self) -> (r: bool)
        ensures
            r == self.less_spec(other),
    ;

    fn less_eq(self, other: Self) -> (r: bool)
        ensures
            r == self.less_eq_spec(other),
    ;

    fn is_finite(self) -> (r: bool)
        ensures
            r == self.finite(),
    ;

    fn is_infinite(self) -> (r: bool)
        ensures
            r == self.infinite(),
    ;

    fn is_normal(self) -> (r: bool)
        ensures
            r == self.normal(),
    ;
}

/// Whether `x` is the number zero.
pub open spec fn is_zero<T: Scalar>(x: T) -> bool {
    x == T::zero_spec()
}

/// Whether `v` is taken as a pivot where it is the only candidate.
pub open spec fn acceptable_alone<T: Scalar>(v: T, stability: T) -> bool {
    let m = v.absolute_spec();
    let largest = if T::zero_spec().less_spec(m) {
        m
    } else {
        T::zero_spec()
    };
    &&& largest.normal()
    &&& stability.times_spec(largest).less_eq_spec(m)
    &&& !v.same_spec(T::zero_spec())
}

pub open spec fn abs_real(x: real) -> real {
    if x < 0 as real {
        -x
    } else {
        x
    }
}

pub open spec fn is_int(x: real, k: int) -> bool {
    x == k as real
}

/// Whether the number is an integer.
pub open spec fn whole(x: real) -> bool {
    exists|k: int| is_int(x, k)
}

/// Arithmetic that does not round: where an operation has a finite result, its operands are
/// finite and the result is the real one. (An operation may still refuse, by a result that is
/// not finite.)
pub open spec fn exact<T: Scalar>() -> bool {
    &&& T::zero_spec().finite() && T::zero_spec().val() == 0 as real
    &&& T::one_spec().finite() && T::one_spec().val() == 1 as real
    &&& T::one_spec().negated_spec().finite()
    &&& forall|a: T, b: T|
        (#[trigger] a.plus_spec(b)).finite() ==> a.finite() && b.finite() && a.plus_spec(b).val()
            == a.val() + b.val()
    &&& forall|a: T, b: T|
        (#[trigger] a.minus_spec(b)).finite() ==> a.finite() && b.finite() && a.minus_spec(b).val()
            == a.val() - b.val()
    &&& forall|a: T, b: T|
        (#[trigger] a.times_spec(b)).finite() ==> a.finite() && b.finite() && a.times_spec(b).val()
            == a.val() * b.val()
    &&& forall|a: T, b: T|
        (#[trigger] a.over_spec(b)).finite() ==> a.finite() && b.finite() && b.val() != 0 as real
            && a.over_spec(b).val() == a.val() / b.val()
    &&& forall|a: T|
        (#[trigger] a.negated_spec()).finite() ==> a.finite() && a.negated_spec().val() == -a.val()
    &&& forall|a: T|
        (#[trigger] a.absolute_spec()).finite() ==> a.finite() && a.absolute_spec().val()
            == abs_real(a.val())
    &&& forall|a: T|
        a.finite() ==> (#[trigger] a.signum_spec()).finite() && a.signum_spec().val() == if a.val()
            < 0 as real {
            -1 as real
        } else {
            1 as real
        }
    &&& forall|a: T|
        a.finite() ==> (#[trigger] a.floor_spec()).finite() && whole(a.floor_spec().val())
            && a.floor_spec().val() <= a.val() < a.floor_spec().val() + 1 as real
    &&& forall|a: T, b: T| #[trigger]
        a.same_spec(b) ==> a.finite() == b.finite() && (b.finite() ==> a.val() == b.val())
    &&& forall|a: T, b: T|
        a.finite() && b.finite() && a.val() == b.val() ==> #[trigger] a.same_spec(b)
    &&& forall|a: T, b: T|
        a.finite() && b.finite() ==> (#[trigger] a.less_spec(b) <==> a.val() < b.val())
    &&& forall|a: T, b: T|
        a.finite() && b.finite() ==> (#[trigger] a.less_eq_spec(b) <==> a.val() <= b.val())
    &&& T::infinity_spec().infinite() && T::neg_infinity_spec().infinite()
    &&& forall|a: T| a.finite() ==> #[trigger] a.less_spec(T::infinity_spec())
    &&& forall|a: T| a.finite() ==> #[trigger] T::neg_infinity_spec().less_spec(a)
    &&& forall|a: T|
        a.finite() ==> #[trigger] a.less_spec(
            T::infinity_spec().minus_spec(T::tolerance_spec()),
        )
    &&& forall|a: T, b: T|
        (#[trigger] a.absolute_spec().less_spec(b)) ==> a.absolute_spec().finite()
    &&& forall|u: T| #[trigger] u.infinite() ==> !u.finite()
    &&& forall|u: T, a: T|
        u.infinite() && a.finite() ==> {
            &&& a.less_spec(u) != u.less_spec(a)
            &&& (#[trigger] u.minus_spec(a)).signum_spec().finite()
            &&& u.minus_spec(a).signum_spec().val() == if a.less_spec(u) {
                1 as real
            } else {
                -1 as real
            }
        }
    &&& forall|u: T, a: T, b: T|
        u.infinite() && a.finite() && b.finite() ==> #[trigger] b.less_spec(
            a.minus_spec(u).absolute_spec().minus_spec(T::tolerance_spec()),
        )
    &&& T::tolerance_spec().finite() && T::tolerance_spec().val() >= 0 as real
    &&& forall|a: T| #[trigger] a.normal() <==> a.finite() && a.val() != 0 as real
}

} // verus!
