//! The numbers the solver computes with.
//!
//! Everything numeric in the crate is generic over [`Scalar`]. The contracts
//! speak of the operations through the `spec_*` functions of the trait. For a
//! scalar whose arithmetic is exact ([`Scalar::exact`]) the field laws hold and
//! the factorization is proved to solve the system; a rounding scalar gets the
//! same operations in the same order, and no algebraic claim.
use vstd::prelude::*;

verus! {

/// A number: field operations, a magnitude, an order and the elementary functions
/// device models need. Of the latter nothing is claimed.
pub trait Scalar: Copy + Sized {
    /// Whether the operations obey the field laws below.
    spec fn exact() -> bool;

    spec fn spec_zero() -> Self;

    spec fn spec_int(n: i64) -> Self;

    spec fn spec_plus(self, other: Self) -> Self;

    spec fn spec_minus(self, other: Self) -> Self;

    spec fn spec_times(self, other: Self) -> Self;

    spec fn spec_over(self, other: Self) -> Self;

    spec fn spec_negated(self) -> Self;

    spec fn spec_abs(self) -> Self;

    spec fn spec_sqrt(self) -> Self;

    spec fn spec_exp(self) -> Self;

    spec fn spec_ln(self) -> Self;

    spec fn spec_ln_1p(self) -> Self;

    spec fn spec_tanh(self) -> Self;

    spec fn spec_pow(self, exponent: Self) -> Self;

    /// Strictly below, false when the two are not comparable.
    spec fn spec_less(self, other: Self) -> bool;

    /// Below or equal, false when the two are not comparable.
    spec fn spec_at_most(self, other: Self) -> bool;

    /// Equal to zero as a number.
    spec fn spec_is_zero(self) -> bool;

    /// Neither infinite nor undefined.
    spec fn spec_finite(self) -> bool;

    fn zero() -> (r: Self)
        ensures
            r == Self::spec_zero(),
    ;

    /// The number `n`.
    fn from_int(n: i64) -> (r: Self)
        ensures
            r == Self::spec_int(n),
    ;

    fn plus(self, other: Self) -> (r: Self)
        ensures
            r == self.spec_plus(other),
    ;

    fn minus(self, other: Self) -> (r: Self)
        ensures
            r == self.spec_minus(other),
    ;

    fn times(self, other: Self) -> (r: Self)
        ensures
            r == self.spec_times(other),
    ;

    fn over(self, other: Self) -> (r: Self)
        ensures
            r == self.spec_over(other),
    ;

    fn negated(self) -> (r: Self)
        ensures
            r == self.spec_negated(),
    ;

    fn abs(self) -> (r: Self)
        ensures
            r == self.spec_abs(),
    ;

    /// Square root.
    fn sqrt(self) -> (r: Self)
        ensures
            r == self.spec_sqrt(),
    ;

    /// Exponential.
    fn exp(self) -> (r: Self)
        ensures
            r == self.spec_exp(),
    ;

    /// Natural logarithm.
    fn ln(self) -> (r: Self)
        ensures
            r == self.spec_ln(),
    ;

    /// Natural logarithm of one plus the number.
    fn ln_1p(self) -> (r: Self)
        ensures
            r == self.spec_ln_1p(),
    ;

    /// Hyperbolic tangent.
    fn tanh(self) -> (r: Self)
        ensures
            r == self.spec_tanh(),
    ;

    /// The number raised to `exponent`.
    fn pow(self, exponent: Self) -> (r: Self)
        ensures
            r == self.spec_pow(exponent),
    ;

    fn less(self, other: Self) -> (r: bool)
        ensures
            r == self.spec_less(other),
    ;

    fn at_most(self, other: Self) -> (r: bool)
        ensures
            r == self.spec_at_most(other),
    ;

    fn is_zero(self) -> (r: bool)
        ensures
            r == self.spec_is_zero(),
    ;

    fn finite(self) -> (r: bool)
        ensures
            r == self.spec_finite(),
    ;

    /// The field laws, that every number compares with itself, and what the pivot
    /// search needs of the magnitude order: it separates zero from everything else,
    /// and no number is below a tenth of itself.
    proof fn laws(a: Self, b: Self, c: Self)
        requires
            Self::exact(),
        ensures
            a.spec_plus(b) == b.spec_plus(a),
            a.spec_plus(b).spec_plus(c) == a.spec_plus(b.spec_plus(c)),
            a.spec_plus(Self::spec_zero()) == a,
            a.spec_minus(b).spec_plus(b) == a,
            a.spec_plus(b).spec_minus(b) == a,
            a.spec_plus(a.spec_negated()) == Self::spec_zero(),
            a.spec_times(b) == b.spec_times(a),
            a.spec_times(b).spec_times(c) == a.spec_times(b.spec_times(c)),
            a.spec_times(Self::spec_int(1)) == a,
            a.spec_times(Self::spec_zero()) == Self::spec_zero(),
            a.spec_plus(b).spec_times(c) == a.spec_times(c).spec_plus(b.spec_times(c)),
            b != Self::spec_zero() ==> a.spec_over(b).spec_times(b) == a,
            Self::spec_int(1) != Self::spec_zero(),
            a.spec_is_zero() <==> a == Self::spec_zero(),
            Self::spec_zero().spec_less(a.spec_abs()) <==> a != Self::spec_zero(),
            Self::spec_zero().spec_abs() == Self::spec_zero(),
            !a.spec_abs().spec_less(Self::spec_zero()),
            a.spec_at_most(a),
            a.spec_abs() == Self::spec_zero() ==> a == Self::spec_zero(),
            a.spec_abs().spec_less(b.spec_abs()) ==> b != Self::spec_zero(),
            b != Self::spec_zero() ==> !b.spec_abs().spec_less(
                Self::spec_int(1).spec_over(Self::spec_int(10)).spec_times(b.spec_abs()),
            ),
    ;

    /// Counting up adds one.
    proof fn integer_laws(n: i64)
        requires
            Self::exact(),
            0 <= n < i64::MAX,
        ensures
            Self::spec_int(0) == Self::spec_zero(),
            Self::spec_int((n + 1) as i64) == Self::spec_int(n).spec_plus(Self::spec_int(1)),
    ;
}

/// One tenth.
pub open spec fn tenth<S: Scalar>() -> S {
    S::spec_int(1).spec_over(S::spec_int(10))
}

/// Whether being below orders the numbers that compare with themselves: never both
/// ways round, and a number between two comparable ones is above the lower or below
/// the higher.
pub open spec fn ordered<S: Scalar>() -> bool {
    &&& S::spec_zero().spec_at_most(S::spec_zero())
    &&& forall|a: S, b: S| #[trigger] a.spec_less(b) ==> !b.spec_less(a)
    &&& forall|a: S, b: S, c: S|
        #![trigger a.spec_less(c), b.spec_at_most(b)]
        a.spec_less(c) && b.spec_at_most(b) ==> a.spec_less(b) || b.spec_less(c)
}

/// An integer modulo two: the smallest scalar with exact arithmetic, on which an
/// elimination can be checked without rounding. Odd is above even.
#[derive(Clone, Copy, Debug, PartialEq, Eq, Structural)]
pub struct Parity {
    pub odd: bool,
}

impl Scalar for Parity {
    open spec fn exact() -> bool {
        true
    }

    open spec fn spec_zero() -> Self {
        Parity { odd: false }
    }

    open spec fn spec_int(n: i64) -> Self {
        Parity { odd: n % 2 == 1 }
    }

    open spec fn spec_plus(self, other: Self) -> Self {
        Parity { odd: self.odd != other.odd }
    }

    open spec fn spec_minus(self, other: Self) -> Self {
        Parity { odd: self.odd != other.odd }
    }

    open spec fn spec_times(self, other: Self) -> Self {
        Parity { odd: self.odd && other.odd }
    }

    open spec fn spec_over(self, other: Self) -> Self {
        Parity { odd: self.odd && other.odd }
    }

    open spec fn spec_negated(self) -> Self {
        self
    }

    open spec fn spec_abs(self) -> Self {
        self
    }

    open spec fn spec_sqrt(self) -> Self {
        self
    }

    open spec fn spec_exp(self) -> Self {
        self
    }

    open spec fn spec_ln(self) -> Self {
        self
    }

    open spec fn spec_ln_1p(self) -> Self {
        self
    }

    open spec fn spec_tanh(self) -> Self {
        self
    }

    open spec fn spec_pow(self, exponent: Self) -> Self {
        Parity { odd: self.odd || !exponent.odd }
    }

    open spec fn spec_less(self, other: Self) -> bool {
        !self.odd && other.odd
    }

    open spec fn spec_at_most(self, other: Self) -> bool {
        !self.odd || other.odd
    }

    open spec fn spec_is_zero(self) -> bool {
        !self.odd
    }

    open spec fn spec_finite(self) -> bool {
        true
    }

    fn zero() -> (r: Self) {
        Parity { odd: false }
    }

    fn from_int(n: i64) -> (r: Self) {
        Parity { odd: n % 2 != 0 }
    }

    fn plus(self, other: Self) -> (r: Self) {
        Parity { odd: self.odd != other.odd }
    }

    fn minus(self, other: Self) -> (r: Self) {
        Parity { odd: self.odd != other.odd }
    }

    fn times(self, other: Self) -> (r: Self) {
        Parity { odd: self.odd && other.odd }
    }

    fn over(self, other: Self) -> (r: Self) {
        Parity { odd: self.odd && other.odd }
    }

    fn negated(self) -> (r: Self) {
        self
    }

    fn abs(self) -> (r: Self) {
        self
    }

    fn sqrt(self) -> (r: Self) {
        self
    }

    fn exp(self) -> (r: Self) {
        self
    }

    fn ln(self) -> (r: Self) {
        self
    }

    fn ln_1p(self) -> (r: Self) {
        self
    }

    fn tanh(self) -> (r: Self) {
        self
    }

    fn pow(self, exponent: Self) -> (r: Self) {
        Parity { odd: self.odd || !exponent.odd }
    }

    fn less(self, other: Self) -> (r: bool) {
        !self.odd && other.odd
    }

    fn at_most(self, other: Self) -> (r: bool) {
        !self.odd || other.odd
    }

    fn is_zero(self) -> (r: bool) {
        !self.odd
    }

    fn finite(self) -> (r: bool) {
        true
    }

    proof fn laws(a: Self, b: Self, c: Self) {
    }

    proof fn integer_laws(n: i64) {
    }
}

} // verus!
