//! Semirings. The same matching machinery run over a different semiring gives exact, fuzzy,
//! or counting answers. `mul` (the product) combines ALONG a match (a conjunction); `add`
//! (the sum) chooses the best ACROSS alternatives.
//!
//!   Reach    = exact matching            (and / or)
//!   Tropical = fuzzy best-cost matching  (+ / min),  None = infinity
//!   Count    = number of derivations     (* / +)

use vstd::prelude::*;

verus! {

/// A semiring: the values, their meaning, and the laws every carrier obeys.
pub trait Semiring: Sized {
    /// The `add`-identity and `mul`-annihilator: "no match / impossible".
    spec fn zero_spec() -> Self;

    /// The `mul`-identity: "exact, free".
    spec fn one_spec() -> Self;

    /// The sum of two values.
    spec fn add_spec(a: Self, b: Self) -> Self;

    /// The product of two values.
    spec fn mul_spec(a: Self, b: Self) -> Self;

    /// The sum is exact: representable without clamping at the machine bounds.
    spec fn add_defined(a: Self, b: Self) -> bool;

    /// The product is exact: representable without clamping at the machine bounds.
    spec fn mul_defined(a: Self, b: Self) -> bool;

    fn zero() -> (r: Self)
        ensures
            r == Self::zero_spec(),
    ;

    fn one() -> (r: Self)
        ensures
            r == Self::one_spec(),
    ;

    /// The sum: keep the best across alternatives.
    fn add(&self, other: &Self) -> (r: Self)
        ensures
            r == Self::add_spec(*self, *other),
    ;

    /// The product: combine along a match.
    fn mul(&self, other: &Self) -> (r: Self)
        ensures
            r == Self::mul_spec(*self, *other),
    ;

    /// Whether this is the zero ("no match").
    fn is_zero(&self) -> (b: bool)
        ensures
            b == (*self == Self::zero_spec()),
    ;

    /// `zero` is the identity of the sum and annihilates the product; `one` is the identity of
    /// the product; both are always defined with any value.
    proof fn lemma_units(a: Self)
        ensures
            Self::add_defined(Self::zero_spec(), a),
            Self::add_spec(Self::zero_spec(), a) == a,
            Self::mul_defined(Self::one_spec(), a),
            Self::mul_spec(Self::one_spec(), a) == a,
            Self::mul_defined(Self::zero_spec(), a),
            Self::mul_spec(Self::zero_spec(), a) == Self::zero_spec(),
    ;

    /// Sum and product are commutative.
    proof fn lemma_commutative(a: Self, b: Self)
        ensures
            Self::add_defined(a, b) == Self::add_defined(b, a),
            Self::add_spec(a, b) == Self::add_spec(b, a),
            Self::mul_defined(a, b) == Self::mul_defined(b, a),
            Self::mul_spec(a, b) == Self::mul_spec(b, a),
    ;

    /// Sum and product are associative, and the product distributes over the sum, wherever
    /// every step is defined.
    proof fn lemma_associative_distributive(a: Self, b: Self, c: Self)
        ensures
            Self::add_defined(a, b) && Self::add_defined(Self::add_spec(a, b), c) && Self::add_defined(b, c)
                && Self::add_defined(a, Self::add_spec(b, c)) ==> Self::add_spec(Self::add_spec(a, b), c)
                == Self::add_spec(a, Self::add_spec(b, c)),
            Self::mul_defined(a, b) && Self::mul_defined(Self::mul_spec(a, b), c) && Self::mul_defined(b, c)
                && Self::mul_defined(a, Self::mul_spec(b, c)) ==> Self::mul_spec(Self::mul_spec(a, b), c)
                == Self::mul_spec(a, Self::mul_spec(b, c)),
            Self::add_defined(b, c) && Self::mul_defined(a, Self::add_spec(b, c)) && Self::mul_defined(a, b)
                && Self::mul_defined(a, c) && Self::add_defined(Self::mul_spec(a, b), Self::mul_spec(a, c))
                ==> Self::mul_spec(a, Self::add_spec(b, c)) == Self::add_spec(Self::mul_spec(a, b), Self::mul_spec(a, c)),
    ;
}

/// Reachability / Boolean: exact matching. product = and, sum = or.
#[derive(Clone, Copy, PartialEq, Eq, Debug)]
pub struct Reach(pub bool);

impl Semiring for Reach {
    open spec fn zero_spec() -> Self {
        Reach(false)
    }

    open spec fn one_spec() -> Self {
        Reach(true)
    }

    open spec fn add_spec(a: Self, b: Self) -> Self {
        Reach(a.0 || b.0)
    }

    open spec fn mul_spec(a: Self, b: Self) -> Self {
        Reach(a.0 && b.0)
    }

    open spec fn add_defined(a: Self, b: Self) -> bool {
        true
    }

    open spec fn mul_defined(a: Self, b: Self) -> bool {
        true
    }

    fn zero() -> (r: Self) {
        Reach(false)
    }

    fn one() -> (r: Self) {
        Reach(true)
    }

    fn add(&self, o: &Self) -> (r: Self) {
        Reach(self.0 || o.0)
    }

    fn mul(&self, o: &Self) -> (r: Self) {
        Reach(self.0 && o.0)
    }

    fn is_zero(&self) -> (b: bool) {
        !self.0
    }

    proof fn lemma_units(a: Self) {
    }

    proof fn lemma_commutative(a: Self, b: Self) {
    }

    proof fn lemma_associative_distributive(a: Self, b: Self, c: Self) {
    }
}

/// Tropical (min, +): a cost. `None` is infinity (no match). product = +, sum = min. A product
/// beyond the `i64` range is clamped to the range's bound.
#[derive(Clone, Copy, PartialEq, Eq, Debug)]
pub struct Tropical(pub Option<i64>);

/// `x` clamped to the `i64` range.
pub open spec fn clamp_i64(x: int) -> i64 {
    if x > i64::MAX { i64::MAX } else if x < i64::MIN { i64::MIN } else { x as i64 }
}

/// `x` clamped to the `u64` range.
pub open spec fn clamp_u64(x: int) -> u64 {
    if x > u64::MAX { u64::MAX } else { x as u64 }
}

impl Semiring for Tropical {
    open spec fn zero_spec() -> Self {
        Tropical(None)
    }

    open spec fn one_spec() -> Self {
        Tropical(Some(0))
    }

    open spec fn add_spec(a: Self, b: Self) -> Self {
        Tropical(
            match (a.0, b.0) {
                (None, x) => x,
                (x, None) => x,
                (Some(x), Some(y)) => Some(if x <= y { x } else { y }),
            },
        )
    }

    open spec fn mul_spec(a: Self, b: Self) -> Self {
        Tropical(
            match (a.0, b.0) {
                (Some(x), Some(y)) => Some(clamp_i64(x + y)),
                _ => None,
            },
        )
    }

    open spec fn add_defined(a: Self, b: Self) -> bool {
        true
    }

    open spec fn mul_defined(a: Self, b: Self) -> bool {
        match (a.0, b.0) {
            (Some(x), Some(y)) => i64::MIN <= x + y <= i64::MAX,
            _ => true,
        }
    }

    fn zero() -> (r: Self) {
        Tropical(None)
    }

    fn one() -> (r: Self) {
        Tropical(Some(0))
    }

    fn add(&self, o: &Self) -> (r: Self) {
        Tropical(
            match (self.0, o.0) {
                (None, x) => x,
                (x, None) => x,
                (Some(a), Some(b)) => Some(if a <= b { a } else { b }),
            },
        )
    }

    fn mul(&self, o: &Self) -> (r: Self) {
        Tropical(
            match (self.0, o.0) {
                (Some(a), Some(b)) => Some(
                    if b > 0 && a > i64::MAX - b {
                        i64::MAX
                    } else if b < 0 && a < i64::MIN - b {
                        i64::MIN
                    } else {
                        a + b
                    },
                ),
                _ => None,
            },
        )
    }

    fn is_zero(&self) -> (b: bool) {
        self.0.is_none()
    }

    proof fn lemma_units(a: Self) {
    }

    proof fn lemma_commutative(a: Self, b: Self) {
    }

    proof fn lemma_associative_distributive(a: Self, b: Self, c: Self) {
    }
}

/// Counting: how many ways a match succeeds. product = *, sum = +. A count beyond the `u64`
/// range is clamped to `u64::MAX`.
#[derive(Clone, Copy, PartialEq, Eq, Debug)]
pub struct Count(pub u64);

impl Semiring for Count {
    open spec fn zero_spec() -> Self {
        Count(0)
    }

    open spec fn one_spec() -> Self {
        Count(1)
    }

    open spec fn add_spec(a: Self, b: Self) -> Self {
        Count(clamp_u64(a.0 + b.0))
    }

    open spec fn mul_spec(a: Self, b: Self) -> Self {
        Count(clamp_u64(a.0 * b.0))
    }

    open spec fn add_defined(a: Self, b: Self) -> bool {
        a.0 + b.0 <= u64::MAX
    }

    open spec fn mul_defined(a: Self, b: Self) -> bool {
        a.0 * b.0 <= u64::MAX
    }

    fn zero() -> (r: Self) {
        Count(0)
    }

    fn one() -> (r: Self) {
        Count(1)
    }

    fn add(&self, o: &Self) -> (r: Self) {
        Count(self.0.saturating_add(o.0))
    }

    fn mul(&self, o: &Self) -> (r: Self) {
        match self.0.checked_mul(o.0) {
            Some(v) => Count(v),
            None => Count(u64::MAX),
        }
    }

    fn is_zero(&self) -> (b: bool) {
        self.0 == 0
    }

    proof fn lemma_units(a: Self) {
    }

    proof fn lemma_commutative(a: Self, b: Self) {
        assert(a.0 * b.0 == b.0 * a.0) by (nonlinear_arith);
    }

    proof fn lemma_associative_distributive(a: Self, b: Self, c: Self) {
        let (x, y, z) = (a.0 as int, b.0 as int, c.0 as int);
        assert((x * y) * z == x * (y * z)) by (nonlinear_arith);
        assert(x * (y + z) == x * y + x * z) by (nonlinear_arith);
        if Self::mul_defined(a, b) && Self::mul_defined(Self::mul_spec(a, b), c) {
            assert(Self::mul_spec(a, b).0 == x * y);
        }
        if Self::mul_defined(b, c) && Self::mul_defined(a, Self::mul_spec(b, c)) {
            assert(Self::mul_spec(b, c).0 == y * z);
        }
        if Self::add_defined(b, c) && Self::mul_defined(a, Self::add_spec(b, c)) && Self::mul_defined(a, b)
            && Self::mul_defined(a, c) {
            assert(Self::add_spec(b, c).0 == y + z);
            assert(Self::mul_spec(a, b).0 == x * y);
            assert(Self::mul_spec(a, c).0 == x * z);
        }
    }
}

} // verus!
