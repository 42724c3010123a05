//! The quantale: a bounded lattice plus a cost monoid.
//!
//! A fuzzy type is a bitset over a small universe of options. The lattice operations are the
//! unification algebra at the type level:
//!   - meet = bitwise AND = unification = intersection of allowed options,
//!   - join = bitwise OR  = anti-unification = union of options,
//!   - top  = all bits set = a variable (matches anything, the meet identity),
//!   - bottom = no bits     = a contradiction (the join identity).
//! A cost (any semiring) rides alongside as the metric.

use vstd::prelude::*;
use crate::semiring::Semiring;

verus! {

/// A fuzzy type: a bitset over a small universe of options.
#[derive(Clone, Copy, PartialEq, Eq, Debug)]
pub struct FuzzyType(pub u64);

/// The bits of the first `universe_bits` options.
pub open spec fn universe_mask(universe_bits: u32) -> u64 {
    if universe_bits >= 64 {
        u64::MAX
    } else {
        ((1u64 << universe_bits) - 1) as u64
    }
}

impl FuzzyType {
    /// The top element: every option allowed (a variable, matches anything).
    pub fn top(universe_bits: u32) -> (r: Self)
        ensures
            r.0 == universe_mask(universe_bits),
            forall|i: u64| i < 64 ==> (#[trigger] ((r.0 >> i) & 1) == 1 <==> i < universe_bits),
    {
        if universe_bits < 64 {
            let b = universe_bits as u64;
            assert(1u64 << b >= 1) by (bit_vector)
                requires
                    b < 64,
            ;
        }
        let r = FuzzyType(if universe_bits >= 64 { u64::MAX } else { (1u64 << universe_bits) - 1 });
        proof {
            let m = r.0;
            if universe_bits >= 64 {
                assert(forall|i: u64| i < 64 ==> #[trigger] ((m >> i) & 1) == 1) by (bit_vector)
                    requires
                        m == u64::MAX,
                ;
            } else {
                let b = universe_bits as u64;
                assert(1u64 << b >= 1) by (bit_vector)
                    requires
                        b < 64,
                ;
                assert(forall|i: u64| i < 64 ==> (#[trigger] ((m >> i) & 1) == 1 <==> i < b)) by (bit_vector)
                    requires
                        b < 64,
                        m == ((1u64 << b) - 1) as u64,
                ;
            }
        }
        r
    }

    /// The bottom element: no option (a contradiction).
    pub fn bottom() -> (r: Self)
        ensures
            r.0 == 0,
    {
        FuzzyType(0)
    }

    /// A single option.
    pub fn singleton(i: u32) -> (r: Self)
        requires
            i < 64,
        ensures
            r.0 == 1u64 << i,
    {
        FuzzyType(1u64 << i)
    }

    /// Meet = unification = intersection of allowed options.
    pub fn meet(self, o: Self) -> (r: Self)
        ensures
            r.0 == self.0 & o.0,
    {
        FuzzyType(self.0 & o.0)
    }

    /// Join = anti-unification = union of options.
    pub fn join(self, o: Self) -> (r: Self)
        ensures
            r.0 == self.0 | o.0,
    {
        FuzzyType(self.0 | o.0)
    }

    pub fn is_bottom(self) -> (b: bool)
        ensures
            b == (self.0 == 0),
    {
        self.0 == 0
    }
}

/// Fuzzy types form a bounded distributive lattice: meet and join are idempotent,
/// commutative and associative, absorb each other, distribute over each other, bottom is the
/// identity of join, and the universe's top is the identity of meet on the universe's types.
pub proof fn lemma_lattice(x: u64, y: u64, z: u64, universe_bits: u32)
    ensures
        x & x == x,
        x | x == x,
        x & y == y & x,
        x | y == y | x,
        (x & y) & z == x & (y & z),
        (x | y) | z == x | (y | z),
        x & (x | y) == x,
        x | (x & y) == x,
        x & (y | z) == (x & y) | (x & z),
        x | (y & z) == (x | y) & (x | z),
        0u64 | x == x,
        x & 0u64 == 0u64,
        x & !universe_mask(universe_bits) == 0 ==> universe_mask(universe_bits) & x == x,
{
    let m = universe_mask(universe_bits);
    assert({
        &&& x & x == x
        &&& x | x == x
        &&& x & y == y & x
        &&& x | y == y | x
        &&& (x & y) & z == x & (y & z)
        &&& (x | y) | z == x | (y | z)
        &&& x & (x | y) == x
        &&& x | (x & y) == x
        &&& x & (y | z) == (x & y) | (x & z)
        &&& x | (y & z) == (x | y) & (x | z)
        &&& 0u64 | x == x
        &&& x & 0u64 == 0u64
        &&& (x & !m == 0 ==> m & x == x)
    }) by (bit_vector);
}

/// A quantale element: a lattice value (the type/region) and a cost (the metric).
#[derive(Clone, Copy, PartialEq, Eq, Debug)]
pub struct Q<S: Semiring> {
    pub ty: FuzzyType,
    pub cost: S,
}

impl<S: Semiring> Q<S> {
    pub fn new(ty: FuzzyType, cost: S) -> (r: Self)
        ensures
            r.ty == ty,
            r.cost == cost,
    {
        Q { ty, cost }
    }

    /// The identity for meet: a variable (top type) at no cost.
    pub fn top(universe_bits: u32) -> (r: Self)
        ensures
            r.ty.0 == universe_mask(universe_bits),
            r.cost == S::one_spec(),
    {
        Q { ty: FuzzyType::top(universe_bits), cost: S::one() }
    }

    /// Combine ALONG a match: meet the types, multiply the costs.
    pub fn meet(&self, o: &Self) -> (r: Self)
        ensures
            r.ty.0 == self.ty.0 & o.ty.0,
            r.cost == S::mul_spec(self.cost, o.cost),
    {
        Q { ty: self.ty.meet(o.ty), cost: self.cost.mul(&o.cost) }
    }

    /// Combine ACROSS alternatives: join the types, add (best-of) the costs.
    pub fn join(&self, o: &Self) -> (r: Self)
        ensures
            r.ty.0 == self.ty.0 | o.ty.0,
            r.cost == S::add_spec(self.cost, o.cost),
    {
        Q { ty: self.ty.join(o.ty), cost: self.cost.add(&o.cost) }
    }

    /// Impossible if the type bottomed out or the cost is the annihilator.
    pub fn is_impossible(&self) -> (b: bool)
        ensures
            b == (self.ty.0 == 0 || self.cost == S::zero_spec()),
    {
        self.ty.is_bottom() || self.cost.is_zero()
    }
}

/// `Q::top` is the identity of meet on the universe's types: a variable at no cost.
pub proof fn lemma_q_top_identity<S: Semiring>(universe_bits: u32, x: Q<S>)
    requires
        x.ty.0 & !universe_mask(universe_bits) == 0,
    ensures
        S::mul_defined(S::one_spec(), x.cost),
        universe_mask(universe_bits) & x.ty.0 == x.ty.0,
        S::mul_spec(S::one_spec(), x.cost) == x.cost,
{
    S::lemma_units(x.cost);
    lemma_lattice(x.ty.0, 0, 0, universe_bits);
}

} // verus!
