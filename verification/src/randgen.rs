//! A small deterministic generator of random conjunctive queries and schematic fact sets,
//! biased so the facts carry data variables and shallow compounds (so capture is actually
//! exercised).

use vstd::prelude::*;
use crate::term::{Term, TermV, fv, fv_all, views, lemma_view_app, lemma_fv_all, collect_seq};
use crate::oracle::Conj;

verus! {

/// A tiny xorshift RNG (deterministic, seedable).
pub struct Rng(pub u64);

/// The xorshift step on the state.
pub open spec fn xorshift(x: u64) -> u64 {
    let a = x ^ (x >> 12u64);
    let b = a ^ (a << 25u64);
    b ^ (b >> 27u64)
}

/// The output scrambling of a state: a wrapping multiply by an odd constant.
pub open spec fn scramble(x: u64) -> u64 {
    ((x as nat * 0x2545F4914F6CDD1Dnat) % 0x1_0000_0000_0000_0000nat) as u64
}

impl Rng {
    /// Advance the state and return the next output.
    pub fn next(&mut self) -> (r: u64)
        ensures
            final(self).0 == xorshift(old(self).0),
            r == scramble(xorshift(old(self).0)),
    {
        let mut x = self.0;
        x ^= x >> 12;
        x ^= x << 25;
        x ^= x >> 27;
        self.0 = x;
        x.wrapping_mul(0x2545F4914F6CDD1D)
    }

    /// A number below `n`, from the next output.
    pub fn below(&mut self, n: usize) -> (r: usize)
        requires
            n > 0,
        ensures
            final(self).0 == xorshift(old(self).0),
            r == scramble(xorshift(old(self).0)) % (n as u64),
            r < n,
    {
        (self.next() % n as u64) as usize
    }

    /// True with probability `a / b` over the next output.
    pub fn chance(&mut self, a: usize, b: usize) -> (r: bool)
        requires
            b > 0,
        ensures
            final(self).0 == xorshift(old(self).0),
            r == (scramble(xorshift(old(self).0)) % (b as u64) < a),
    {
        self.below(b) < a
    }
}

/// The name of the `i`th symbol the generator draws from (the last one for any later `i`).
pub open spec fn sym_of(i: int) -> Seq<char> {
    if i == 0 {
        "a"@
    } else if i == 1 {
        "b"@
    } else {
        "c"@
    }
}

/// The symbols the generator draws from.
fn sym_name(i: usize) -> (r: &'static str)
    ensures
        r@ == sym_of(i as int),
{
    if i == 0 {
        "a"
    } else if i == 1 {
        "b"
    } else {
        "c"
    }
}

/// The `i`th relation the generator draws from, with its arity (the last one for any later `i`).
pub open spec fn rel_of(i: int) -> (Seq<char>, nat) {
    if i == 0 {
        ("e"@, 2)
    } else if i == 1 {
        ("r"@, 2)
    } else {
        ("p"@, 1)
    }
}

/// The relations the generator draws from, with their arities.
fn rel_name(i: usize) -> (r: (&'static str, usize))
    ensures
        1 <= r.1 <= 2,
        r.0@ == rel_of(i as int).0,
        r.1 == rel_of(i as int).1,
{
    if i == 0 {
        ("e", 2)
    } else if i == 1 {
        ("r", 2)
    } else {
        ("p", 1)
    }
}

/// The term has at most `depth` levels of expressions, each with a symbol head and at most
/// two arguments after it.
pub open spec fn shallow(t: TermV, depth: nat) -> bool
    decreases t,
{
    match t {
        TermV::Sym(_) => true,
        TermV::Var(_) => true,
        TermV::App(a) => depth > 0 && 2 <= a.len() <= 3 && a[0] is Sym
            && forall|i: int| 1 <= i < a.len() ==> shallow(#[trigger] a[i], (depth - 1) as nat),
    }
}

/// The argument drawn from state `s`, and the state after it: a variable from `pool` (four in
/// ten), a symbol (the rest, or always at depth 0), or an expression of a symbol and one or two
/// arguments drawn one level shallower.
pub open spec fn arg_of(s: u64, pool: nat, depth: nat) -> (TermV, u64)
    decreases depth, 1nat, 0nat,
{
    let s1 = xorshift(s);
    let r = scramble(s1) % 10;
    let s2 = xorshift(s1);
    if r < 4 && pool > 0 {
        (TermV::Var((scramble(s2) % (pool as u64)) as u32), s2)
    } else if r < 8 || depth == 0 {
        (TermV::Sym(sym_of((scramble(s2) % 3) as int)), s2)
    } else {
        let n = 1 + scramble(s2) % 2;
        let s3 = xorshift(s2);
        let head = TermV::Sym(sym_of((scramble(s3) % 3) as int));
        let (xs, s4) = args_of(s3, pool, (depth - 1) as nat, n as nat);
        (TermV::App(seq![head] + xs), s4)
    }
}

/// `k` arguments drawn in turn from state `s`, and the state after them.
pub open spec fn args_of(s: u64, pool: nat, depth: nat, k: nat) -> (Seq<TermV>, u64)
    decreases depth, 2nat, k,
{
    if k == 0 {
        (seq![], s)
    } else {
        let (xs, s1) = args_of(s, pool, depth, (k - 1) as nat);
        let (t, s2) = arg_of(s1, pool, depth);
        (xs.push(t), s2)
    }
}

/// The atom drawn from state `s`, and the state after it: a relation symbol and its arguments
/// drawn at depth 2.
pub open spec fn atom_of(s: u64, pool: nat) -> (TermV, u64) {
    let s1 = xorshift(s);
    let (rel, ar) = rel_of((scramble(s1) % 3) as int);
    let (xs, s2) = args_of(s1, pool, 2, ar);
    (TermV::App(seq![TermV::Sym(rel)] + xs), s2)
}

/// A random argument: a variable from `pool`, a symbol, or a shallow compound (a compound is
/// what lets a stored variable capture something non-ground).
#[verifier::rlimit(40)]
fn gen_arg(rng: &mut Rng, pool: usize, depth: usize) -> (t: Term)
    requires
        pool <= u32::MAX,
    ensures
        forall|v: u32| fv(t@).contains(v) ==> v < pool,
        shallow(t@, depth as nat),
        (t@, final(rng).0) == arg_of(old(rng).0, pool as nat, depth as nat),
    decreases depth,
{
    let r = rng.below(10);
    if r < 4 && pool > 0 {
        Term::Var(rng.below(pool) as u32)
    } else if r < 8 || depth == 0 {
        Term::sym(sym_name(rng.below(3)))
    } else {
        let n = 1 + rng.below(2);
        let mut args: Vec<Term> = Vec::new();
        args.push(Term::sym(sym_name(rng.below(3))));
        let ghost s3 = rng.0;
        let ghost head = args@[0]@;
        proof {
            assert(args_of(s3, pool as nat, (depth - 1) as nat, 0).0 =~= Seq::new(0, |i: int| args@[i + 1]@));
        }
        let mut k: usize = 0;
        while k < n
            invariant
                k <= n <= 2,
                pool <= u32::MAX,
                depth > 0,
                args@.len() == k + 1,
                args@[0]@ is Sym,
                args@[0]@ == head,
                args_of(s3, pool as nat, (depth - 1) as nat, k as nat).0 == Seq::new(k as nat, |i: int| args@[i + 1]@),
                args_of(s3, pool as nat, (depth - 1) as nat, k as nat).1 == rng.0,
                forall|i: int, v: u32| 0 <= i < args@.len() && #[trigger] fv(args@[i]@).contains(v) ==> v < pool,
                forall|i: int| 1 <= i < args@.len() ==> shallow(#[trigger] args@[i]@, (depth - 1) as nat),
            decreases n - k,
        {
            let ghost a0 = args@;
            let a = gen_arg(rng, pool, depth - 1);
            args.push(a);
            proof {
                assert(args_of(s3, pool as nat, (depth - 1) as nat, (k + 1) as nat).0 =~= Seq::new((k + 1) as nat, |i: int| args@[i + 1]@)) by {
                    assert forall|i: int| 0 <= i < k implies #[trigger] args@[i + 1] == a0[i + 1] by {}
                }
            }
            k += 1;
        }
        proof {
            lemma_view_app(args);
            let va = views(args@);
            assert(va =~= seq![va[0]] + Seq::new(n as nat, |i: int| args@[i + 1]@));
            lemma_fv_all(va, va.len());
            assert forall|i: int| 1 <= i < va.len() implies shallow(#[trigger] va[i], (depth - 1) as nat) by {
                assert(va[i] == args@[i]@);
            }
            assert forall|v: u32| fv(TermV::App(va)).contains(v) implies v < pool by {
                assert(fv_all(va, va.len()).contains(v));
                let i = choose|i: int| 0 <= i < va.len() && #[trigger] fv(va[i]).contains(v);
                assert(va[i] == args@[i]@);
            }
        }
        Term::App(args)
    }
}

/// A random `(rel arg..)` atom over a shared variable pool.
fn gen_atom(rng: &mut Rng, pool: usize) -> (t: Term)
    requires
        pool <= u32::MAX,
    ensures
        forall|v: u32| fv(t@).contains(v) ==> v < pool,
        shallow(t@, 3),
        (t@, final(rng).0) == atom_of(old(rng).0, pool as nat),
{
    let (rel, arity) = rel_name(rng.below(3));
    let mut args: Vec<Term> = Vec::new();
    args.push(Term::sym(rel));
    let ghost s1 = rng.0;
    let ghost head = args@[0]@;
    proof {
        assert(args_of(s1, pool as nat, 2, 0).0 =~= Seq::new(0, |i: int| args@[i + 1]@));
    }
    let mut k: usize = 0;
    while k < arity
        invariant
            k <= arity <= 2,
            pool <= u32::MAX,
            args@.len() == k + 1,
            args@[0]@ is Sym,
            args@[0]@ == head,
            args_of(s1, pool as nat, 2, k as nat).0 == Seq::new(k as nat, |i: int| args@[i + 1]@),
            args_of(s1, pool as nat, 2, k as nat).1 == rng.0,
            forall|i: int, v: u32| 0 <= i < args@.len() && #[trigger] fv(args@[i]@).contains(v) ==> v < pool,
            forall|i: int| 1 <= i < args@.len() ==> shallow(#[trigger] args@[i]@, 2),
        decreases arity - k,
    {
        let ghost a0 = args@;
        let a = gen_arg(rng, pool, 2);
        args.push(a);
        proof {
            assert(args_of(s1, pool as nat, 2, (k + 1) as nat).0 =~= Seq::new((k + 1) as nat, |i: int| args@[i + 1]@)) by {
                assert forall|i: int| 0 <= i < k implies #[trigger] args@[i + 1] == a0[i + 1] by {}
            }
        }
        k += 1;
    }
    proof {
        lemma_view_app(args);
        let va = views(args@);
        assert(va =~= seq![va[0]] + Seq::new(arity as nat, |i: int| args@[i + 1]@));
        assert(va[0] == TermV::Sym(rel@));
        assert(rel_of((scramble(s1) % 3) as int).1 == arity);
        assert(atom_of(old(rng).0, pool as nat).0 == TermV::App(va));
        lemma_fv_all(va, va.len());
        assert forall|i: int| 1 <= i < va.len() implies shallow(#[trigger] va[i], 2) by {
            assert(va[i] == args@[i]@);
        }
        assert forall|v: u32| fv(TermV::App(va)).contains(v) implies v < pool by {
            assert(fv_all(va, va.len()).contains(v));
            let i = choose|i: int| 0 <= i < va.len() && #[trigger] fv(va[i]).contains(v);
            assert(va[i] == args@[i]@);
        }
    }
    Term::App(args)
}

/// `k` atoms over `pool` drawn in turn from state `s`, and the state after them.
pub open spec fn atoms_of(s: u64, pool: nat, k: nat) -> (Seq<TermV>, u64)
    decreases k,
{
    if k == 0 {
        (Seq::empty(), s)
    } else {
        let (xs, s1) = atoms_of(s, pool, (k - 1) as nat);
        let (t, s2) = atom_of(s1, pool);
        (xs.push(t), s2)
    }
}

/// The patterns of the query drawn from state `s`, and the state after them: a pool size in
/// 1..=3, then a count in 1..=3, then that many atoms over the pool.
pub open spec fn query_of(s: u64) -> (Seq<TermV>, u64) {
    let s1 = xorshift(s);
    let pool = 1 + scramble(s1) % 3;
    let s2 = xorshift(s1);
    let nf = 1 + scramble(s2) % 3;
    atoms_of(s2, pool as nat, nf as nat)
}

/// One fact drawn from state `s`: with even odds a schematic atom over a pool of 1 or 2
/// variables, otherwise a ground atom.
pub open spec fn fact_of(s: u64) -> (TermV, u64) {
    let s1 = xorshift(s);
    if scramble(s1) % 2 < 1 {
        let s2 = xorshift(s1);
        atom_of(s2, (1 + scramble(s2) % 2) as nat)
    } else {
        atom_of(s1, 0)
    }
}

/// `k` facts drawn in turn from state `s`, and the state after them.
pub open spec fn facts_of(s: u64, k: nat) -> (Seq<TermV>, u64)
    decreases k,
{
    if k == 0 {
        (Seq::empty(), s)
    } else {
        let (xs, s1) = facts_of(s, (k - 1) as nat);
        let (t, s2) = fact_of(s1);
        (xs.push(t), s2)
    }
}

/// The facts drawn from state `s`: a count in 3..=8, then that many facts.
pub open spec fn fact_set_of(s: u64) -> (Seq<TermV>, u64) {
    let s1 = xorshift(s);
    facts_of(s1, (3 + scramble(s1) % 6) as nat)
}

/// A query: 1..=3 atoms sharing a small variable pool (so they join and corefer).
pub fn gen_query(rng: &mut Rng) -> (q: Conj)
    ensures
        1 <= q.patterns@.len() <= 3,
        forall|i: int| 0 <= i < q.patterns@.len() ==> shallow(#[trigger] q.patterns@[i]@, 3),
        forall|i: int, v: u32| 0 <= i < q.patterns@.len() && #[trigger] fv(q.patterns@[i]@).contains(v) ==> v < 3,
        q.query_vars@ == collect_seq(views(q.patterns@), seq![]),
        (views(q.patterns@), final(rng).0) == query_of(old(rng).0),
{
    let pool = 1 + rng.below(3);
    let nf = 1 + rng.below(3);
    let ghost s2 = rng.0;
    let mut patterns: Vec<Term> = Vec::new();
    let mut k: usize = 0;
    proof {
        assert(views(patterns@) =~= Seq::<TermV>::empty());
    }
    while k < nf
        invariant
            k <= nf <= 3,
            1 <= pool <= 3,
            patterns@.len() == k,
            (views(patterns@), rng.0) == atoms_of(s2, pool as nat, k as nat),
            forall|i: int| 0 <= i < k ==> shallow(#[trigger] patterns@[i]@, 3),
            forall|i: int, v: u32| 0 <= i < k && #[trigger] fv(patterns@[i]@).contains(v) ==> v < pool,
        decreases nf - k,
    {
        let ghost p0 = patterns@;
        let t = gen_atom(rng, pool);
        patterns.push(t);
        proof {
            assert(views(patterns@) =~= views(p0).push(t@));
        }
        k += 1;
    }
    let mut query_vars: Vec<u32> = Vec::new();
    let ghost va = views(patterns@);
    proof {
        assert(va.subrange(0, va.len() as int) =~= va);
        assert(query_vars@ =~= Seq::<u32>::empty());
    }
    let mut i: usize = 0;
    while i < patterns.len()
        invariant
            i <= patterns@.len(),
            va == views(patterns@),
            collect_seq(va.subrange(i as int, va.len() as int), query_vars@) == collect_seq(va, seq![]),
        decreases patterns.len() - i,
    {
        proof {
            let r = va.subrange(i as int, va.len() as int);
            assert(r[0] == patterns@[i as int]@);
            assert(r.subrange(1, r.len() as int) =~= va.subrange(i + 1, va.len() as int));
        }
        patterns[i].collect_vars(&mut query_vars);
        i += 1;
    }
    proof {
        assert(va.subrange(va.len() as int, va.len() as int) =~= Seq::<TermV>::empty());
    }
    Conj { patterns, query_vars }
}

/// A fact set: several atoms, some ground and some schematic (their variables are data-side).
pub fn gen_facts(rng: &mut Rng) -> (facts: Vec<Term>)
    ensures
        3 <= facts@.len() <= 8,
        forall|i: int| 0 <= i < facts@.len() ==> shallow(#[trigger] facts@[i]@, 3),
        forall|i: int, v: u32| 0 <= i < facts@.len() && #[trigger] fv(facts@[i]@).contains(v) ==> v < 2,
        (views(facts@), final(rng).0) == fact_set_of(old(rng).0),
{
    let n = 3 + rng.below(6);
    let ghost s1 = rng.0;
    let mut facts: Vec<Term> = Vec::new();
    let mut k: usize = 0;
    proof {
        assert(views(facts@) =~= Seq::<TermV>::empty());
    }
    while k < n
        invariant
            k <= n <= 8,
            facts@.len() == k,
            (views(facts@), rng.0) == facts_of(s1, k as nat),
            forall|i: int| 0 <= i < k ==> shallow(#[trigger] facts@[i]@, 3),
            forall|i: int, v: u32| 0 <= i < k && #[trigger] fv(facts@[i]@).contains(v) ==> v < 2,
        decreases n - k,
    {
        let ghost f0 = facts@;
        let pool = if rng.chance(1, 2) { 1 + rng.below(2) } else { 0 };
        let t = gen_atom(rng, pool);
        facts.push(t);
        proof {
            assert(views(facts@) =~= views(f0).push(t@));
        }
        k += 1;
    }
    facts
}

} // verus!
