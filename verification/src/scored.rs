//! The exact matcher generalized over a semiring. One matcher; with the Reach semiring and an
//! exact leaf it is the exact matcher, with Tropical and a distance leaf it is fuzzy best-cost
//! matching, with Count it counts derivations.
//!
//! Hard structure (arity) stays exact: a structural mismatch is the annihilator. Only *leaves*
//! are scored. A repeated variable re-checks against its binding carrying a cost, so a shared
//! join key can match approximately: that is the fuzzy join.

use vstd::prelude::*;
use std::collections::BTreeMap;
use crate::term::{Term, TermV, views, lemma_view_app, fv, fv_all, lemma_fv_all};
use crate::unify::{Env, closed_in, lemma_instance_trans};
use crate::subst::{subst, instance_of, lemma_instance_absorbs, lemma_subst_app, lemma_fv_finite, lemma_subst_idem, lemma_occurs_size};
use crate::semiring::{Semiring, Tropical};
use crate::oracle::{
    Conj, answer_key, ready, answers, found, found_below, completes, matched, answer_of, choice_pairs, is_mgu, mgu,
    unifies, is_choice, level_base, DATA_VAR_BASE, DATA_VAR_STRIDE, lemma_found_step, lemma_level_base_prefix,
    lemma_level_base_bound, lemma_room, lemma_pairs_prefix, lemma_unifies_prefix, lemma_mgu_key,
};
use crate::text::{parse_i64, decimal_i64, bytes_eq};
use crate::oracle::{has_key, key_of, tuple_of};
use crate::term::encodable;

verus! {

/// `leaf` scores a pair of symbols `one` when they are equal and `zero` otherwise.
pub open spec fn exact_leaves<S: Semiring, F: Fn(&Term, &Term) -> S>(leaf: F) -> bool {
    &&& S::one_spec() != S::zero_spec()
    &&& forall|p: &Term, d: &Term, r: S| #[trigger] leaf.ensures((p, d), r) ==> r == (if p@ == d@ {
        S::one_spec()
    } else {
        S::zero_spec()
    })
}

/// `leaf` scores every pair of terms by the spec function `lf`.
pub open spec fn leaf_is<S: Semiring, F: Fn(&Term, &Term) -> S>(leaf: F, lf: spec_fn(TermV, TermV) -> S) -> bool {
    forall|p: &Term, d: &Term, r: S| #[trigger] leaf.ensures((p, d), r) ==> r == lf(p@, d@)
}

/// The variables of `p` and `d` together.
pub open spec fn pair_vars(p: TermV, d: TermV) -> Set<u32> {
    fv(p).union(fv(d))
}

/// No variable is met twice when `p` is matched against `d`: a variable facing a term does not
/// occur in it, and the argument pairs of two expressions of one arity share no variable.
pub open spec fn linear(p: TermV, d: TermV) -> bool
    decreases p,
{
    match p {
        TermV::Var(x) => !fv(d).contains(x),
        TermV::Sym(_) => match d {
            TermV::Var(y) => !fv(p).contains(y),
            _ => true,
        },
        TermV::App(xs) => match d {
            TermV::Var(y) => !fv(p).contains(y),
            TermV::App(ys) => xs.len() == ys.len() ==> {
                &&& forall|j: int| 0 <= j < xs.len() ==> linear(xs[j], #[trigger] ys[j])
                &&& forall|j: int, k: int, v: u32| 0 <= j < xs.len() && 0 <= k < xs.len() && j != k
                    && #[trigger] pair_vars(xs[j], ys[j]).contains(v) ==> !#[trigger] pair_vars(xs[k], ys[k]).contains(v)
            },
            _ => true,
        },
    }
}

/// The cost of matching `p` against `d` when no variable is met twice: a variable matches
/// anything at `one`, two symbols cost what `lf` gives them, two expressions of one arity the
/// product of their arguments' costs, and any other pair `zero`.
pub open spec fn lin_cost<S: Semiring>(lf: spec_fn(TermV, TermV) -> S, p: TermV, d: TermV) -> S
    decreases p, 0nat,
{
    match p {
        TermV::Var(_) => S::one_spec(),
        TermV::Sym(_) => match d {
            TermV::Var(_) => S::one_spec(),
            TermV::Sym(_) => lf(p, d),
            _ => S::zero_spec(),
        },
        TermV::App(xs) => match d {
            TermV::Var(_) => S::one_spec(),
            TermV::App(ys) => if xs.len() == ys.len() { lin_fold(lf, xs, ys, xs.len()) } else { S::zero_spec() },
            _ => S::zero_spec(),
        },
    }
}

/// The product of the costs of the first `k` argument pairs.
pub open spec fn lin_fold<S: Semiring>(lf: spec_fn(TermV, TermV) -> S, xs: Seq<TermV>, ys: Seq<TermV>, k: nat) -> S
    decreases xs, k,
{
    if k == 0 || k > xs.len() {
        S::one_spec()
    } else {
        S::mul_spec(lin_fold(lf, xs, ys, (k - 1) as nat), lin_cost(lf, xs[k - 1], ys[k - 1]))
    }
}

proof fn lemma_fold_zero<S: Semiring>(lf: spec_fn(TermV, TermV) -> S, xs: Seq<TermV>, ys: Seq<TermV>, k: nat, n: nat)
    requires
        1 <= k <= n <= xs.len(),
        lin_fold(lf, xs, ys, k) == S::zero_spec(),
    ensures
        lin_fold(lf, xs, ys, n) == S::zero_spec(),
    decreases n - k,
{
    if k < n {
        S::lemma_units(lin_cost(lf, xs[k as int], ys[k as int]));
        lemma_fold_zero(lf, xs, ys, k + 1, n);
    }
}

/// `s2` makes `p` and `d` equal and is an instance of every unifier of them extending `s1`.
pub open spec fn mgu_step(s1: Map<u32, TermV>, s2: Map<u32, TermV>, p: TermV, d: TermV) -> bool {
    &&& subst(s2, p) == subst(s2, d)
    &&& forall|th: Map<u32, TermV>| #[trigger] instance_of(th, s1) && subst(th, p) == subst(th, d) ==> instance_of(th, s2)
}

/// No substitution extending `s1` makes `p` and `d` equal.
pub open spec fn no_unifier(s1: Map<u32, TermV>, p: TermV, d: TermV) -> bool {
    forall|th: Map<u32, TermV>| #[trigger] instance_of(th, s1) ==> subst(th, p) != subst(th, d)
}

/// Every value `s` gives is ground.
pub open spec fn gsub(s: Map<u32, TermV>) -> bool {
    forall|v: u32| #[trigger] s.contains_key(v) ==> crate::term::ground(s[v])
}

/// `s` extended, from left to right, by binding each variable of `t` that `s` leaves unbound to
/// the part of `d` it faces.
pub open spec fn bind_all(s: Map<u32, TermV>, t: TermV, d: TermV) -> Map<u32, TermV>
    decreases t, 0nat,
{
    match t {
        TermV::Var(x) => if s.contains_key(x) { s } else { s.insert(x, d) },
        TermV::App(xs) => match d {
            TermV::App(ys) => if xs.len() == ys.len() { bind_fold(s, xs, ys, xs.len()) } else { s },
            _ => s,
        },
        _ => s,
    }
}

/// [`bind_all`] over the first `k` argument pairs, in order.
pub open spec fn bind_fold(s: Map<u32, TermV>, xs: Seq<TermV>, ys: Seq<TermV>, k: nat) -> Map<u32, TermV>
    decreases xs, k,
{
    if k == 0 || k > xs.len() {
        s
    } else {
        bind_all(bind_fold(s, xs, ys, (k - 1) as nat), xs[k - 1], ys[k - 1])
    }
}

/// The cost of matching `t` against `d` under the bindings `s`, from left to right: a bound
/// variable costs what its value against `d` costs ([`lin_cost`]), an unbound one `one` (it is
/// bound to `d`), a symbol what `lf` gives it against a symbol, a compound against one of its
/// arity the product of its arguments' costs, each argument matched under the bindings that
/// the arguments before it made ([`bind_fold`]); any other pair as [`lin_cost`] says.
pub open spec fn gcost<S: Semiring>(lf: spec_fn(TermV, TermV) -> S, s: Map<u32, TermV>, t: TermV, d: TermV) -> S
    decreases t, 0nat,
{
    match t {
        TermV::Var(x) => if s.contains_key(x) { lin_cost(lf, s[x], d) } else { S::one_spec() },
        TermV::App(xs) => match d {
            TermV::App(ys) => if xs.len() == ys.len() { gfold(lf, s, xs, ys, xs.len()) } else { S::zero_spec() },
            _ => lin_cost(lf, t, d),
        },
        _ => lin_cost(lf, t, d),
    }
}

/// The product of the costs of the first `k` argument pairs, in order, each under the bindings
/// the pairs before it made.
pub open spec fn gfold<S: Semiring>(lf: spec_fn(TermV, TermV) -> S, s: Map<u32, TermV>, xs: Seq<TermV>, ys: Seq<TermV>, k: nat) -> S
    decreases xs, k,
{
    if k == 0 || k > xs.len() {
        S::one_spec()
    } else {
        S::mul_spec(gfold(lf, s, xs, ys, (k - 1) as nat), gcost(lf, bind_fold(s, xs, ys, (k - 1) as nat), xs[k - 1], ys[k - 1]))
    }
}

proof fn lemma_gfold_zero<S: Semiring>(lf: spec_fn(TermV, TermV) -> S, s: Map<u32, TermV>, xs: Seq<TermV>, ys: Seq<TermV>, k: nat, n: nat)
    requires
        1 <= k <= n <= xs.len(),
        gfold(lf, s, xs, ys, k) == S::zero_spec(),
    ensures
        gfold(lf, s, xs, ys, n) == S::zero_spec(),
    decreases n - k,
{
    if k < n {
        S::lemma_units(gcost(lf, bind_fold(s, xs, ys, k), xs[k as int], ys[k as int]));
        lemma_gfold_zero(lf, s, xs, ys, k + 1, n);
    }
}

/// Where `s` binds every variable of `t` to a ground term, matching `t` costs what its image
/// against `d` costs and binds nothing.
proof fn lemma_gcost_bound<S: Semiring>(lf: spec_fn(TermV, TermV) -> S, s: Map<u32, TermV>, t: TermV, d: TermV)
    requires
        gsub(s),
        forall|v: u32| fv(t).contains(v) ==> s.contains_key(v),
    ensures
        gcost(lf, s, t, d) == lin_cost(lf, subst(s, t), d),
        bind_all(s, t, d) == s,
    decreases t, 0nat,
{
    match t {
        TermV::Var(x) => {
            assert(fv(t).contains(x));
        },
        TermV::Sym(_) => {},
        TermV::App(xs) => {
            let ws = Seq::new(xs.len(), |j: int| subst(s, xs[j]));
            lemma_subst_app(s, xs);
            lemma_fv_all(xs, xs.len());
            assert forall|j: int, v: u32| 0 <= j < xs.len() && #[trigger] fv(xs[j]).contains(v) implies s.contains_key(v) by {
                assert(fv_all(xs, xs.len()).contains(v));
            }
            if let TermV::App(ys) = d {
                if xs.len() == ys.len() {
                    lemma_gfold_bound(lf, s, xs, ys, xs.len());
                }
            }
        },
    }
}

proof fn lemma_gfold_bound<S: Semiring>(lf: spec_fn(TermV, TermV) -> S, s: Map<u32, TermV>, xs: Seq<TermV>, ys: Seq<TermV>, k: nat)
    requires
        gsub(s),
        k <= xs.len(),
        forall|j: int, v: u32| 0 <= j < xs.len() && #[trigger] fv(xs[j]).contains(v) ==> s.contains_key(v),
    ensures
        gfold(lf, s, xs, ys, k) == lin_fold(lf, Seq::new(xs.len(), |j: int| subst(s, xs[j])), ys, k),
        bind_fold(s, xs, ys, k) == s,
    decreases xs, k,
{
    if k > 0 {
        lemma_gfold_bound(lf, s, xs, ys, (k - 1) as nat);
        lemma_gcost_bound(lf, s, xs[k - 1], ys[k - 1]);
    }
}

/// Under a substitution into ground terms, the variables of `subst(s, t)` are those of `t`
/// that `s` leaves unbound.
proof fn lemma_fv_subst_ground(s: Map<u32, TermV>, t: TermV)
    requires
        gsub(s),
    ensures
        forall|u: u32| #[trigger] fv(subst(s, t)).contains(u) <==> fv(t).contains(u) && !s.contains_key(u),
{
    crate::subst::lemma_fv_subst(s, t);
    assert forall|u: u32| #[trigger] fv(subst(s, t)).contains(u) <==> fv(t).contains(u) && !s.contains_key(u) by {
        if fv(subst(s, t)).contains(u) {
            let w = choose|w: u32| fv(t).contains(w) && crate::subst::vimg(s, w, u);
            if s.contains_key(w) {
                crate::term::lemma_ground_fv(s[w]);
            }
        }
        if fv(t).contains(u) && !s.contains_key(u) {
            assert(crate::subst::vimg(s, u, u));
        }
    }
}

/// [`bind_all`] keeps what `s` binds, binds only variables of `t`, and binds them to ground
/// terms when `d` is ground.
proof fn lemma_bind_all(s: Map<u32, TermV>, t: TermV, d: TermV)
    requires
        gsub(s),
        crate::term::ground(d),
    ensures
        gsub(bind_all(s, t, d)),
        forall|w: u32| s.contains_key(w) ==> bind_all(s, t, d).contains_key(w) && bind_all(s, t, d)[w] == s[w],
        forall|w: u32| #[trigger] bind_all(s, t, d).contains_key(w) ==> s.contains_key(w) || fv(t).contains(w),
    decreases t, 0nat,
{
    match t {
        TermV::Var(x) => {}
        TermV::Sym(_) => {}
        TermV::App(xs) => {
            if let TermV::App(ys) = d {
                if xs.len() == ys.len() {
                    crate::term::lemma_ground_all(ys, ys.len());
                    lemma_bind_fold(s, xs, ys, xs.len());
                    lemma_fv_all(xs, xs.len());
                    assert forall|w: u32| #[trigger] bind_all(s, t, d).contains_key(w) implies s.contains_key(w) || fv(t).contains(w) by {
                        if !s.contains_key(w) {
                            let j = choose|j: int| 0 <= j < xs.len() && #[trigger] fv(xs[j]).contains(w);
                            assert(fv_all(xs, xs.len()).contains(w));
                        }
                    }
                }
            }
        }
    }
}

proof fn lemma_bind_fold(s: Map<u32, TermV>, xs: Seq<TermV>, ys: Seq<TermV>, k: nat)
    requires
        gsub(s),
        k <= xs.len(),
        xs.len() == ys.len(),
        forall|j: int| 0 <= j < ys.len() ==> crate::term::ground(#[trigger] ys[j]),
    ensures
        gsub(bind_fold(s, xs, ys, k)),
        forall|w: u32| s.contains_key(w) ==> bind_fold(s, xs, ys, k).contains_key(w) && bind_fold(s, xs, ys, k)[w] == s[w],
        forall|w: u32| #[trigger] bind_fold(s, xs, ys, k).contains_key(w) ==> s.contains_key(w)
            || exists|j: int| 0 <= j < k && #[trigger] fv(xs[j]).contains(w),
    decreases xs, k,
{
    if k > 0 {
        lemma_bind_fold(s, xs, ys, (k - 1) as nat);
        let s1 = bind_fold(s, xs, ys, (k - 1) as nat);
        lemma_bind_all(s1, xs[k - 1], ys[k - 1]);
        assert forall|w: u32| #[trigger] bind_fold(s, xs, ys, k).contains_key(w) implies s.contains_key(w)
            || exists|j: int| 0 <= j < k && #[trigger] fv(xs[j]).contains(w) by {
            if !s1.contains_key(w) {
                assert(fv(xs[k - 1]).contains(w));
            } else if !s.contains_key(w) {
                let j = choose|j: int| 0 <= j < k - 1 && #[trigger] fv(xs[j]).contains(w);
                assert(0 <= j < k);
            }
        }
    }
}

/// Structural match of `pattern` against `data` under `env`, accumulating leaf costs in the
/// semiring `S`. A variable matches anything at cost `one`; a bound variable re-checks against
/// its value carrying a cost; an arity mismatch is `zero` (the annihilator). Binding a variable
/// to a term containing it scores `zero`, like any other mismatch, so the bindings stay finite
/// terms. With an exact leaf this is unification: `one` with a most general unifier, or
/// `zero` where none exists. Against ground data, with every bound variable bound to a ground
/// term, the cost is [`gcost`] and the bindings grow as [`bind_all`] says.
pub fn match_cost<S: Semiring>(pattern: &Term, data: &Term, env: &mut Env, leaf: &impl Fn(&Term, &Term) -> S) -> (r: S)
    requires
        old(env).wf(),
        forall|p: &Term, d: &Term| #[trigger] leaf.requires((p, d)),
    ensures
        final(env).wf(),
        old(env).trail_seq().len() <= final(env).trail_seq().len(),
        final(env).trail_seq().take(old(env).trail_seq().len() as int) == old(env).trail_seq(),
        final(env).frames().take(old(env).frames().len() as int) == old(env).frames(),
        instance_of(final(env).sub(), old(env).sub()),
        exact_leaves(*leaf) ==> (r == S::one_spec() && mgu_step(old(env).sub(), final(env).sub(), pattern@, data@))
            || (r == S::zero_spec() && no_unifier(old(env).sub(), pattern@, data@)),
        forall|lf: spec_fn(TermV, TermV) -> S| #[trigger] leaf_is(*leaf, lf) && linear(pattern@, data@)
            && (forall|v: u32| pair_vars(pattern@, data@).contains(v) ==> !old(env).sub().contains_key(v))
            ==> r == lin_cost(lf, pattern@, data@),
        linear(pattern@, data@) && (forall|v: u32| pair_vars(pattern@, data@).contains(v) ==> !old(env).sub().contains_key(v))
            ==> forall|v: u32| #[trigger] final(env).trail_seq().contains(v) ==> old(env).trail_seq().contains(v)
                || pair_vars(pattern@, data@).contains(v),
        crate::term::ground(data@) && gsub(old(env).sub()) ==> {
            &&& forall|lf: spec_fn(TermV, TermV) -> S| #[trigger] leaf_is(*leaf, lf) ==> r == gcost(lf, old(env).sub(), pattern@, data@)
            &&& r != S::zero_spec() ==> final(env).sub() == bind_all(old(env).sub(), pattern@, data@)
        },
{
    let ghost uni = fv(pattern@).union(fv(data@)).union(env.all_vars());
    proof {
        env.lemma_wf();
        env.lemma_all_vars();
        lemma_fv_finite(pattern@);
        lemma_fv_finite(data@);
    }
    let ghost e0 = *env;
    let r = cost_rec(pattern, data, env, leaf, Ghost(uni));
    proof {
        assert forall|lf: spec_fn(TermV, TermV) -> S| #[trigger] leaf_is(*leaf, lf) && linear(pattern@, data@)
            && (forall|v: u32| pair_vars(pattern@, data@).contains(v) ==> !e0.sub().contains_key(v))
            implies r == lin_cost(lf, pattern@, data@) by {
            assert forall|v: u32| pair_vars(pattern@, data@).contains(v) implies !e0.trail_seq().contains(v) by {
                assert(!e0.sub().contains_key(v));
            }
        }
        if linear(pattern@, data@) && (forall|v: u32| pair_vars(pattern@, data@).contains(v) ==> !e0.sub().contains_key(v)) {
            assert forall|v: u32| pair_vars(pattern@, data@).contains(v) implies !e0.trail_seq().contains(v) by {
                assert(!e0.sub().contains_key(v));
            }
        }
    }
    r
}

fn cost_rec<S: Semiring, F: Fn(&Term, &Term) -> S>(pattern: &Term, data: &Term, env: &mut Env, leaf: &F, Ghost(uni): Ghost<Set<u32>>) -> (r: S)
    requires
        old(env).wf(),
        uni.finite(),
        closed_in(old(env).bound(), uni),
        forall|v: u32| fv(pattern@).contains(v) ==> uni.contains(v),
        forall|v: u32| fv(data@).contains(v) ==> uni.contains(v),
        forall|p: &Term, d: &Term| #[trigger] leaf.requires((p, d)),
    ensures
        final(env).wf(),
        closed_in(final(env).bound(), uni),
        old(env).trail_seq().len() <= final(env).trail_seq().len(),
        final(env).trail_seq().take(old(env).trail_seq().len() as int) == old(env).trail_seq(),
        final(env).frames().take(old(env).frames().len() as int) == old(env).frames(),
        instance_of(final(env).sub(), old(env).sub()),
        exact_leaves(*leaf) ==> (r == S::one_spec() && mgu_step(old(env).sub(), final(env).sub(), pattern@, data@))
            || (r == S::zero_spec() && no_unifier(old(env).sub(), pattern@, data@)),
        linear(pattern@, data@) && (forall|v: u32| pair_vars(pattern@, data@).contains(v) ==> !old(env).trail_seq().contains(v)) ==> {
            &&& forall|lf: spec_fn(TermV, TermV) -> S| #[trigger] leaf_is(*leaf, lf) ==> r == lin_cost(lf, pattern@, data@)
            &&& forall|v: u32| #[trigger] final(env).trail_seq().contains(v) ==> old(env).trail_seq().contains(v)
                || pair_vars(pattern@, data@).contains(v)
        },
        crate::term::ground(data@) && gsub(old(env).sub()) ==> {
            &&& forall|lf: spec_fn(TermV, TermV) -> S| #[trigger] leaf_is(*leaf, lf) ==> r == gcost(lf, old(env).sub(), pattern@, data@)
            &&& r != S::zero_spec() ==> final(env).sub() == bind_all(old(env).sub(), pattern@, data@)
        },
    decreases uni.len() - old(env).trail_seq().len(), subst(old(env).sub(), pattern@),
{
    proof {
        env.lemma_wf();
    }
    let ghost s = env.sub();
    let ghost t0 = env.trail_seq();
    let ghost f0 = env.frames();
    let ghost ex = exact_leaves(*leaf);
    let ghost lin = linear(pattern@, data@) && (forall|v: u32| pair_vars(pattern@, data@).contains(v) ==> !t0.contains(v));
    let ghost gq = crate::term::ground(data@) && gsub(s);
    proof {
        if lin {
            if pattern@ is Var {
                assert(pair_vars(pattern@, data@).contains(pattern@->Var_0));
            }
            if data@ is Var {
                assert(pair_vars(pattern@, data@).contains(data@->Var_0));
            }
            assert forall|u: u32| fv(pattern@).contains(u) implies !s.contains_key(u) by {
                assert(pair_vars(pattern@, data@).contains(u));
            }
            assert forall|u: u32| fv(data@).contains(u) implies !s.contains_key(u) by {
                assert(pair_vars(pattern@, data@).contains(u));
            }
            crate::subst::lemma_subst_noop(s, pattern@);
            crate::subst::lemma_subst_noop(s, data@);
        }
    }
    let p = env.walk(pattern).clone();
    let d = env.walk(data).clone();
    proof {
        if lin {
            assert(p@ == pattern@);
            assert(d@ == data@);
        }
        env.lemma_walk_closed(pattern@, p@, uni);
        env.lemma_walk_closed(data@, d@, uni);
        assert(t0.take(t0.len() as int) =~= t0);
        assert(f0.take(f0.len() as int) =~= f0);
        assert forall|th: Map<u32, TermV>| #[trigger] instance_of(th, s) implies subst(th, pattern@) == subst(th, p@) && subst(th, data@) == subst(th, d@) by {
            lemma_instance_absorbs(th, s, pattern@);
            lemma_instance_absorbs(th, s, p@);
            lemma_instance_absorbs(th, s, data@);
            lemma_instance_absorbs(th, s, d@);
        }
        assert(instance_of(s, s)) by {
            assert forall|v: u32| #[trigger] s.contains_key(v) implies subst(s, s[v]) == subst(s, TermV::Var(v)) by {
                lemma_subst_idem(s, TermV::Var(v));
            }
        }
        if gq {
            assert(!(data@ is Var));
            assert(d@ == data@);
            assert(subst(s, pattern@) == subst(s, p@));
            if pattern@ != p@ {
                let x = pattern@->Var_0;
                assert(s.contains_key(x));
                assert(subst(s, pattern@) == s[x]);
                lemma_fv_subst_ground(s, p@);
                crate::term::lemma_ground_fv(s[x]);
                assert forall|v: u32| fv(p@).contains(v) implies s.contains_key(v) by {
                    if !s.contains_key(v) {
                        assert(fv(subst(s, p@)).contains(v));
                    }
                }
                assert forall|lf: spec_fn(TermV, TermV) -> S| #[trigger] gcost(lf, s, pattern@, data@) == gcost(lf, s, p@, d@) by {
                    lemma_gcost_bound(lf, s, p@, d@);
                }
                lemma_gcost_bound(|a: TermV, b: TermV| S::one_spec(), s, p@, d@);
            }
            assert(bind_all(s, pattern@, data@) == bind_all(s, p@, d@));
        }
    }
    if let Term::Var(x) = &p {
        let x = *x;
        if let Term::Var(y) = &d {
            if x == *y {
                proof {
                    S::lemma_units(S::one_spec());
                    if gq {
                        assert(d@ is Var);
                    }
                }
                return S::one();
            }
        }
        if env.occurs(x, &d) {
            proof {
                if gq {
                    crate::term::lemma_ground_fv(data@);
                    crate::subst::lemma_subst_noop(s, data@);
                }
                let tt = subst(s, d@);
                assert(tt != TermV::Var(x));
                assert forall|th: Map<u32, TermV>| #[trigger] instance_of(th, s) implies subst(th, pattern@) != subst(th, data@) by {
                    lemma_occurs_size(th, x, tt);
                    lemma_instance_absorbs(th, s, d@);
                }
            }
            return S::zero();
        }
        let ghost dv = d@;
        env.bind(x, d);
        proof {
            bind_facts(s, env.sub(), x, pattern@, data@, dv);
            assert(env.trail_seq().take(t0.len() as int) =~= t0);
            assert(env.frames().take(f0.len() as int) =~= f0);
            if gq {
                crate::term::lemma_ground_fv(dv);
                crate::subst::lemma_subst_noop(s, dv);
                let s2 = env.sub();
                let one = crate::unify::single(x, dv);
                assert(s2 == crate::subst::compose(s, crate::unify::single(x, subst(s, dv))));
                assert forall|w: u32| #[trigger] s.contains_key(w) implies subst(one, s[w]) == s[w] by {
                    crate::term::lemma_ground_fv(s[w]);
                    crate::subst::lemma_subst_noop(one, s[w]);
                }
                assert(s2 =~= s.insert(x, dv));
                assert(subst(s, pattern@) == TermV::Var(x));
            }
        }
        return S::one();
    }
    if let Term::Var(y) = &d {
        proof {
            if gq {
                assert(d@ is Var);
            }
        }
        let y = *y;
        if env.occurs(y, &p) {
            proof {
                let tt = subst(s, p@);
                assert(tt != TermV::Var(y));
                assert forall|th: Map<u32, TermV>| #[trigger] instance_of(th, s) implies subst(th, pattern@) != subst(th, data@) by {
                    lemma_occurs_size(th, y, tt);
                    lemma_instance_absorbs(th, s, p@);
                }
            }
            return S::zero();
        }
        let ghost pv = p@;
        env.bind(y, p);
        proof {
            bind_facts(s, env.sub(), y, data@, pattern@, pv);
            assert(env.trail_seq().take(t0.len() as int) =~= t0);
            assert(env.frames().take(f0.len() as int) =~= f0);
        }
        return S::one();
    }
    match (&p, &d) {
        (Term::Sym(a), Term::Sym(b)) => {
            let r = leaf(&p, &d);
            proof {
                if gq {
                    assert forall|lf: spec_fn(TermV, TermV) -> S| #[trigger] leaf_is(*leaf, lf)
                        implies r == gcost(lf, s, pattern@, data@) by {
                        assert(leaf.ensures((&p, &d), r));
                        assert(gcost(lf, s, pattern@, data@) == gcost(lf, s, p@, d@));
                    }
                }
                if lin {
                    assert forall|lf: spec_fn(TermV, TermV) -> S| #[trigger] leaf_is(*leaf, lf) implies r == lin_cost(lf, pattern@, data@) by {
                        assert(leaf.ensures((&p, &d), r));
                    }
                }
                assert forall|th: Map<u32, TermV>| #[trigger] instance_of(th, s) implies (subst(th, pattern@) == subst(th, data@) <==> p@ == d@) by {
                    assert(subst(th, p@) == p@);
                    assert(subst(th, d@) == d@);
                }
                if p@ == d@ {
                    assert(subst(s, pattern@) == subst(s, p@));
                }
            }
            r
        }
        (Term::App(xs), Term::App(ys)) => {
            if xs.len() != ys.len() {
                proof {
                    lemma_view_app(*xs);
                    lemma_view_app(*ys);
                    lemma_subst_app(s, views(xs@));
                    assert forall|th: Map<u32, TermV>| #[trigger] instance_of(th, s) implies subst(th, pattern@) != subst(th, data@) by {
                        lemma_subst_app(th, views(xs@));
                        lemma_subst_app(th, views(ys@));
                        assert(subst(th, p@)->App_0.len() == xs@.len());
                        assert(subst(th, d@)->App_0.len() == ys@.len());
                    }
                }
                return S::zero();
            }
            let ghost vx = views(xs@);
            let ghost vy = views(ys@);
            proof {
                lemma_view_app(*xs);
                lemma_view_app(*ys);
                lemma_subst_app(s, vx);
                if gq {
                    crate::term::lemma_ground_all(vy, vy.len());
                }
                lemma_fv_all(vx, vx.len());
                lemma_fv_all(vy, vy.len());
                assert(fv(p@) == fv_all(vx, vx.len()));
                assert(fv(d@) == fv_all(vy, vy.len()));
                assert forall|th: Map<u32, TermV>| #[trigger] instance_of(th, s) && subst(th, pattern@) == subst(th, data@) implies
                    forall|j: int| 0 <= j < vx.len() ==> subst(th, #[trigger] vx[j]) == subst(th, vy[j]) by {
                    lemma_subst_app(th, vx);
                    lemma_subst_app(th, vy);
                    assert forall|j: int| 0 <= j < vx.len() implies subst(th, #[trigger] vx[j]) == subst(th, vy[j]) by {
                        assert(subst(th, p@)->App_0[j] == subst(th, vx[j]));
                        assert(subst(th, d@)->App_0[j] == subst(th, vy[j]));
                    }
                }
                S::lemma_units(S::one_spec());
            }
            let mut acc = S::one();
            let mut i: usize = 0;
            while i < xs.len()
                invariant
                    t0 == old(env).trail_seq(),
                    f0 == old(env).frames(),
                    s == old(env).sub(),
                    ex == exact_leaves(*leaf),
                    forall|pp: &Term, dd: &Term| #[trigger] leaf.requires((pp, dd)),
                    xs@.len() == ys@.len(),
                    vx == views(xs@),
                    vy == views(ys@),
                    p@ == TermV::App(vx),
                    d@ == TermV::App(vy),
                    subst(s, pattern@) == subst(s, p@),
                    subst(s, data@) == subst(s, d@),
                    subst(s, p@) == TermV::App(Seq::new(vx.len(), |j: int| subst(s, vx[j]))),
                    forall|v: u32| fv(p@).contains(v) ==> uni.contains(v),
                    forall|v: u32| fv(d@).contains(v) ==> uni.contains(v),
                    fv(p@) == fv_all(vx, vx.len()),
                    fv(d@) == fv_all(vy, vy.len()),
                    forall|v: u32| fv_all(vx, vx.len()).contains(v) <==> exists|j: int| 0 <= j < vx.len() && #[trigger] fv(vx[j]).contains(v),
                    forall|v: u32| fv_all(vy, vy.len()).contains(v) <==> exists|j: int| 0 <= j < vy.len() && #[trigger] fv(vy[j]).contains(v),
                    i <= xs@.len(),
                    uni.finite(),
                    env.wf(),
                    closed_in(env.bound(), uni),
                    t0.len() <= env.trail_seq().len(),
                    env.trail_seq().take(t0.len() as int) == t0,
                    env.frames().take(f0.len() as int) == f0,
                    f0.len() == t0.len() + 1,
                    f0.last() == s,
                    instance_of(env.sub(), s),
                    env.trail_seq().len() == t0.len() ==> env.sub() == s,
                    ex ==> acc == S::one_spec(),
                    ex ==> forall|j: int| 0 <= j < i ==> subst(env.sub(), #[trigger] vx[j]) == subst(env.sub(), vy[j]),
                    ex ==> forall|th: Map<u32, TermV>| #[trigger] instance_of(th, s) && subst(th, pattern@) == subst(th, data@)
                        ==> instance_of(th, env.sub()),
                    forall|th: Map<u32, TermV>| #[trigger] instance_of(th, s) && subst(th, pattern@) == subst(th, data@) ==>
                        forall|j: int| 0 <= j < vx.len() ==> subst(th, #[trigger] vx[j]) == subst(th, vy[j]),
                    lin == (linear(pattern@, data@) && (forall|v: u32| pair_vars(pattern@, data@).contains(v) ==> !t0.contains(v))),
                    lin ==> p@ == pattern@ && d@ == data@,
                    lin ==> forall|lf: spec_fn(TermV, TermV) -> S| #[trigger] leaf_is(*leaf, lf) ==> acc == lin_fold(lf, vx, vy, i as nat),
                    lin ==> forall|v: u32| #[trigger] env.trail_seq().contains(v) ==> t0.contains(v)
                        || exists|j: int| 0 <= j < i && #[trigger] pair_vars(vx[j], vy[j]).contains(v),
                    gq == (crate::term::ground(data@) && gsub(s)),
                    gq ==> data@ == TermV::App(vy),
                    gq ==> forall|lf: spec_fn(TermV, TermV) -> S| #[trigger] gcost(lf, s, pattern@, data@) == gcost(lf, s, p@, d@),
                    gq ==> bind_all(s, pattern@, data@) == bind_all(s, p@, d@),
                    gq ==> forall|j: int| 0 <= j < vy.len() ==> crate::term::ground(#[trigger] vy[j]),
                    gq ==> forall|lf: spec_fn(TermV, TermV) -> S| #[trigger] leaf_is(*leaf, lf) ==> acc == gfold(lf, s, vx, vy, i as nat),
                    gq ==> env.sub() == bind_fold(s, vx, vy, i as nat),
                    gq ==> gsub(env.sub()),
                decreases xs@.len() - i,
            {
                let ghost si = env.sub();
                let ghost ti = env.trail_seq();
                let ghost fi = env.frames();
                proof {
                    env.lemma_wf();
                    env.lemma_trail_len(uni);
                    assert(vx[i as int] == xs@[i as int]@);
                    assert(vy[i as int] == ys@[i as int]@);
                    assert forall|v: u32| fv(vx[i as int]).contains(v) implies uni.contains(v) by {
                        assert(fv_all(vx, vx.len()).contains(v));
                    }
                    assert forall|v: u32| fv(vy[i as int]).contains(v) implies uni.contains(v) by {
                        assert(fv_all(vy, vy.len()).contains(v));
                    }
                    if env.trail_seq().len() == t0.len() {
                        assert(subst(s, p@)->App_0[i as int] == subst(s, vx[i as int]));
                        assert(decreases_to!(subst(s, pattern@) => subst(s, vx[i as int])));
                    }
                    if gq {
                        assert(crate::term::ground(vy[i as int]));
                    }
                    if lin {
                        assert(linear(vx[i as int], vy[i as int]));
                        assert forall|v: u32| pair_vars(vx[i as int], vy[i as int]).contains(v) implies !env.trail_seq().contains(v) by {
                            if fv(vx[i as int]).contains(v) {
                                assert(fv_all(vx, vx.len()).contains(v));
                            } else {
                                assert(fv_all(vy, vy.len()).contains(v));
                            }
                            assert(pair_vars(pattern@, data@).contains(v));
                            if env.trail_seq().contains(v) {
                                let j = choose|j: int| 0 <= j < i && #[trigger] pair_vars(vx[j], vy[j]).contains(v);
                                assert(!pair_vars(vx[i as int], vy[i as int]).contains(v));
                            }
                        }
                    }
                }
                let c = cost_rec(&xs[i], &ys[i], env, leaf, Ghost(uni));
                proof {
                    env.lemma_wf();
                    assert(fi.len() == ti.len() + 1);
                    assert(env.frames().take(fi.len() as int) == fi);
                    assert(env.frames().take(fi.len() as int).take(f0.len() as int) =~= env.frames().take(f0.len() as int));
                    let s2 = env.sub();
                    lemma_instance_trans(s2, si, s);
                    assert(env.trail_seq().take(t0.len() as int) =~= ti.take(t0.len() as int));
                    assert(env.frames().take(f0.len() as int) =~= fi.take(f0.len() as int));
                    if env.trail_seq().len() == t0.len() {
                        assert(ti.len() == t0.len());
                        assert(env.frames().len() == fi.len());
                        assert(env.frames() =~= fi);
                    }
                    if ex {
                        S::lemma_units(c);
                        if c == S::one_spec() {
                            assert forall|j: int| 0 <= j < i + 1 implies subst(s2, #[trigger] vx[j]) == subst(s2, vy[j]) by {
                                if j < i {
                                    lemma_instance_absorbs(s2, si, vx[j]);
                                    lemma_instance_absorbs(s2, si, vy[j]);
                                }
                            }
                            assert forall|th: Map<u32, TermV>| #[trigger] instance_of(th, s) && subst(th, pattern@) == subst(th, data@)
                                implies instance_of(th, s2) by {
                                assert(instance_of(th, si));
                                assert(subst(th, vx[i as int]) == subst(th, vy[i as int]));
                            }
                        } else {
                            assert forall|th: Map<u32, TermV>| #[trigger] instance_of(th, s) implies subst(th, pattern@) != subst(th, data@) by {
                                if subst(th, pattern@) == subst(th, data@) {
                                    assert(instance_of(th, si));
                                    assert(subst(th, vx[i as int]) == subst(th, vy[i as int]));
                                }
                            }
                        }
                    }
                }
                let ghost acc0 = acc;
                acc = acc.mul(&c);
                proof {
                    if gq {
                        S::lemma_units(acc0);
                        S::lemma_commutative(acc0, c);
                        assert forall|lf: spec_fn(TermV, TermV) -> S| #[trigger] leaf_is(*leaf, lf)
                            implies acc == gfold(lf, s, vx, vy, (i + 1) as nat) by {
                            assert(acc0 == gfold(lf, s, vx, vy, i as nat));
                            assert(c == gcost(lf, si, vx[i as int], vy[i as int]));
                        }
                        if acc != S::zero_spec() {
                            assert(c != S::zero_spec());
                            lemma_bind_all(si, vx[i as int], vy[i as int]);
                            assert(env.sub() == bind_fold(s, vx, vy, (i + 1) as nat));
                        }
                    }
                    if lin {
                        assert forall|lf: spec_fn(TermV, TermV) -> S| #[trigger] leaf_is(*leaf, lf) implies acc == lin_fold(lf, vx, vy, (i + 1) as nat) by {
                            assert(acc0 == lin_fold(lf, vx, vy, i as nat));
                            assert(c == lin_cost(lf, vx[i as int], vy[i as int]));
                        }
                        assert forall|v: u32| #[trigger] env.trail_seq().contains(v) implies t0.contains(v)
                            || exists|j: int| 0 <= j < i + 1 && #[trigger] pair_vars(vx[j], vy[j]).contains(v) by {
                            if !ti.contains(v) {
                                assert(pair_vars(vx[i as int], vy[i as int]).contains(v));
                            } else if !t0.contains(v) {
                                let j = choose|j: int| 0 <= j < i && #[trigger] pair_vars(vx[j], vy[j]).contains(v);
                                assert(0 <= j < i + 1);
                            }
                        }
                    }
                }
                if acc.is_zero() {
                    proof {
                        if gq {
                            assert forall|lf: spec_fn(TermV, TermV) -> S| #[trigger] leaf_is(*leaf, lf)
                                implies acc == gcost(lf, s, pattern@, data@) by {
                                lemma_gfold_zero(lf, s, vx, vy, (i + 1) as nat, vx.len());
                                assert(gcost(lf, s, pattern@, data@) == gcost(lf, s, p@, d@));
                            }
                        }
                        if lin {
                            assert forall|lf: spec_fn(TermV, TermV) -> S| #[trigger] leaf_is(*leaf, lf) implies acc == lin_cost(lf, pattern@, data@) by {
                                lemma_fold_zero(lf, vx, vy, (i + 1) as nat, vx.len());
                            }
                            assert forall|v: u32| #[trigger] env.trail_seq().contains(v) implies t0.contains(v)
                                || pair_vars(pattern@, data@).contains(v) by {
                                if !t0.contains(v) {
                                    let j = choose|j: int| 0 <= j < i + 1 && #[trigger] pair_vars(vx[j], vy[j]).contains(v);
                                    if fv(vx[j]).contains(v) {
                                        assert(fv_all(vx, vx.len()).contains(v));
                                    } else {
                                        assert(fv_all(vy, vy.len()).contains(v));
                                    }
                                }
                            }
                        }
                    }
                    return acc;
                }
                i += 1;
            }
            proof {
                if ex {
                    let s2 = env.sub();
                    lemma_instance_absorbs(s2, s, pattern@);
                    lemma_instance_absorbs(s2, s, p@);
                    lemma_instance_absorbs(s2, s, data@);
                    lemma_instance_absorbs(s2, s, d@);
                    lemma_subst_app(s2, vx);
                    lemma_subst_app(s2, vy);
                    assert(Seq::new(vx.len(), |j: int| subst(s2, vx[j])) =~= Seq::new(vy.len(), |j: int| subst(s2, vy[j])));
                }
                if lin {
                    assert forall|v: u32| #[trigger] env.trail_seq().contains(v) implies t0.contains(v)
                        || pair_vars(pattern@, data@).contains(v) by {
                        if !t0.contains(v) {
                            let j = choose|j: int| 0 <= j < vx.len() && #[trigger] pair_vars(vx[j], vy[j]).contains(v);
                            if fv(vx[j]).contains(v) {
                                assert(fv_all(vx, vx.len()).contains(v));
                            } else {
                                assert(fv_all(vy, vy.len()).contains(v));
                            }
                        }
                    }
                }
            }
            acc
        }
        _ => {
            proof {
                if let TermV::App(q) = p@ {
                    lemma_subst_app(s, q);
                }
                assert forall|th: Map<u32, TermV>| #[trigger] instance_of(th, s) implies subst(th, pattern@) != subst(th, data@) by {
                    match p@ {
                        TermV::App(q) => { lemma_subst_app(th, q); }
                        _ => {}
                    }
                    match d@ {
                        TermV::App(q) => { lemma_subst_app(th, q); }
                        _ => {}
                    }
                }
            }
            S::zero()
        }
    }
}

/// What binding a walked, unbound variable `x` of `a` to the walked other side `w` of `b`
/// achieves: the two sides become equal, every unifier extending the old substitution is an
/// instance of the new one.
proof fn bind_facts(s: Map<u32, TermV>, s2: Map<u32, TermV>, x: u32, a: TermV, b: TermV, w: TermV)
    requires
        crate::subst::idem(s),
        !s.contains_key(x),
        subst(s, a) == TermV::Var(x),
        subst(s, b) == subst(s, w),
        !fv(subst(s, w)).contains(x),
        s2 == crate::subst::compose(s, crate::unify::single(x, subst(s, w))),
        forall|th: Map<u32, TermV>| #[trigger] instance_of(th, s) ==> subst(th, a) == subst(th, TermV::Var(x)) && subst(th, b) == subst(th, w),
    ensures
        mgu_step(s, s2, a, b),
{
    let tt = subst(s, w);
    let one = crate::unify::single(x, tt);
    crate::subst::lemma_subst_compose(s, one, a);
    crate::subst::lemma_subst_compose(s, one, b);
    crate::subst::lemma_subst_resolved(s, w);
    assert forall|u: u32| fv(tt).contains(u) implies !one.contains_key(u) by {}
    crate::subst::lemma_subst_noop(one, tt);
    assert forall|th: Map<u32, TermV>| #[trigger] instance_of(th, s) && subst(th, a) == subst(th, b) implies instance_of(th, s2) by {
        lemma_instance_absorbs(th, s, w);
        crate::unify::lemma_bind_general(th, s, x, tt);
    }
}


/// The number of choices of facts that complete `c`, match, and answer `k`: the derivations of
/// the answer `k` below `c`.
pub open spec fn derivations(pats: Seq<TermV>, facts: Seq<TermV>, qv: Seq<u32>, c: Seq<int>, k: Seq<u8>) -> nat
    decreases pats.len() - c.len(), facts.len() + 1,
{
    if c.len() >= pats.len() {
        if matched(pats, facts, c) && answer_of(pats, facts, qv, c) == k { 1 } else { 0 }
    } else {
        derivations_below(pats, facts, qv, c, facts.len() as int, k)
    }
}

/// As `derivations`, where the choice after `c` is below `j`.
pub open spec fn derivations_below(pats: Seq<TermV>, facts: Seq<TermV>, qv: Seq<u32>, c: Seq<int>, j: int, k: Seq<u8>) -> nat
    decreases pats.len() - c.len(), j,
{
    if c.len() >= pats.len() || j <= 0 {
        0
    } else {
        derivations_below(pats, facts, qv, c, j - 1, k) + derivations(pats, facts, qv, c.push(j - 1), k)
    }
}

/// `s` with `one` added `n` times.
pub open spec fn adds<S: Semiring>(s: S, n: nat) -> S
    decreases n,
{
    if n == 0 {
        s
    } else {
        S::add_spec(adds(s, (n - 1) as nat), S::one_spec())
    }
}

/// The score a list of scored answers gives key `k` (`zero` where it has no entry).
pub open spec fn score_of<S: Semiring>(v: Seq<(Vec<u8>, S)>, k: Seq<u8>) -> S {
    if exists|i: int| 0 <= i < v.len() && #[trigger] v[i].0@ == k {
        v[choose|i: int| 0 <= i < v.len() && #[trigger] v[i].0@ == k].1
    } else {
        S::zero_spec()
    }
}

proof fn lemma_adds_adds<S: Semiring>(s: S, a: nat, b: nat)
    ensures
        adds(adds(s, a), b) == adds(s, a + b),
    decreases b,
{
    if b > 0 {
        lemma_adds_adds(s, a, (b - 1) as nat);
    }
}

/// With `Reach` scores, adding `true` `n` times to `false` gives `true` exactly when `n > 0`.
pub proof fn lemma_adds_reach(n: nat)
    ensures
        adds(crate::semiring::Reach(false), n) == crate::semiring::Reach(n > 0),
    decreases n,
{
    if n > 0 {
        lemma_adds_reach((n - 1) as nat);
    }
}

/// With the `Reach` semiring and an exact leaf, every score the scored join reports is `true`:
/// a map whose every score is what `eval_cost` gives an exact leaf holds `Reach(true)` only.
pub proof fn law_reach_scores_true(m: Map<Vec<u8>, crate::semiring::Reach>, pats: Seq<TermV>, facts: Seq<TermV>, qv: Seq<u32>)
    requires
        forall|x: Vec<u8>| #[trigger] m.contains_key(x) ==> m[x]
            == adds(<crate::semiring::Reach as Semiring>::zero_spec(), derivations(pats, facts, qv, Seq::<int>::empty(), x@))
            && derivations(pats, facts, qv, Seq::<int>::empty(), x@) > 0,
    ensures
        forall|x: Vec<u8>| #[trigger] m.contains_key(x) ==> m[x] == crate::semiring::Reach(true),
{
    assert forall|x: Vec<u8>| #[trigger] m.contains_key(x) implies m[x] == crate::semiring::Reach(true) by {
        lemma_adds_reach(derivations(pats, facts, qv, Seq::<int>::empty(), x@));
    }
}

proof fn lemma_below_ge(pats: Seq<TermV>, facts: Seq<TermV>, qv: Seq<u32>, c: Seq<int>, j: int, f: int, k: Seq<u8>)
    requires
        c.len() < pats.len(),
        0 <= f < j,
    ensures
        derivations_below(pats, facts, qv, c, j, k) >= derivations(pats, facts, qv, c.push(f), k),
    decreases j,
{
    if f < j - 1 {
        lemma_below_ge(pats, facts, qv, c, j - 1, f, k);
    }
}

/// A completion of `c` that answers `k` is a derivation of `k` below `c`.
proof fn lemma_found_derivation(pats: Seq<TermV>, facts: Seq<TermV>, qv: Seq<u32>, c: Seq<int>, k: Seq<u8>)
    requires
        c.len() <= pats.len(),
        found(pats, facts, qv, c, k),
    ensures
        derivations(pats, facts, qv, c, k) > 0,
    decreases pats.len() - c.len(),
{
    let c2 = choose|c2: Seq<int>| #[trigger] completes(c2, c, pats.len(), facts.len()) && matched(pats, facts, c2)
        && k == answer_of(pats, facts, qv, c2);
    if c.len() == pats.len() {
        assert(c2 =~= c2.take(c.len() as int));
    } else {
        let f = c2[c.len() as int];
        let cf = c.push(f);
        assert(c2.take(cf.len() as int) =~= cf) by {
            assert forall|x: int| 0 <= x < cf.len() implies c2.take(cf.len() as int)[x] == cf[x] by {
                if x < c.len() {
                    assert(c2.take(c.len() as int)[x] == c[x]);
                }
            }
        }
        assert(completes(c2, cf, pats.len(), facts.len()));
        lemma_found_derivation(pats, facts, qv, cf, k);
        lemma_below_ge(pats, facts, qv, c, facts.len() as int, f, k);
    }
}

/// A derivation of `k` below `c` is a completion of `c` that answers `k`.
proof fn lemma_derivation_found(pats: Seq<TermV>, facts: Seq<TermV>, qv: Seq<u32>, c: Seq<int>, k: Seq<u8>)
    requires
        c.len() <= pats.len(),
        forall|x: int| 0 <= x < c.len() ==> 0 <= #[trigger] c[x] < facts.len(),
        derivations(pats, facts, qv, c, k) > 0,
    ensures
        found(pats, facts, qv, c, k),
    decreases pats.len() - c.len(), facts.len() + 1,
{
    if c.len() == pats.len() {
        assert(c.take(c.len() as int) =~= c);
        assert(completes(c, c, pats.len(), facts.len()));
    } else {
        lemma_derivation_below_found(pats, facts, qv, c, facts.len() as int, k);
    }
}

proof fn lemma_derivation_below_found(pats: Seq<TermV>, facts: Seq<TermV>, qv: Seq<u32>, c: Seq<int>, j: int, k: Seq<u8>)
    requires
        c.len() < pats.len(),
        j <= facts.len(),
        forall|x: int| 0 <= x < c.len() ==> 0 <= #[trigger] c[x] < facts.len(),
        derivations_below(pats, facts, qv, c, j, k) > 0,
    ensures
        found(pats, facts, qv, c, k),
    decreases pats.len() - c.len(), j,
{
    if derivations_below(pats, facts, qv, c, j - 1, k) > 0 {
        lemma_derivation_below_found(pats, facts, qv, c, j - 1, k);
    } else {
        let cj = c.push(j - 1);
        assert forall|x: int| 0 <= x < cj.len() implies 0 <= #[trigger] cj[x] < facts.len() by {
            if x < c.len() {
                assert(cj[x] == c[x]);
            }
        }
        lemma_derivation_found(pats, facts, qv, cj, k);
        let c2 = choose|c2: Seq<int>| #[trigger] completes(c2, cj, pats.len(), facts.len()) && matched(pats, facts, c2)
            && k == answer_of(pats, facts, qv, c2);
        assert(c2.take(c.len() as int) =~= c2.take(cj.len() as int).take(c.len() as int));
        assert(cj.take(c.len() as int) =~= c);
        assert(completes(c2, c, pats.len(), facts.len()));
    }
}

/// The keys of a list of scored answers.
pub open spec fn score_keys<S>(v: Seq<(Vec<u8>, S)>) -> Seq<Vec<u8>> {
    Seq::new(v.len(), |i: int| v[i].0)
}

/// Every term of the list is ground.
pub open spec fn all_ground(ts: Seq<TermV>) -> bool {
    forall|i: int| 0 <= i < ts.len() ==> crate::term::ground(#[trigger] ts[i])
}

/// The score that the derivations extending the current one give key `k`, added to `sc`. The
/// current derivation has bound the variables under `s` and gathered the product `acc` of the
/// match costs of the patterns before `i`. Past the last pattern its product is added where
/// its answer under `s` is `k` (`add` across derivations). At pattern `i` each fact in turn
/// extends it: the product is multiplied by the cost of matching the pattern against the fact
/// under the bindings `s` ([`gcost`]: `mul` along the conjunction), and the pattern's unbound
/// variables are bound to the parts of the fact they face ([`bind_all`]).
pub open spec fn derived_score<S: Semiring>(lf: spec_fn(TermV, TermV) -> S, pats: Seq<TermV>, facts: Seq<TermV>, qv: Seq<u32>,
    i: nat, s: Map<u32, TermV>, acc: S, k: Seq<u8>, sc: S) -> S
    decreases (if i < pats.len() { pats.len() - i } else { 0 }), 1nat, 0nat,
{
    if i >= pats.len() {
        if encodable(tuple_of(s, qv)) && key_of(s, qv) == k { S::add_spec(sc, acc) } else { sc }
    } else {
        derived_score_over(lf, pats, facts, qv, i, s, acc, k, sc, facts.len())
    }
}

/// [`derived_score`] at pattern `i` over the first `j` facts.
pub open spec fn derived_score_over<S: Semiring>(lf: spec_fn(TermV, TermV) -> S, pats: Seq<TermV>, facts: Seq<TermV>, qv: Seq<u32>,
    i: nat, s: Map<u32, TermV>, acc: S, k: Seq<u8>, sc: S, j: nat) -> S
    decreases (if i < pats.len() { pats.len() - i } else { 0 }), 0nat, j,
{
    if j == 0 || j > facts.len() || i >= pats.len() {
        sc
    } else {
        derived_score(lf, pats, facts, qv, i + 1, bind_all(s, pats[i as int], facts[j - 1]),
            S::mul_spec(acc, gcost(lf, s, pats[i as int], facts[j - 1])), k,
            derived_score_over(lf, pats, facts, qv, i, s, acc, k, sc, (j - 1) as nat))
    }
}

/// A zero product adds nothing.
proof fn lemma_derived_zero<S: Semiring>(lf: spec_fn(TermV, TermV) -> S, pats: Seq<TermV>, facts: Seq<TermV>, qv: Seq<u32>,
    i: nat, s: Map<u32, TermV>, k: Seq<u8>, sc: S)
    ensures
        derived_score(lf, pats, facts, qv, i, s, S::zero_spec(), k, sc) == sc,
    decreases (if i < pats.len() { pats.len() - i } else { 0 }), 1nat, 0nat,
{
    if i >= pats.len() {
        S::lemma_units(sc);
        S::lemma_commutative(sc, S::zero_spec());
    } else {
        lemma_derived_over_zero(lf, pats, facts, qv, i, s, k, sc, facts.len());
    }
}

proof fn lemma_derived_over_zero<S: Semiring>(lf: spec_fn(TermV, TermV) -> S, pats: Seq<TermV>, facts: Seq<TermV>, qv: Seq<u32>,
    i: nat, s: Map<u32, TermV>, k: Seq<u8>, sc: S, j: nat)
    requires
        i < pats.len(),
    ensures
        derived_score_over(lf, pats, facts, qv, i, s, S::zero_spec(), k, sc, j) == sc,
    decreases (if i < pats.len() { pats.len() - i } else { 0 }), 0nat, j,
{
    if j > 0 && j <= facts.len() {
        lemma_derived_over_zero(lf, pats, facts, qv, i, s, k, sc, (j - 1) as nat);
        let t = pats[i as int];
        S::lemma_units(gcost(lf, s, t, facts[j - 1]));
        lemma_derived_zero(lf, pats, facts, qv, i + 1, bind_all(s, t, facts[j - 1]), k, sc);
    }
}

/// Adding `a` to the entry `j` of key `key` changes the score of `key` alone, by `a`.
proof fn lemma_score_update<S: Semiring>(v0: Seq<(Vec<u8>, S)>, v1: Seq<(Vec<u8>, S)>, j: int, key: Seq<u8>, a: S)
    requires
        keys_distinct(v0),
        keys_distinct(v1),
        0 <= j < v0.len(),
        v1.len() == v0.len(),
        v0[j].0@ == key,
        v1[j].0@ == key,
        v1[j].1 == S::add_spec(v0[j].1, a),
        forall|x: int| 0 <= x < v0.len() && x != j ==> v1[x] == v0[x],
    ensures
        forall|k: Seq<u8>| #[trigger] score_of(v1, k) == (if k == key { S::add_spec(score_of(v0, k), a) } else { score_of(v0, k) }),
{
    lemma_score_at(v0, j, key);
    lemma_score_at(v1, j, key);
    assert forall|k: Seq<u8>| #[trigger] score_of(v1, k) == (if k == key { S::add_spec(score_of(v0, k), a) } else { score_of(v0, k) }) by {
        if k != key {
            if exists|x: int| 0 <= x < v1.len() && #[trigger] v1[x].0@ == k {
                let x = choose|x: int| 0 <= x < v1.len() && #[trigger] v1[x].0@ == k;
                assert(v1[x] == v0[x]);
                lemma_score_at(v1, x, k);
                lemma_score_at(v0, x, k);
            } else if exists|x: int| 0 <= x < v0.len() && #[trigger] v0[x].0@ == k {
                let x = choose|x: int| 0 <= x < v0.len() && #[trigger] v0[x].0@ == k;
                assert(v1[x] == v0[x]);
            }
        }
    }
}

/// Appending an entry for a new key `key` with score `a` changes the score of `key` alone, by `a`.
proof fn lemma_score_push<S: Semiring>(v0: Seq<(Vec<u8>, S)>, v1: Seq<(Vec<u8>, S)>, key: Seq<u8>, a: S)
    requires
        keys_distinct(v1),
        v1.len() == v0.len() + 1,
        forall|x: int| 0 <= x < v0.len() ==> v1[x] == v0[x],
        v1[v0.len() as int].0@ == key,
        v1[v0.len() as int].1 == a,
        forall|x: int| 0 <= x < v0.len() ==> #[trigger] v0[x].0@ != key,
    ensures
        forall|k: Seq<u8>| #[trigger] score_of(v1, k) == (if k == key { S::add_spec(score_of(v0, k), a) } else { score_of(v0, k) }),
{
    let l = v0.len() as int;
    lemma_score_at(v1, l, key);
    S::lemma_units(a);
    assert forall|k: Seq<u8>| #[trigger] score_of(v1, k) == (if k == key { S::add_spec(score_of(v0, k), a) } else { score_of(v0, k) }) by {
        if k == key {
            assert(!(exists|x: int| 0 <= x < v0.len() && #[trigger] v0[x].0@ == k));
        } else {
            if exists|x: int| 0 <= x < v1.len() && #[trigger] v1[x].0@ == k {
                let x = choose|x: int| 0 <= x < v1.len() && #[trigger] v1[x].0@ == k;
                assert(x != l);
                assert(v1[x] == v0[x]);
                lemma_score_at(v1, x, k);
                let x0 = choose|x0: int| 0 <= x0 < v0.len() && #[trigger] v0[x0].0@ == k;
                if x0 != x {
                    assert(v1[x0] == v0[x0]);
                }
            } else if exists|x: int| 0 <= x < v0.len() && #[trigger] v0[x].0@ == k {
                let x = choose|x: int| 0 <= x < v0.len() && #[trigger] v0[x].0@ == k;
                assert(v1[x] == v0[x]);
            }
        }
    }
}

/// With distinct keys, the score of a key is the one at its entry.
proof fn lemma_score_at<S: Semiring>(v: Seq<(Vec<u8>, S)>, i: int, k: Seq<u8>)
    requires
        keys_distinct(v),
        0 <= i < v.len(),
        v[i].0@ == k,
    ensures
        score_of(v, k) == v[i].1,
{
    let i1 = choose|i1: int| 0 <= i1 < v.len() && #[trigger] v[i1].0@ == k;
    if i1 != i {
        assert(v[i1].0@ != v[i].0@);
    }
}

/// No key occurs twice.
pub open spec fn keys_distinct<S>(v: Seq<(Vec<u8>, S)>) -> bool {
    forall|i: int, j: int| 0 <= i < v.len() && 0 <= j < v.len() && i != j ==> #[trigger] v[i].0@ != #[trigger] v[j].0@
}

/// Collect scored answers with distinct keys into an ordered map (`BTreeMap::from_iter`): the
/// map's keys are the given key vectors, each with its score, and nothing else.
#[verifier::external_body]
fn to_score_map<S>(v: Vec<(Vec<u8>, S)>) -> (m: BTreeMap<Vec<u8>, S>)
    requires
        keys_distinct(v@),
    ensures
        forall|k: Seq<u8>| (exists|x: Vec<u8>| #[trigger] m@.contains_key(x) && x@ == k) <==> has_key(score_keys(v@), k),
        forall|i: int| 0 <= i < v@.len() ==> #[trigger] m@.contains_key(v@[i].0) && m@[v@[i].0] == v@[i].1,
        forall|x: Vec<u8>| #[trigger] m@.contains_key(x) ==> exists|i: int| 0 <= i < v@.len() && v@[i].0 == x,
{
    BTreeMap::from_iter(v)
}

/// Every answer to `q` against `space`, each with its aggregated semiring score: `mul` along
/// the conjunction, `add` across the alternative ways to reach the same answer. With an exact
/// leaf the answers are exactly those of the baseline matcher. With any leaf and ground facts,
/// each answer's score is [`derived_score`]: the sum over its derivations of the product of
/// the match costs of all the patterns along each, and a key that is no answer has none.
pub fn eval_cost<S: Semiring>(q: &Conj, space: &[Term], leaf: &impl Fn(&Term, &Term) -> S) -> (r: BTreeMap<Vec<u8>, S>)
    requires
        ready(views(q.patterns@), q.query_vars@, views(space@)),
        forall|p: &Term, d: &Term| #[trigger] leaf.requires((p, d)),
    ensures
        exact_leaves(*leaf) ==> forall|k: Seq<u8>| (exists|x: Vec<u8>| #[trigger] r@.contains_key(x) && x@ == k)
            <==> answers(views(q.patterns@), views(space@), q.query_vars@).contains(k),
        exact_leaves(*leaf) ==> forall|x: Vec<u8>| #[trigger] r@.contains_key(x) ==> r@[x]
            == adds(S::zero_spec(), derivations(views(q.patterns@), views(space@), q.query_vars@, Seq::<int>::empty(), x@))
            && derivations(views(q.patterns@), views(space@), q.query_vars@, Seq::<int>::empty(), x@) > 0,
        forall|lf: spec_fn(TermV, TermV) -> S| #[trigger] leaf_is(*leaf, lf) && all_ground(views(space@)) ==> {
            &&& forall|x: Vec<u8>| #[trigger] r@.contains_key(x) ==> r@[x] == derived_score(lf, views(q.patterns@), views(space@),
                q.query_vars@, 0, Map::<u32, TermV>::empty(), S::one_spec(), x@, S::zero_spec())
            &&& forall|k: Seq<u8>| !(exists|x: Vec<u8>| #[trigger] r@.contains_key(x) && x@ == k) ==> #[trigger] derived_score(lf,
                views(q.patterns@), views(space@), q.query_vars@, 0, Map::<u32, TermV>::empty(), S::one_spec(), k, S::zero_spec()) == S::zero_spec()
        },
{
    let mut out: Vec<(Vec<u8>, S)> = Vec::new();
    let mut env = Env::new();
    let mut fresh: u32 = DATA_VAR_BASE;
    let ghost pats = views(q.patterns@);
    let ghost facts = views(space@);
    let ghost qv = q.query_vars@;
    let ghost n = pats.len();
    let ghost m = facts.len();
    let ghost c0 = Seq::<int>::empty();
    proof {
        assert(choice_pairs(pats, facts, c0) =~= Seq::<(TermV, TermV)>::empty());
        assert forall|th2: Map<u32, TermV>| #[trigger] unifies(th2, choice_pairs(pats, facts, c0)) implies instance_of(th2, env.sub()) by {}
    }
    go(q, space, 0, &mut env, &mut fresh, S::one(), leaf, &mut out, Ghost(c0));
    let ghost ov = out@;
    proof {
        if exact_leaves(*leaf) {
            assert forall|k: Seq<u8>| has_key(score_keys(ov), k) <==> answers(pats, facts, qv).contains(k) by {
                assert(!has_key(score_keys(Seq::<(Vec<u8>, S)>::empty()), k));
                if answers(pats, facts, qv).contains(k) {
                    let c2 = choose|c2: Seq<int>| #[trigger] is_choice(c2, pats.len(), facts.len()) && matched(pats, facts, c2)
                        && k == answer_of(pats, facts, qv, c2);
                    assert(c2.take(0) =~= c0);
                    assert(completes(c2, c0, n, m));
                    assert(found(pats, facts, qv, c0, k));
                }
                if found(pats, facts, qv, c0, k) {
                    let c2 = choose|c2: Seq<int>| #[trigger] completes(c2, c0, n, m) && matched(pats, facts, c2) && k == answer_of(pats, facts, qv, c2);
                    assert(is_choice(c2, pats.len(), facts.len()));
                }
            }
        }
    }
    let r = to_score_map(out);
    proof {
        let e0 = Map::<u32, TermV>::empty();
        assert forall|lf: spec_fn(TermV, TermV) -> S| #[trigger] leaf_is(*leaf, lf) && all_ground(facts) implies {
            &&& forall|x: Vec<u8>| #[trigger] r@.contains_key(x) ==> r@[x] == derived_score(lf, pats, facts, qv, 0, e0, S::one_spec(), x@, S::zero_spec())
            &&& forall|k: Seq<u8>| !(exists|x: Vec<u8>| #[trigger] r@.contains_key(x) && x@ == k)
                ==> #[trigger] derived_score(lf, pats, facts, qv, 0, e0, S::one_spec(), k, S::zero_spec()) == S::zero_spec()
        } by {
            assert(gsub(e0));
            assert forall|k: Seq<u8>| score_of(ov, k) == derived_score(lf, pats, facts, qv, 0, e0, S::one_spec(), k, S::zero_spec()) by {
                assert(score_of(ov, k) == derived_score(lf, pats, facts, qv, 0, e0, S::one_spec(), k,
                    score_of(Seq::<(Vec<u8>, S)>::empty(), k)));
            }
            assert forall|x: Vec<u8>| #[trigger] r@.contains_key(x)
                implies r@[x] == derived_score(lf, pats, facts, qv, 0, e0, S::one_spec(), x@, S::zero_spec()) by {
                let i = choose|i: int| 0 <= i < ov.len() && ov[i].0 == x;
                lemma_score_at(ov, i, x@);
                assert(score_of(ov, x@) == derived_score(lf, pats, facts, qv, 0, e0, S::one_spec(), x@, S::zero_spec()));
            }
            assert forall|k: Seq<u8>| !(exists|x: Vec<u8>| #[trigger] r@.contains_key(x) && x@ == k)
                implies #[trigger] derived_score(lf, pats, facts, qv, 0, e0, S::one_spec(), k, S::zero_spec()) == S::zero_spec() by {
                if exists|i: int| 0 <= i < ov.len() && #[trigger] ov[i].0@ == k {
                    let i = choose|i: int| 0 <= i < ov.len() && #[trigger] ov[i].0@ == k;
                    assert(r@.contains_key(ov[i].0));
                }
                assert(score_of(ov, k) == derived_score(lf, pats, facts, qv, 0, e0, S::one_spec(), k, S::zero_spec()));
            }
        }
        if exact_leaves(*leaf) {
            assert forall|x: Vec<u8>| #[trigger] r@.contains_key(x) implies r@[x]
                == adds(S::zero_spec(), derivations(pats, facts, qv, c0, x@)) && derivations(pats, facts, qv, c0, x@) > 0 by {
                let i = choose|i: int| 0 <= i < ov.len() && ov[i].0 == x;
                assert(ov[i].0@ == x@);
                let i2 = choose|i2: int| 0 <= i2 < ov.len() && #[trigger] ov[i2].0@ == x@;
                if i2 != i {
                    assert(ov[i].0@ != ov[i2].0@);
                }
                assert(score_of(ov, x@) == ov[i].1);
                assert(score_of(Seq::<(Vec<u8>, S)>::empty(), x@) == S::zero_spec());
                assert(has_key(score_keys(ov), x@)) by {
                    assert(score_keys(ov)[i]@ == x@);
                }
                let c2 = choose|c2: Seq<int>| #[trigger] is_choice(c2, pats.len(), facts.len()) && matched(pats, facts, c2)
                    && x@ == answer_of(pats, facts, qv, c2);
                assert(c2.take(0) =~= c0);
                assert(completes(c2, c0, n, m));
                lemma_found_derivation(pats, facts, qv, c0, x@);
            }
            assert forall|k: Seq<u8>| (exists|x: Vec<u8>| #[trigger] r@.contains_key(x) && x@ == k) <==> answers(pats, facts, qv).contains(k) by {
                assert(has_key(score_keys(ov), k) <==> answers(pats, facts, qv).contains(k));
            }
        }
    }
    r
}

fn go<S: Semiring, F: Fn(&Term, &Term) -> S>(
    q: &Conj,
    space: &[Term],
    i: usize,
    env: &mut Env,
    fresh: &mut u32,
    acc: S,
    leaf: &F,
    out: &mut Vec<(Vec<u8>, S)>,
    Ghost(c): Ghost<Seq<int>>,
)
    requires
        ready(views(q.patterns@), q.query_vars@, views(space@)),
        forall|p: &Term, d: &Term| #[trigger] leaf.requires((p, d)),
        old(env).wf(),
        c.len() == i,
        i <= q.patterns@.len(),
        forall|k: int| 0 <= k < i ==> 0 <= #[trigger] c[k] < space@.len(),
        *old(fresh) == level_base(c, i as nat),
        keys_distinct(old(out)@),
        exact_leaves(*leaf) ==> acc == S::one_spec() && is_mgu(old(env).sub(), choice_pairs(views(q.patterns@), views(space@), c)),
    ensures
        final(env).wf(),
        final(env).trail_seq() == old(env).trail_seq(),
        final(env).frames() == old(env).frames(),
        keys_distinct(final(out)@),
        exact_leaves(*leaf) ==> forall|k: Seq<u8>| #[trigger] has_key(score_keys(final(out)@), k) <==> (has_key(score_keys(old(out)@), k)
            || found(views(q.patterns@), views(space@), q.query_vars@, c, k)),
        exact_leaves(*leaf) ==> forall|k: Seq<u8>| #[trigger] score_of(final(out)@, k)
            == adds(score_of(old(out)@, k), derivations(views(q.patterns@), views(space@), q.query_vars@, c, k)),
        forall|lf: spec_fn(TermV, TermV) -> S, k: Seq<u8>| #![trigger leaf_is(*leaf, lf), score_of(final(out)@, k)]
            leaf_is(*leaf, lf) && all_ground(views(space@)) && gsub(old(env).sub())
            ==> score_of(final(out)@, k) == derived_score(lf, views(q.patterns@), views(space@), q.query_vars@, i as nat,
                old(env).sub(), acc, k, score_of(old(out)@, k)),
    decreases q.patterns@.len() - i,
{
    let ghost pats = views(q.patterns@);
    let ghost facts = views(space@);
    let ghost qv = q.query_vars@;
    let ghost n = pats.len();
    let ghost m = facts.len();
    let ghost s0 = env.sub();
    let ghost t0 = env.trail_seq();
    let ghost f0 = env.frames();
    let ghost out0 = out@;
    let ghost ex = exact_leaves(*leaf);
    let ghost gk = key_of(s0, qv);
    let ghost gl = all_ground(facts) && gsub(s0);
    if acc.is_zero() {
        proof {
            assert(!ex);
            assert forall|lf: spec_fn(TermV, TermV) -> S, k: Seq<u8>|
                #![trigger leaf_is(*leaf, lf), score_of(out@, k)] leaf_is(*leaf, lf) && gl
                implies score_of(out@, k) == derived_score(lf, pats, facts, qv, i as nat, s0, acc, k, score_of(out0, k)) by {
                lemma_derived_zero(lf, pats, facts, qv, i as nat, s0, k, score_of(out0, k));
            }
        }
        return;
    }
    if i == q.patterns.len() {
        proof {
            env.lemma_wf();
        }
        let tuple = crate::oracle::answer_tuple(env, &q.query_vars);
        if !tuple.is_encodable() {
            // The encoder cannot key this tuple (a symbol, arity or variable count beyond one
            // tag byte); it is left out. An exact search never meets one (see `ready`).
            proof {
                if ex {
                    assert(is_choice(c, n, m));
                }
            }
            return;
        }
        let key = tuple.encode();
        let mut j: usize = 0;
        #[verifier::loop_isolation(false)]
        while j < out.len()
            invariant
                j <= out@.len(),
                out@ == out0,
                forall|x: int| 0 <= x < j ==> #[trigger] out@[x].0@ != key@,
            decreases out.len() - j,
        {
            if bytes_eq(&out[j].0, &key) {
                let old_score = &out[j].1;
                let sum = old_score.add(&acc);
                let k2 = out[j].0.clone();
                proof {
                    assert(k2@ == out0[j as int].0@);
                }
                out.set(j, (k2, sum));
                proof {
                    assert forall|x: int, y: int| 0 <= x < out@.len() && 0 <= y < out@.len() && x != y implies
                        #[trigger] out@[x].0@ != #[trigger] out@[y].0@ by {
                        if x != j && y != j {
                            assert(out@[x] == out0[x] && out@[y] == out0[y]);
                        } else if x == j {
                            assert(out0[x].0@ == out@[x].0@);
                            assert(out@[y] == out0[y]);
                        } else {
                            assert(out0[y].0@ == out@[y].0@);
                            assert(out@[x] == out0[x]);
                        }
                    }
                    if ex {
                        assert forall|k: Seq<u8>| #[trigger] has_key(score_keys(out@), k) <==> (has_key(score_keys(out0), k) || found(pats, facts, qv, c, k)) by {
                            key_found_step(pats, facts, qv, c, n, m, env.sub(), key@);
                            let ks = score_keys(out@);
                            let ks0 = score_keys(out0);
                            assert forall|x: int| 0 <= x < ks.len() implies ks[x]@ == ks0[x]@ by {
                                if x != j {
                                    assert(out@[x] == out0[x]);
                                }
                            }
                            if has_key(ks, k) {
                                let x = choose|x: int| 0 <= x < ks.len() && #[trigger] ks[x]@ == k;
                                assert(ks0[x]@ == k);
                            }
                            if has_key(ks0, k) {
                                let x = choose|x: int| 0 <= x < ks0.len() && #[trigger] ks0[x]@ == k;
                                assert(ks[x]@ == k);
                            }
                            if found(pats, facts, qv, c, k) {
                                assert(k == key@);
                                assert(score_keys(out0)[j as int]@ == k);
                            }
                        }
                    }
                }
                proof {
                    if ex {
                        lemma_leaf_derivations(pats, facts, qv, c, env.sub(), key@);
                        assert forall|k: Seq<u8>| #[trigger] score_of(out@, k) == adds(score_of(out0, k), derivations(pats, facts, qv, c, k)) by {
                            if k == key@ {
                                assert(out0[j as int].0@ == k);
                                let i0 = choose|i0: int| 0 <= i0 < out0.len() && #[trigger] out0[i0].0@ == k;
                                if i0 != j {
                                    assert(out0[i0].0@ != out0[j as int].0@);
                                }
                                assert(out@[j as int].0@ == k);
                                let i1 = choose|i1: int| 0 <= i1 < out@.len() && #[trigger] out@[i1].0@ == k;
                                if i1 != j {
                                    assert(out@[i1].0@ != out@[j as int].0@);
                                }
                                assert(score_of(out0, k) == out0[j as int].1);
                                assert(score_of(out@, k) == out@[j as int].1);
                                assert(adds(score_of(out0, k), 1) == S::add_spec(adds(score_of(out0, k), 0), S::one_spec()));
                            } else {
                                assert forall|x: int| 0 <= x < out@.len() implies (out@[x].0@ == k <==> out0[x].0@ == k) && (out@[x].0@ == k ==> out@[x] == out0[x]) by {
                                    if x != j {
                                        assert(out@[x] == out0[x]);
                                    }
                                }
                                if exists|x: int| 0 <= x < out@.len() && #[trigger] out@[x].0@ == k {
                                    let x = choose|x: int| 0 <= x < out@.len() && #[trigger] out@[x].0@ == k;
                                    assert(out0[x].0@ == k);
                                }
                                if exists|x: int| 0 <= x < out0.len() && #[trigger] out0[x].0@ == k {
                                    let x = choose|x: int| 0 <= x < out0.len() && #[trigger] out0[x].0@ == k;
                                    assert(out@[x].0@ == k);
                                }
                                assert(score_of(out@, k) == score_of(out0, k));
                            }
                        }
                    }
                }
                proof {
                    assert(key@ == gk);
                    assert forall|x: int| 0 <= x < out0.len() && x != j implies out@[x] == out0[x] by {}
                    lemma_score_update(out0, out@, j as int, gk, acc);
                }
                return;
            }
            j += 1;
        }
        out.push((key, acc));
        proof {
            assert forall|x: int, y: int| 0 <= x < out@.len() && 0 <= y < out@.len() && x != y implies
                #[trigger] out@[x].0@ != #[trigger] out@[y].0@ by {
                if x < out0.len() && y < out0.len() {
                    assert(out@[x] == out0[x] && out@[y] == out0[y]);
                }
            }
            if ex {
                assert forall|k: Seq<u8>| #[trigger] has_key(score_keys(out@), k) <==> (has_key(score_keys(out0), k) || found(pats, facts, qv, c, k)) by {
                    key_found_step(pats, facts, qv, c, n, m, env.sub(), key@);
                    let ks = score_keys(out@);
                    let ks0 = score_keys(out0);
                    if has_key(ks, k) {
                        let x = choose|x: int| 0 <= x < ks.len() && #[trigger] ks[x]@ == k;
                        if x < ks0.len() {
                            assert(ks0[x]@ == k);
                        }
                    }
                    if has_key(ks0, k) {
                        let x = choose|x: int| 0 <= x < ks0.len() && #[trigger] ks0[x]@ == k;
                        assert(ks[x]@ == k);
                    }
                    if found(pats, facts, qv, c, k) {
                        assert(ks[ks0.len() as int]@ == k);
                    }
                }
                lemma_leaf_derivations(pats, facts, qv, c, env.sub(), key@);
                assert forall|k: Seq<u8>| #[trigger] score_of(out@, k) == adds(score_of(out0, k), derivations(pats, facts, qv, c, k)) by {
                    let l = out0.len() as int;
                    if k == key@ {
                        assert(out@[l].0@ == k);
                        assert(!(exists|x: int| 0 <= x < out0.len() && #[trigger] out0[x].0@ == k));
                        let i1 = choose|i1: int| 0 <= i1 < out@.len() && #[trigger] out@[i1].0@ == k;
                        if i1 != l {
                            assert(out@[i1] == out0[i1]);
                        }
                        assert(score_of(out@, k) == acc);
                        S::lemma_units(S::one_spec());
                        assert(adds(S::zero_spec(), 1) == S::add_spec(adds(S::zero_spec(), 0), S::one_spec()));
                    } else {
                        if exists|x: int| 0 <= x < out@.len() && #[trigger] out@[x].0@ == k {
                            let x = choose|x: int| 0 <= x < out@.len() && #[trigger] out@[x].0@ == k;
                            assert(x != l);
                            assert(out@[x] == out0[x]);
                        }
                        if exists|x: int| 0 <= x < out0.len() && #[trigger] out0[x].0@ == k {
                            let x = choose|x: int| 0 <= x < out0.len() && #[trigger] out0[x].0@ == k;
                            assert(out@[x] == out0[x]);
                        }
                        assert forall|x: int| 0 <= x < out0.len() implies #[trigger] out@[x] == out0[x] by {}
                        assert(score_of(out@, k) == score_of(out0, k));
                    }
                }
            }
        }
        proof {
            let l = out0.len() as int;
            assert(key@ == gk);
            assert(out@[l].0@ == gk);
            lemma_score_push(out0, out@, gk, acc);
        }
        return;
    }
    let mut j: usize = 0;
    proof {
        env.lemma_wf();
        if ex {
            assert forall|k: Seq<u8>| #[trigger] has_key(score_keys(out@), k) <==> (has_key(score_keys(out0), k) || found_below(pats, facts, qv, c, 0, k)) by {
                lemma_found_step(pats, facts, qv, c, 0, k);
            }
        }
    }
    while j < space.len()
        invariant
            pats == views(q.patterns@),
            facts == views(space@),
            qv == q.query_vars@,
            n == q.patterns@.len(),
            m == space@.len(),
            ready(pats, qv, facts),
            forall|p: &Term, d: &Term| #[trigger] leaf.requires((p, d)),
            ex == exact_leaves(*leaf),
            c.len() == i,
            i < n,
            n <= usize::MAX,
            f0.len() == t0.len() + 1,
            forall|k: int| 0 <= k < i ==> 0 <= #[trigger] c[k] < m,
            ex ==> acc == S::one_spec() && is_mgu(s0, choice_pairs(pats, facts, c)),
            j <= m,
            env.wf(),
            env.sub() == s0,
            env.trail_seq() == t0,
            env.frames() == f0,
            *fresh == level_base(c, i as nat) + DATA_VAR_STRIDE * j,
            keys_distinct(out@),
            ex ==> forall|k: Seq<u8>| #[trigger] has_key(score_keys(out@), k) <==> (has_key(score_keys(out0), k) || found_below(pats, facts, qv, c, j as int, k)),
            ex ==> forall|k: Seq<u8>| #[trigger] score_of(out@, k) == adds(score_of(out0, k), derivations_below(pats, facts, qv, c, j as int, k)),
            gk == key_of(s0, qv),
            gl == (all_ground(facts) && gsub(s0)),
            forall|lf: spec_fn(TermV, TermV) -> S, k: Seq<u8>| #![trigger leaf_is(*leaf, lf), score_of(out@, k)]
                leaf_is(*leaf, lf) && gl
                ==> score_of(out@, k) == derived_score_over(lf, pats, facts, qv, i as nat, s0, acc, k, score_of(out0, k), j as nat),
        decreases space.len() - j,
    {
        proof {
            lemma_level_base_bound(c, i as nat, m);
            lemma_room(i as nat, j as nat, n, m);
        }
        let fact = &space[j];
        proof {
            assert forall|v: u32| fv(fact@).contains(v) implies v + *fresh <= u32::MAX by {
                assert(facts[j as int] == fact@);
            }
        }
        let f = fact.rename_apart(*fresh);
        let saved_fresh = *fresh;
        *fresh = *fresh + DATA_VAR_STRIDE;
        let ghost cj = c.push(j as int);
        let ghost outj = out@;
        proof {
            assert(cj.take(i as int) =~= c);
            lemma_level_base_prefix(cj, c, i as nat);
            lemma_pairs_prefix(pats, facts, cj, c);
            assert(choice_pairs(pats, facts, cj)[i as int] == (pats[i as int], f@));
            if gl {
                assert(facts[j as int] == fact@);
                crate::term::lemma_ground_fv(fact@);
                crate::term::lemma_map_vars_closed(fact@, |v: u32| (v + saved_fresh) as u32);
                assert(f@ == facts[j as int]);
                assert(pats[i as int] == q.patterns@[i as int]@);
            }
        }
        let mk = env.mark();
        let cst = match_cost(&q.patterns[i], &f, env, leaf);
        let combined = acc.mul(&cst);
        let ghost ge = *env;
        let ghost tp = pats[i as int];
        proof {
            if gl {
                S::lemma_units(acc);
                S::lemma_commutative(acc, cst);
            }
        }
        let ghost ok = ex && cst == S::one_spec();
        proof {
            if ex {
                S::lemma_units(cst);
                S::lemma_units(S::one_spec());
            }
        }
        if !combined.is_zero() {
            proof {
                if ex {
                    let s1 = env.sub();
                    let pj = choice_pairs(pats, facts, cj);
                    let pc = choice_pairs(pats, facts, c);
                    env.lemma_wf();
                    assert(cst == S::one_spec());
                    assert forall|k: int| 0 <= k < pj.len() implies #[trigger] subst(s1, pj[k].0) == subst(s1, pj[k].1) by {
                        if k < i {
                            assert(pj[k] == pc[k]);
                            assert(subst(s0, pc[k].0) == subst(s0, pc[k].1));
                            lemma_instance_absorbs(s1, s0, pc[k].0);
                            lemma_instance_absorbs(s1, s0, pc[k].1);
                        } else {
                            assert(pats[i as int] == q.patterns@[i as int]@);
                        }
                    }
                    assert forall|th2: Map<u32, TermV>| #[trigger] unifies(th2, pj) implies instance_of(th2, s1) by {
                        lemma_unifies_prefix(th2, pats, facts, cj, c);
                        assert(instance_of(th2, s0));
                        assert(subst(th2, pj[i as int].0) == subst(th2, pj[i as int].1));
                        assert(pats[i as int] == q.patterns@[i as int]@);
                    }
                    assert(is_mgu(s1, pj));
                }
                assert forall|k: int| 0 <= k < i + 1 implies 0 <= #[trigger] cj[k] < m by {}
                if gl {
                    assert(cst != S::zero_spec());
                    lemma_bind_all(s0, tp, facts[j as int]);
                }
            }
            go(q, space, i + 1, env, fresh, combined, leaf, out, Ghost(cj));
        }
        proof {
            if ex && !ok {
                assert forall|k: Seq<u8>| !found(pats, facts, qv, cj, k) by {
                    if found(pats, facts, qv, cj, k) {
                        let c2 = choose|c2: Seq<int>| #[trigger] completes(c2, cj, n, m) && matched(pats, facts, c2) && k == answer_of(pats, facts, qv, c2);
                        let th = choose|th: Map<u32, TermV>| is_mgu(th, choice_pairs(pats, facts, c2));
                        let p2 = choice_pairs(pats, facts, c2);
                        assert(c2.take(i as int) =~= c) by {
                            assert(c2.take(i as int) =~= c2.take(i + 1).take(i as int));
                        }
                        lemma_unifies_prefix(th, pats, facts, c2, c);
                        assert(instance_of(th, s0));
                        lemma_pairs_prefix(pats, facts, c2, cj);
                        assert(p2[i as int] == choice_pairs(pats, facts, cj)[i as int]);
                        assert(subst(th, p2[i as int].0) == subst(th, p2[i as int].1));
                        assert(pats[i as int] == q.patterns@[i as int]@);
                    }
                }
                assert(out@ == outj);
            }
        }
        proof {
            if ex {
                assert forall|k: Seq<u8>| #[trigger] score_of(out@, k) == adds(score_of(out0, k), derivations_below(pats, facts, qv, c, j + 1, k)) by {
                    assert(derivations_below(pats, facts, qv, c, j + 1, k)
                        == derivations_below(pats, facts, qv, c, j as int, k) + derivations(pats, facts, qv, cj, k));
                    lemma_adds_adds(score_of(out0, k), derivations_below(pats, facts, qv, c, j as int, k), derivations(pats, facts, qv, cj, k));
                    if !ok {
                        if derivations(pats, facts, qv, cj, k) > 0 {
                            assert forall|x: int| 0 <= x < cj.len() implies 0 <= #[trigger] cj[x] < facts.len() by {
                                if x < c.len() {
                                    assert(cj[x] == c[x]);
                                }
                            }
                            lemma_derivation_found(pats, facts, qv, cj, k);
                        }
                        assert(score_of(out@, k) == score_of(outj, k));
                    }
                }
            }
        }
        env.rollback(mk);
        *fresh = saved_fresh + DATA_VAR_STRIDE;
        proof {
            env.lemma_wf();
            assert(env.trail_seq() =~= t0);
            assert(env.frames() =~= f0);
            if ex {
                assert forall|k: Seq<u8>| #[trigger] has_key(score_keys(out@), k) <==> (has_key(score_keys(out0), k) || found_below(pats, facts, qv, c, j + 1, k)) by {
                    lemma_found_step(pats, facts, qv, c, j as int, k);
                    assert(has_key(score_keys(outj), k) <==> (has_key(score_keys(out0), k) || found_below(pats, facts, qv, c, j as int, k)));
                    if ok {
                        assert(has_key(score_keys(out@), k) <==> (has_key(score_keys(outj), k) || found(pats, facts, qv, cj, k)));
                    } else {
                        assert(!found(pats, facts, qv, cj, k));
                    }
                }
            }
        }
        proof {
            if gl {
                assert forall|lf: spec_fn(TermV, TermV) -> S, k: Seq<u8>| #![trigger leaf_is(*leaf, lf), score_of(out@, k)]
                    leaf_is(*leaf, lf)
                    implies score_of(out@, k) == derived_score_over(lf, pats, facts, qv, i as nat, s0, acc, k, score_of(out0, k), (j + 1) as nat) by {
                    assert(cst == gcost(lf, s0, tp, facts[j as int]));
                    assert(score_of(outj, k) == derived_score_over(lf, pats, facts, qv, i as nat, s0, acc, k, score_of(out0, k), j as nat));
                    if combined == S::zero_spec() {
                        lemma_derived_zero(lf, pats, facts, qv, (i + 1) as nat, bind_all(s0, tp, facts[j as int]), k, score_of(outj, k));
                    }
                }
            }
        }
        j += 1;
    }
    proof {
        if ex {
            assert forall|k: Seq<u8>| #[trigger] derivations(pats, facts, qv, c, k) == derivations_below(pats, facts, qv, c, m as int, k) by {}
            assert forall|k: Seq<u8>| found(pats, facts, qv, c, k) <==> found_below(pats, facts, qv, c, m as int, k) by {
                if found(pats, facts, qv, c, k) {
                    let c2 = choose|c2: Seq<int>| #[trigger] completes(c2, c, n, m) && matched(pats, facts, c2) && k == answer_of(pats, facts, qv, c2);
                    assert(c2[i as int] < m);
                }
            }
        }
    }
}

/// At a complete match of an exact search, the answer key of the current substitution is the
/// answer of the choice, and the choice's only completion is itself.
proof fn key_found_step(pats: Seq<TermV>, facts: Seq<TermV>, qv: Seq<u32>, c: Seq<int>, n: nat, m: nat, s: Map<u32, TermV>, key: Seq<u8>)
    requires
        n == pats.len(),
        m == facts.len(),
        c.len() == n,
        forall|k: int| 0 <= k < n ==> 0 <= #[trigger] c[k] < m,
        is_mgu(s, choice_pairs(pats, facts, c)),
        key == crate::oracle::key_of(s, qv),
    ensures
        forall|k: Seq<u8>| found(pats, facts, qv, c, k) <==> k == key,
{
    let ps = choice_pairs(pats, facts, c);
    let th = mgu(ps);
    assert(is_mgu(th, ps));
    lemma_mgu_key(s, th, ps, qv);
    assert(is_choice(c, n, m));
    assert(c.take(c.len() as int) =~= c);
    assert(completes(c, c, n, m));
    assert forall|k: Seq<u8>| found(pats, facts, qv, c, k) <==> k == key by {
        if found(pats, facts, qv, c, k) {
            let c2 = choose|c2: Seq<int>| #[trigger] completes(c2, c, n, m) && matched(pats, facts, c2) && k == answer_of(pats, facts, qv, c2);
            assert(c2 =~= c2.take(c.len() as int));
        }
    }
}

/// At a complete match of an exact search, the choice derives exactly its own answer, once.
proof fn lemma_leaf_derivations(pats: Seq<TermV>, facts: Seq<TermV>, qv: Seq<u32>, c: Seq<int>, s: Map<u32, TermV>, key: Seq<u8>)
    requires
        c.len() == pats.len(),
        forall|k: int| 0 <= k < pats.len() ==> 0 <= #[trigger] c[k] < facts.len(),
        is_mgu(s, choice_pairs(pats, facts, c)),
        key == crate::oracle::key_of(s, qv),
    ensures
        forall|k: Seq<u8>| #[trigger] derivations(pats, facts, qv, c, k) == if k == key { 1nat } else { 0nat },
{
    key_found_step(pats, facts, qv, c, pats.len(), facts.len(), s, key);
    assert forall|k: Seq<u8>| #[trigger] derivations(pats, facts, qv, c, k) == if k == key { 1nat } else { 0nat } by {
        if found(pats, facts, qv, c, k) {
            let c2 = choose|c2: Seq<int>| #[trigger] completes(c2, c, pats.len(), facts.len()) && matched(pats, facts, c2)
                && k == answer_of(pats, facts, qv, c2);
            assert(c2 =~= c2.take(c.len() as int));
        }
        if matched(pats, facts, c) && answer_of(pats, facts, qv, c) == k {
            assert(c.take(c.len() as int) =~= c);
            assert(completes(c, c, pats.len(), facts.len()));
        }
    }
}

/// Exact leaf: `one` if equal, `zero` otherwise. With the Reach semiring this is exact
/// matching; with Count it counts exact derivations.
pub fn exact_leaf<S: Semiring>(p: &Term, d: &Term) -> (r: S)
    ensures
        r == (if p@ == d@ { S::one_spec() } else { S::zero_spec() }),
{
    if p.eq_term(d) {
        S::one()
    } else {
        S::zero()
    }
}

/// The tropical cost of two leaves: equal symbols cost 0; two integers cost their absolute
/// difference; any other pair is incompatible (infinity).
pub open spec fn tropical_cost(p: TermV, d: TermV) -> Option<int> {
    match (p, d) {
        (TermV::Sym(a), TermV::Sym(b)) => if a == b {
            Some(0)
        } else if decimal_i64(a) is Some && decimal_i64(b) is Some {
            let x = decimal_i64(a)->Some_0;
            let y = decimal_i64(b)->Some_0;
            Some(if x >= y { x - y } else { y - x })
        } else {
            None
        },
        _ => None,
    }
}

/// Tropical leaf: equal symbols cost 0; two integers cost their absolute difference (clamped
/// to `i64::MAX`); any other symbol pair is incompatible (infinity). The numeric dimension is fuzzy, the rest
/// is hard.
pub fn tropical_leaf(p: &Term, d: &Term) -> (r: Tropical)
    ensures
        r.0 == (match tropical_cost(p@, d@) {
            Some(v) => Some(crate::semiring::clamp_i64(v)),
            None => None,
        }),
{
    match (p, d) {
        (Term::Sym(a), Term::Sym(b)) => {
            if *a == *b {
                Tropical(Some(0))
            } else {
                match (parse_i64(a.as_str()), parse_i64(b.as_str())) {
                    (Some(x), Some(y)) => {
                        let (hi, lo) = if x >= y { (x, y) } else { (y, x) };
                        let diff = if lo >= 0 || hi <= i64::MAX + lo { hi - lo } else { i64::MAX };
                        Tropical(Some(diff))
                    }
                    _ => Tropical(None),
                }
            }
        }
        _ => Tropical(None),
    }
}

} // verus!
