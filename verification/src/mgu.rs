//! Most general unifiers exist: every unifiable list of equations has an idempotent most
//! general unifier over its own variables (Robinson's theorem), proved by the classic
//! transformation rules on the list.

use vstd::prelude::*;
use vstd::set_lib::lemma_len_subset;
use crate::term::{TermV, fv, fv_all, lemma_fv_all};
use crate::subst::{
    subst, tsize, tsize_all, idem, instance_of, compose, vimg, lemma_subst_app, lemma_fv_subst,
    lemma_subst_agree, lemma_subst_compose, lemma_instance_absorbs, lemma_occurs_size, lemma_fv_finite,
    lemma_subst_noop, lemma_subst_resolved,
};
use crate::oracle::{unifies, is_mgu};

verus! {

/// The variables of a list of equations.
pub open spec fn eq_vars(ps: Seq<(TermV, TermV)>) -> Set<u32>
    decreases ps.len(),
{
    if ps.len() == 0 {
        Set::empty()
    } else {
        eq_vars(ps.drop_last()).union(fv(ps.last().0)).union(fv(ps.last().1))
    }
}

/// The total number of nodes of a list of equations.
pub open spec fn eq_size(ps: Seq<(TermV, TermV)>) -> nat
    decreases ps.len(),
{
    if ps.len() == 0 {
        0
    } else {
        eq_size(ps.drop_last()) + tsize(ps.last().0) + tsize(ps.last().1)
    }
}

/// The equations between the children of two expressions of one arity.
pub open spec fn zip_eqs(xs: Seq<TermV>, ys: Seq<TermV>) -> Seq<(TermV, TermV)> {
    Seq::new(xs.len(), |i: int| (xs[i], ys[i]))
}

/// A list of equations with `s` applied to both sides of each.
pub open spec fn subst_eqs(s: Map<u32, TermV>, ps: Seq<(TermV, TermV)>) -> Seq<(TermV, TermV)> {
    Seq::new(ps.len(), |i: int| (subst(s, ps[i].0), subst(s, ps[i].1)))
}

/// A variable of the equations is a variable of one side of one of them, and they are finitely many.
pub(crate) proof fn lemma_eq_vars(ps: Seq<(TermV, TermV)>)
    ensures
        eq_vars(ps).finite(),
        forall|i: int, v: u32| #![trigger fv(ps[i].0).contains(v)] #![trigger fv(ps[i].1).contains(v)]
            0 <= i < ps.len() && (fv(ps[i].0).contains(v) || fv(ps[i].1).contains(v)) ==> eq_vars(ps).contains(v),
        forall|v: u32| #[trigger] eq_vars(ps).contains(v) ==> exists|i: int| 0 <= i < ps.len()
            && (fv(ps[i].0).contains(v) || fv(ps[i].1).contains(v)),
    decreases ps.len(),
{
    if ps.len() > 0 {
        let init = ps.drop_last();
        lemma_eq_vars(init);
        lemma_fv_finite(ps.last().0);
        lemma_fv_finite(ps.last().1);
        assert forall|i: int, v: u32| 0 <= i < ps.len() && (fv(ps[i].0).contains(v) || fv(ps[i].1).contains(v))
            implies eq_vars(ps).contains(v) by {
            if i < ps.len() - 1 {
                assert(init[i] == ps[i]);
                assert(fv(init[i].0).contains(v) || fv(init[i].1).contains(v));
            }
        }
        assert forall|v: u32| #[trigger] eq_vars(ps).contains(v) implies exists|i: int| 0 <= i < ps.len()
            && (fv(ps[i].0).contains(v) || fv(ps[i].1).contains(v)) by {
            if eq_vars(init).contains(v) {
                let i = choose|i: int| 0 <= i < init.len() && (fv(init[i].0).contains(v) || fv(init[i].1).contains(v));
                assert(init[i] == ps[i]);
            } else {
                assert(fv(ps[ps.len() - 1].0).contains(v) || fv(ps[ps.len() - 1].1).contains(v));
            }
        }
    }
}

/// The size of a concatenation is the sum of the sizes.
proof fn lemma_eq_size_append(a: Seq<(TermV, TermV)>, b: Seq<(TermV, TermV)>)
    ensures
        eq_size(a + b) == eq_size(a) + eq_size(b),
    decreases b.len(),
{
    if b.len() > 0 {
        assert((a + b).drop_last() =~= a + b.drop_last());
        lemma_eq_size_append(a, b.drop_last());
    }
}

/// The size of the children's equations is the size of the children.
proof fn lemma_eq_size_zip(xs: Seq<TermV>, ys: Seq<TermV>, k: nat)
    requires
        xs.len() == ys.len(),
        k <= xs.len(),
    ensures
        eq_size(zip_eqs(xs, ys).take(k as int)) == tsize_all(xs, k) + tsize_all(ys, k),
    decreases k,
{
    if k > 0 {
        assert(zip_eqs(xs, ys).take(k as int).drop_last() =~= zip_eqs(xs, ys).take(k - 1));
        lemma_eq_size_zip(xs, ys, (k - 1) as nat);
    }
}

/// `th` unifies the list exactly when it unifies all but the last and the last.
pub(crate) proof fn lemma_unifies_last(th: Map<u32, TermV>, ps: Seq<(TermV, TermV)>)
    requires
        ps.len() > 0,
    ensures
        unifies(th, ps) <==> unifies(th, ps.drop_last()) && subst(th, ps.last().0) == subst(th, ps.last().1),
{
    let init = ps.drop_last();
    if unifies(th, init) && subst(th, ps.last().0) == subst(th, ps.last().1) {
        assert forall|k: int| 0 <= k < ps.len() implies #[trigger] subst(th, ps[k].0) == subst(th, ps[k].1) by {
            if k < init.len() {
                assert(init[k] == ps[k]);
            }
        }
    }
    if unifies(th, ps) {
        assert(subst(th, ps[ps.len() - 1].0) == subst(th, ps[ps.len() - 1].1));
        assert forall|k: int| 0 <= k < init.len() implies #[trigger] subst(th, init[k].0) == subst(th, init[k].1) by {
            assert(init[k] == ps[k]);
            assert(subst(th, ps[k].0) == subst(th, ps[k].1));
        }
    }
}

/// A unifier of two expressions of one arity unifies their children.
proof fn lemma_unifies_zip(th: Map<u32, TermV>, xs: Seq<TermV>, ys: Seq<TermV>)
    requires
        xs.len() == ys.len(),
    ensures
        subst(th, TermV::App(xs)) == subst(th, TermV::App(ys)) <==> unifies(th, zip_eqs(xs, ys)),
{
    lemma_subst_app(th, xs);
    lemma_subst_app(th, ys);
    let zs = zip_eqs(xs, ys);
    if subst(th, TermV::App(xs)) == subst(th, TermV::App(ys)) {
        assert forall|k: int| 0 <= k < zs.len() implies #[trigger] subst(th, zs[k].0) == subst(th, zs[k].1) by {
            assert(subst(th, TermV::App(xs))->App_0[k] == subst(th, xs[k]));
            assert(subst(th, TermV::App(ys))->App_0[k] == subst(th, ys[k]));
        }
    }
    if unifies(th, zs) {
        assert forall|k: int| 0 <= k < xs.len() implies subst(th, xs[k]) == subst(th, ys[k]) by {
            assert(subst(th, zs[k].0) == subst(th, zs[k].1));
        }
        assert(Seq::new(xs.len(), |j: int| subst(th, xs[j])) =~= Seq::new(ys.len(), |j: int| subst(th, ys[j])));
    }
}

/// `th` unifies a concatenation exactly when it unifies both parts.
pub(crate) proof fn lemma_unifies_append(th: Map<u32, TermV>, a: Seq<(TermV, TermV)>, b: Seq<(TermV, TermV)>)
    ensures
        unifies(th, a + b) <==> unifies(th, a) && unifies(th, b),
{
    let c = a + b;
    if unifies(th, c) {
        assert forall|k: int| 0 <= k < a.len() implies #[trigger] subst(th, a[k].0) == subst(th, a[k].1) by {
            assert(c[k] == a[k]);
            assert(subst(th, c[k].0) == subst(th, c[k].1));
        }
        assert forall|k: int| 0 <= k < b.len() implies #[trigger] subst(th, b[k].0) == subst(th, b[k].1) by {
            assert(c[a.len() + k] == b[k]);
            assert(subst(th, c[a.len() + k].0) == subst(th, c[a.len() + k].1));
        }
    }
    if unifies(th, a) && unifies(th, b) {
        assert forall|k: int| 0 <= k < c.len() implies #[trigger] subst(th, c[k].0) == subst(th, c[k].1) by {
            if k < a.len() {
                assert(c[k] == a[k]);
            } else {
                assert(c[k] == b[k - a.len()]);
            }
        }
    }
}

/// A substitution that agrees with `th` after `s` on every variable gives every term what
/// applying `s` and then `th` gives it.
proof fn lemma_subst_through(th2: Map<u32, TermV>, s: Map<u32, TermV>, th: Map<u32, TermV>, a: TermV)
    requires
        forall|v: u32| subst(th2, TermV::Var(v)) == #[trigger] subst(th, subst(s, TermV::Var(v))),
    ensures
        subst(th2, a) == subst(th, subst(s, a)),
{
    lemma_subst_compose(s, th, a);
    assert forall|w: u32| fv(a).contains(w) implies subst(th2, TermV::Var(w)) == subst(compose(s, th), TermV::Var(w)) by {
        assert(subst(th2, TermV::Var(w)) == subst(th, subst(s, TermV::Var(w))));
        lemma_subst_compose(s, th, TermV::Var(w));
    }
    lemma_subst_agree(th2, compose(s, th), a);
}

/// The variables of `s` applied to both sides of each equation, when `s` sends only `x` to
/// a term `t` without `x`, are those of the equations and of `t`, less `x`.
proof fn lemma_elim_vars(ps: Seq<(TermV, TermV)>, x: u32, t: TermV)
    requires
        !fv(t).contains(x),
    ensures
        forall|u: u32| #[trigger] eq_vars(subst_eqs(Map::empty().insert(x, t), ps)).contains(u)
            ==> u != x && (eq_vars(ps).contains(u) || fv(t).contains(u)),
{
    let s0 = Map::<u32, TermV>::empty().insert(x, t);
    let qs = subst_eqs(s0, ps);
    lemma_eq_vars(ps);
    lemma_eq_vars(qs);
    assert forall|u: u32| #[trigger] eq_vars(qs).contains(u) implies u != x && (eq_vars(ps).contains(u) || fv(t).contains(u)) by {
        let i = choose|i: int| 0 <= i < qs.len() && (fv(qs[i].0).contains(u) || fv(qs[i].1).contains(u));
        lemma_fv_subst(s0, ps[i].0);
        lemma_fv_subst(s0, ps[i].1);
        if fv(qs[i].0).contains(u) {
            let w = choose|w: u32| fv(ps[i].0).contains(w) && vimg(s0, w, u);
        } else {
            let w = choose|w: u32| fv(ps[i].1).contains(w) && vimg(s0, w, u);
        }
    }
}

/// Eliminating a variable: for a list whose last equation binds the variable `x` to a term `t`
/// without it, a most general unifier is the one of the rest with `x` replaced by `t`,
/// extended by `x`.
proof fn lemma_elim(ps: Seq<(TermV, TermV)>, x: u32, t: TermV, sg: Map<u32, TermV>) -> (th: Map<u32, TermV>)
    requires
        ps.len() > 0,
        ps.last() == (TermV::Var(x), t) || ps.last() == (t, TermV::Var(x)),
        !fv(t).contains(x),
        unifies(sg, ps),
    ensures
        is_mgu(th, ps),
        forall|v: u32| #[trigger] th.contains_key(v) ==> eq_vars(ps).contains(v),
        forall|v: u32, u: u32| th.contains_key(v) && #[trigger] fv(th[v]).contains(u) ==> eq_vars(ps).contains(u),
    decreases eq_vars(ps).len(), eq_size(ps), 0nat,
{
    let rest = ps.drop_last();
    let s0 = Map::<u32, TermV>::empty().insert(x, t);
    let qs = subst_eqs(s0, rest);
    lemma_unifies_last(sg, ps);
    lemma_eq_vars(ps);
    lemma_eq_vars(rest);
    lemma_eq_vars(qs);
    assert(subst(sg, TermV::Var(x)) == subst(sg, t));
    // A unifier of `x = t` sees no difference between a term and its copy with `x` replaced.
    assert forall|th2: Map<u32, TermV>, a: TermV| subst(th2, TermV::Var(x)) == subst(th2, t)
        implies #[trigger] subst(th2, subst(s0, a)) == subst(th2, a) by {
        assert forall|v: u32| subst(th2, TermV::Var(v)) == #[trigger] subst(th2, subst(s0, TermV::Var(v))) by {}
        lemma_subst_through(th2, s0, th2, a);
    }
    assert(unifies(sg, qs)) by {
        assert forall|k: int| 0 <= k < qs.len() implies #[trigger] subst(sg, qs[k].0) == subst(sg, qs[k].1) by {
            assert(rest[k] == ps[k]);
            assert(subst(sg, ps[k].0) == subst(sg, ps[k].1));
            assert(subst(sg, subst(s0, rest[k].0)) == subst(sg, rest[k].0));
            assert(subst(sg, subst(s0, rest[k].1)) == subst(sg, rest[k].1));
        }
    }
    // Fewer variables: `x` is gone.
    lemma_elim_vars(rest, x, t);
    assert(eq_vars(ps).contains(x));
    assert forall|u: u32| fv(t).contains(u) implies eq_vars(ps).contains(u) by {
        assert(fv(ps[ps.len() - 1].0).contains(u) || fv(ps[ps.len() - 1].1).contains(u));
    }
    assert(eq_vars(qs).subset_of(eq_vars(ps).remove(x))) by {
        assert forall|u: u32| eq_vars(qs).contains(u) implies eq_vars(ps).remove(x).contains(u) by {
            if eq_vars(rest).contains(u) {
                let i = choose|i: int| 0 <= i < rest.len() && (fv(rest[i].0).contains(u) || fv(rest[i].1).contains(u));
                assert(rest[i] == ps[i]);
            }
        }
    }
    lemma_len_subset(eq_vars(qs), eq_vars(ps).remove(x));
    let th1 = lemma_mgu_exists(qs, sg);
    assert(!th1.contains_key(x));
    let th = th1.insert(x, subst(th1, t));
    // Applying `th` is replacing `x` by `t`, then applying `th1`.
    assert forall|v: u32| subst(th, TermV::Var(v)) == #[trigger] subst(th1, subst(s0, TermV::Var(v))) by {}
    assert forall|a: TermV| #[trigger] subst(th, a) == subst(th1, subst(s0, a)) by {
        lemma_subst_through(th, s0, th1, a);
    }
    lemma_subst_noop(s0, t);
    // It unifies the list.
    assert(unifies(th, ps)) by {
        assert(subst(th, TermV::Var(x)) == subst(th, t));
        assert forall|k: int| 0 <= k < rest.len() implies #[trigger] subst(th, rest[k].0) == subst(th, rest[k].1) by {
            assert(subst(th1, qs[k].0) == subst(th1, qs[k].1));
        }
        lemma_unifies_last(th, ps);
    }
    // Its images hold none of the variables it binds.
    lemma_fv_subst(th1, t);
    assert forall|u: u32| #[trigger] fv(subst(th1, t)).contains(u) implies !th1.contains_key(u) && u != x
        && eq_vars(ps).contains(u) by {
        let w = choose|w: u32| fv(t).contains(w) && vimg(th1, w, u);
        if th1.contains_key(w) {
            assert(eq_vars(qs).contains(u));
        }
        lemma_subst_resolved(th1, t);
    }
    assert(idem(th)) by {
        assert forall|v: u32, u: u32| th.contains_key(v) && #[trigger] fv(th[v]).contains(u) implies !th.contains_key(u) by {
            if v != x {
                assert(eq_vars(qs).contains(u));
            }
        }
    }
    // Every unifier is an instance of it.
    assert forall|th2: Map<u32, TermV>| #[trigger] unifies(th2, ps) implies instance_of(th2, th) by {
        lemma_unifies_last(th2, ps);
        assert(subst(th2, TermV::Var(x)) == subst(th2, t));
        assert(unifies(th2, qs)) by {
            assert forall|k: int| 0 <= k < qs.len() implies #[trigger] subst(th2, qs[k].0) == subst(th2, qs[k].1) by {
                assert(rest[k] == ps[k]);
                assert(subst(th2, ps[k].0) == subst(th2, ps[k].1));
                assert(subst(th2, subst(s0, rest[k].0)) == subst(th2, rest[k].0));
                assert(subst(th2, subst(s0, rest[k].1)) == subst(th2, rest[k].1));
            }
        }
        assert(instance_of(th2, th1));
        lemma_instance_absorbs(th2, th1, t);
        assert forall|v: u32| #[trigger] th.contains_key(v) implies subst(th2, th[v]) == subst(th2, TermV::Var(v)) by {
            if v != x {
                assert(th1.contains_key(v));
            }
        }
    }
    assert forall|v: u32, u: u32| th.contains_key(v) && #[trigger] fv(th[v]).contains(u) implies eq_vars(ps).contains(u) by {
        if v != x {
            assert(eq_vars(qs).contains(u));
        }
    }
    th
}

/// Every unifiable list of equations has an idempotent most general unifier that binds, and
/// mentions, only variables of the list.
pub proof fn lemma_mgu_exists(ps: Seq<(TermV, TermV)>, sg: Map<u32, TermV>) -> (th: Map<u32, TermV>)
    requires
        unifies(sg, ps),
    ensures
        is_mgu(th, ps),
        forall|v: u32| #[trigger] th.contains_key(v) ==> eq_vars(ps).contains(v),
        forall|v: u32, u: u32| th.contains_key(v) && #[trigger] fv(th[v]).contains(u) ==> eq_vars(ps).contains(u),
    decreases eq_vars(ps).len(), eq_size(ps), 1nat,
{
    if ps.len() == 0 {
        let th = Map::<u32, TermV>::empty();
        assert forall|th2: Map<u32, TermV>| #[trigger] unifies(th2, ps) implies instance_of(th2, th) by {}
        th
    } else {
        let rest = ps.drop_last();
        let (s, t) = ps.last();
        lemma_unifies_last(sg, ps);
        lemma_eq_vars(ps);
        lemma_eq_vars(rest);
        assert(eq_vars(rest).subset_of(eq_vars(ps))) by {
            assert forall|u: u32| eq_vars(rest).contains(u) implies eq_vars(ps).contains(u) by {
                let i = choose|i: int| 0 <= i < rest.len() && (fv(rest[i].0).contains(u) || fv(rest[i].1).contains(u));
                assert(rest[i] == ps[i]);
            }
        }
        if s == t {
            lemma_len_subset(eq_vars(rest), eq_vars(ps));
            let th = lemma_mgu_exists(rest, sg);
            lemma_unifies_last(th, ps);
            assert forall|th2: Map<u32, TermV>| #[trigger] unifies(th2, ps) implies instance_of(th2, th) by {
                lemma_unifies_last(th2, ps);
            }
            th
        } else if s is Var && !fv(t).contains(s->Var_0) {
            lemma_elim(ps, s->Var_0, t, sg)
        } else if t is Var && !fv(s).contains(t->Var_0) {
            lemma_elim(ps, t->Var_0, s, sg)
        } else {
            match s {
                TermV::Var(x) => {
                    lemma_occurs_size(sg, x, t);
                    assert(false);
                }
                _ => {}
            }
            match t {
                TermV::Var(y) => {
                    lemma_occurs_size(sg, y, s);
                    assert(false);
                }
                _ => {}
            }
            match (s, t) {
                (TermV::App(xs), TermV::App(ys)) => {
                    lemma_subst_app(sg, xs);
                    lemma_subst_app(sg, ys);
                    assert(subst(sg, s)->App_0.len() == xs.len());
                    assert(xs.len() == ys.len());
                    let zs = zip_eqs(xs, ys);
                    let ps2 = rest + zs;
                    lemma_unifies_zip(sg, xs, ys);
                    lemma_unifies_append(sg, rest, zs);
                    // Same variables, fewer nodes.
                    lemma_eq_vars(ps2);
                    lemma_fv_all(xs, xs.len());
                    lemma_fv_all(ys, ys.len());
                    assert(eq_vars(ps2).subset_of(eq_vars(ps))) by {
                        assert forall|u: u32| eq_vars(ps2).contains(u) implies eq_vars(ps).contains(u) by {
                            let i = choose|i: int| 0 <= i < ps2.len() && (fv(ps2[i].0).contains(u) || fv(ps2[i].1).contains(u));
                            if i < rest.len() {
                                assert(ps2[i] == rest[i]);
                                assert(rest[i] == ps[i]);
                            } else {
                                assert(ps2[i] == zs[i - rest.len()]);
                                if fv(xs[i - rest.len()]).contains(u) {
                                    assert(fv_all(xs, xs.len()).contains(u));
                                    assert(fv(ps[ps.len() - 1].0).contains(u));
                                } else {
                                    assert(fv_all(ys, ys.len()).contains(u));
                                    assert(fv(ps[ps.len() - 1].1).contains(u));
                                }
                            }
                        }
                    }
                    lemma_len_subset(eq_vars(ps2), eq_vars(ps));
                    lemma_eq_size_append(rest, zs);
                    assert(zs.take(xs.len() as int) =~= zs);
                    lemma_eq_size_zip(xs, ys, xs.len());
                    let th = lemma_mgu_exists(ps2, sg);
                    lemma_unifies_append(th, rest, zs);
                    lemma_unifies_zip(th, xs, ys);
                    lemma_unifies_last(th, ps);
                    assert forall|th2: Map<u32, TermV>| #[trigger] unifies(th2, ps) implies instance_of(th2, th) by {
                        lemma_unifies_last(th2, ps);
                        lemma_unifies_zip(th2, xs, ys);
                        lemma_unifies_append(th2, rest, zs);
                    }
                    th
                }
                (TermV::App(xs), TermV::Sym(_)) => {
                    lemma_subst_app(sg, xs);
                    assert(false);
                    Map::empty()
                }
                (TermV::Sym(_), TermV::App(ys)) => {
                    lemma_subst_app(sg, ys);
                    assert(false);
                    Map::empty()
                }
                _ => {
                    assert(false);
                    Map::empty()
                }
            }
        }
    }
}

} // verus!
