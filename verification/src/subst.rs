//! Substitutions over term models: applying them, composing them, and what they do to the
//! variables of a term. These are the mathematical objects the unifier's environment stands for.

use vstd::prelude::*;
use crate::term::{TermV, fv, fv_all, lemma_fv_all, map_vars, lemma_map_vars_app, injective_on, encoding, enc, lemma_enc_map, encodable, vars_of};

verus! {

/// Apply the substitution `s` to `t` once: each variable in the domain of `s` is replaced by
/// its image, every other variable is kept.
pub open spec fn subst(s: Map<u32, TermV>, t: TermV) -> TermV
    decreases t,
{
    match t {
        TermV::Sym(x) => TermV::Sym(x),
        TermV::Var(v) => if s.contains_key(v) { s[v] } else { TermV::Var(v) },
        TermV::App(a) => TermV::App(
            Seq::new(a.len(), |i: int| if 0 <= i < a.len() { subst(s, a[i]) } else { TermV::Var(0) }),
        ),
    }
}

/// `s2` after `s1`: the substitution whose application equals applying `s1`, then `s2`.
pub open spec fn compose(s1: Map<u32, TermV>, s2: Map<u32, TermV>) -> Map<u32, TermV> {
    Map::new(
        |w: u32| s1.contains_key(w) || s2.contains_key(w),
        |w: u32| if s1.contains_key(w) { subst(s2, s1[w]) } else { s2[w] },
    )
}

/// No variable bound by `s` occurs in an image of `s` (so applying `s` twice is applying it once).
pub open spec fn idem(s: Map<u32, TermV>) -> bool {
    forall|v: u32, u: u32| s.contains_key(v) && #[trigger] fv(s[v]).contains(u) ==> !s.contains_key(u)
}

/// `th` is an instance of `s`: applying `th` after `s` is the same as applying `th` alone.
pub open spec fn instance_of(th: Map<u32, TermV>, s: Map<u32, TermV>) -> bool {
    forall|v: u32| #[trigger] s.contains_key(v) ==> subst(th, s[v]) == subst(th, TermV::Var(v))
}

/// `u` is a variable of the image of `w` under `s`.
pub open spec fn vimg(s: Map<u32, TermV>, w: u32, u: u32) -> bool {
    if s.contains_key(w) {
        fv(s[w]).contains(u)
    } else {
        u == w
    }
}

/// The number of nodes of a term.
pub open spec fn tsize(t: TermV) -> nat
    decreases t, 0nat,
{
    match t {
        TermV::App(a) => 1 + tsize_all(a, a.len()),
        _ => 1,
    }
}

pub open spec fn tsize_all(a: Seq<TermV>, k: nat) -> nat
    decreases a, k,
{
    if k == 0 || k > a.len() {
        0
    } else {
        tsize_all(a, (k - 1) as nat) + tsize(a[k - 1])
    }
}

pub proof fn lemma_subst_app(s: Map<u32, TermV>, a: Seq<TermV>)
    ensures
        subst(s, TermV::App(a)) == TermV::App(Seq::new(a.len(), |j: int| subst(s, a[j]))),
{
    let r = subst(s, TermV::App(a))->App_0;
    assert(r =~= Seq::new(a.len(), |j: int| subst(s, a[j])));
}

proof fn lemma_tsize_all(a: Seq<TermV>, k: nat, i: int)
    requires
        0 <= i < k <= a.len(),
    ensures
        tsize(a[i]) <= tsize_all(a, k),
    decreases k,
{
    if i < k - 1 {
        lemma_tsize_all(a, (k - 1) as nat, i);
    }
}

/// A child is smaller than its expression.
pub proof fn lemma_tsize_child(a: Seq<TermV>, i: int)
    requires
        0 <= i < a.len(),
    ensures
        tsize(a[i]) < tsize(TermV::App(a)),
{
    lemma_tsize_all(a, a.len(), i);
}

/// The variables of `subst(s, t)` are the variables of the images of the variables of `t`.
pub proof fn lemma_fv_subst(s: Map<u32, TermV>, t: TermV)
    ensures
        forall|u: u32| #[trigger] fv(subst(s, t)).contains(u) <==> exists|w: u32| fv(t).contains(w) && vimg(s, w, u),
    decreases t,
{
    match t {
        TermV::Sym(_) => {}
        TermV::Var(v) => {
            assert forall|u: u32| #[trigger] fv(subst(s, t)).contains(u) implies exists|w: u32| fv(t).contains(w) && vimg(s, w, u) by {
                assert(fv(t).contains(v) && vimg(s, v, u));
            }
        }
        TermV::App(a) => {
            let b = Seq::new(a.len(), |j: int| subst(s, a[j]));
            lemma_subst_app(s, a);
            lemma_fv_all(a, a.len());
            lemma_fv_all(b, b.len());
            assert(fv(subst(s, t)) == fv_all(b, b.len()));
            assert(fv(t) == fv_all(a, a.len()));
            assert forall|u: u32| #[trigger] fv(subst(s, t)).contains(u) implies exists|w: u32| fv(t).contains(w) && vimg(s, w, u) by {
                assert(fv_all(b, b.len()).contains(u));
                let j = choose|j: int| 0 <= j < b.len() && #[trigger] fv(b[j]).contains(u);
                assert(fv(subst(s, a[j])).contains(u));
                lemma_fv_subst(s, a[j]);
                let w = choose|w: u32| fv(a[j]).contains(w) && vimg(s, w, u);
                assert(fv_all(a, a.len()).contains(w));
            }
            assert forall|u: u32| (exists|w: u32| fv(t).contains(w) && vimg(s, w, u)) implies #[trigger] fv(subst(s, t)).contains(u) by {
                let w = choose|w: u32| fv(t).contains(w) && vimg(s, w, u);
                assert(fv_all(a, a.len()).contains(w));
                let j = choose|j: int| 0 <= j < a.len() && #[trigger] fv(a[j]).contains(w);
                lemma_fv_subst(s, a[j]);
                assert(fv(subst(s, a[j])).contains(u));
                assert(fv(b[j]).contains(u));
                assert(fv_all(b, b.len()).contains(u));
            }
        }
    }
}

/// Two substitutions that agree on the variables of `t` give the same result on `t`.
pub proof fn lemma_subst_agree(s1: Map<u32, TermV>, s2: Map<u32, TermV>, t: TermV)
    requires
        forall|w: u32| fv(t).contains(w) ==> subst(s1, TermV::Var(w)) == subst(s2, TermV::Var(w)),
    ensures
        subst(s1, t) == subst(s2, t),
    decreases t,
{
    match t {
        TermV::Sym(_) => {}
        TermV::Var(v) => {
            assert(fv(t).contains(v));
        }
        TermV::App(a) => {
            lemma_subst_app(s1, a);
            lemma_subst_app(s2, a);
            lemma_fv_all(a, a.len());
            assert forall|j: int| 0 <= j < a.len() implies subst(s1, a[j]) == subst(s2, a[j]) by {
                assert forall|w: u32| fv(a[j]).contains(w) implies subst(s1, TermV::Var(w)) == subst(s2, TermV::Var(w)) by {
                    assert(fv_all(a, a.len()).contains(w));
                    assert(fv(t).contains(w));
                }
                lemma_subst_agree(s1, s2, a[j]);
            }
            assert(Seq::new(a.len(), |j: int| subst(s1, a[j])) =~= Seq::new(a.len(), |j: int| subst(s2, a[j])));
        }
    }
}

/// A substitution that binds none of the variables of `t` leaves it unchanged.
pub proof fn lemma_subst_noop(s: Map<u32, TermV>, t: TermV)
    requires
        forall|w: u32| fv(t).contains(w) ==> !s.contains_key(w),
    ensures
        subst(s, t) == t,
    decreases t,
{
    match t {
        TermV::Sym(_) => {}
        TermV::Var(v) => {
            assert(fv(t).contains(v));
        }
        TermV::App(a) => {
            lemma_subst_app(s, a);
            lemma_fv_all(a, a.len());
            assert forall|j: int| 0 <= j < a.len() implies subst(s, a[j]) == a[j] by {
                assert forall|w: u32| fv(a[j]).contains(w) implies !s.contains_key(w) by {
                    assert(fv_all(a, a.len()).contains(w));
                    assert(fv(t).contains(w));
                }
                lemma_subst_noop(s, a[j]);
            }
            assert(Seq::new(a.len(), |j: int| subst(s, a[j])) =~= a);
        }
    }
}

/// Applying `s1` and then `s2` is applying their composition.
pub proof fn lemma_subst_compose(s1: Map<u32, TermV>, s2: Map<u32, TermV>, t: TermV)
    ensures
        subst(s2, subst(s1, t)) == subst(compose(s1, s2), t),
    decreases t,
{
    match t {
        TermV::Sym(_) => {}
        TermV::Var(v) => {}
        TermV::App(a) => {
            let b = Seq::new(a.len(), |j: int| subst(s1, a[j]));
            lemma_subst_app(s1, a);
            lemma_subst_app(s2, b);
            lemma_subst_app(compose(s1, s2), a);
            assert forall|j: int| 0 <= j < a.len() implies subst(s2, b[j]) == subst(compose(s1, s2), a[j]) by {
                lemma_subst_compose(s1, s2, a[j]);
            }
            assert(Seq::new(b.len(), |j: int| subst(s2, b[j])) =~= Seq::new(a.len(), |j: int| subst(compose(s1, s2), a[j])));
        }
    }
}

/// A term resolved by an idempotent substitution has no variable that substitution binds.
pub proof fn lemma_subst_resolved(s: Map<u32, TermV>, t: TermV)
    requires
        idem(s),
    ensures
        forall|u: u32| #[trigger] fv(subst(s, t)).contains(u) ==> !s.contains_key(u),
{
    lemma_fv_subst(s, t);
    assert forall|u: u32| #[trigger] fv(subst(s, t)).contains(u) implies !s.contains_key(u) by {
        let w = choose|w: u32| fv(t).contains(w) && vimg(s, w, u);
    }
}

/// Applying an idempotent substitution twice is applying it once.
pub proof fn lemma_subst_idem(s: Map<u32, TermV>, t: TermV)
    requires
        idem(s),
    ensures
        subst(s, subst(s, t)) == subst(s, t),
{
    lemma_subst_resolved(s, t);
    lemma_subst_noop(s, subst(s, t));
}

/// An instance of `s` absorbs `s`.
pub proof fn lemma_instance_absorbs(th: Map<u32, TermV>, s: Map<u32, TermV>, t: TermV)
    requires
        instance_of(th, s),
    ensures
        subst(th, subst(s, t)) == subst(th, t),
{
    lemma_subst_compose(s, th, t);
    assert forall|w: u32| fv(t).contains(w) implies subst(compose(s, th), TermV::Var(w)) == subst(th, TermV::Var(w)) by {
        if s.contains_key(w) {
            assert(s.contains_key(w));
        }
    }
    lemma_subst_agree(compose(s, th), th, t);
}

/// A variable occurs properly inside any term that contains it and is not that variable, so no
/// substitution makes the two equal.
pub proof fn lemma_occurs_size(th: Map<u32, TermV>, x: u32, t: TermV)
    requires
        fv(t).contains(x),
    ensures
        tsize(subst(th, TermV::Var(x))) <= tsize(subst(th, t)),
        t != TermV::Var(x) ==> tsize(subst(th, TermV::Var(x))) < tsize(subst(th, t)),
    decreases t,
{
    match t {
        TermV::Sym(_) => {}
        TermV::Var(v) => {}
        TermV::App(a) => {
            lemma_fv_all(a, a.len());
            assert(fv_all(a, a.len()).contains(x));
            let j = choose|j: int| 0 <= j < a.len() && #[trigger] fv(a[j]).contains(x);
            lemma_occurs_size(th, x, a[j]);
            lemma_subst_app(th, a);
            let b = Seq::new(a.len(), |k: int| subst(th, a[k]));
            lemma_tsize_child(b, j);
        }
    }
}


/// The variables of a term form a finite set.
pub proof fn lemma_fv_finite(t: TermV)
    ensures
        fv(t).finite(),
    decreases t, 0nat,
{
    match t {
        TermV::App(a) => {
            lemma_fv_all_finite(a, a.len());
        }
        _ => {}
    }
}

pub proof fn lemma_fv_all_finite(a: Seq<TermV>, k: nat)
    ensures
        fv_all(a, k).finite(),
    decreases a, k,
{
    if k == 0 || k > a.len() {
    } else {
        lemma_fv_all_finite(a, (k - 1) as nat);
        lemma_fv_finite(a[k - 1]);
    }
}


/// If undoing `rho` with `sg` gives `a` back, `rho` only renames the variables of `a`.
proof fn lemma_undo_renames(sg: Map<u32, TermV>, rho: Map<u32, TermV>, a: TermV)
    requires
        subst(sg, subst(rho, a)) == a,
    ensures
        forall|v: u32| #[trigger] fv(a).contains(v) ==> subst(rho, TermV::Var(v)) is Var
            && subst(sg, subst(rho, TermV::Var(v))) == TermV::Var(v),
    decreases a,
{
    match a {
        TermV::Sym(_) => {}
        TermV::Var(v) => {
            let r = subst(rho, TermV::Var(v));
            match r {
                TermV::Sym(_) => {}
                TermV::App(x) => { lemma_subst_app(sg, x); }
                TermV::Var(_) => {}
            }
        }
        TermV::App(xs) => {
            let ys = Seq::new(xs.len(), |j: int| subst(rho, xs[j]));
            lemma_subst_app(rho, xs);
            lemma_subst_app(sg, ys);
            lemma_fv_all(xs, xs.len());
            assert forall|j: int| 0 <= j < xs.len() implies subst(sg, subst(rho, xs[j])) == xs[j] by {
                assert(subst(sg, subst(rho, a))->App_0[j] == subst(sg, ys[j]));
            }
            assert forall|v: u32| #[trigger] fv(a).contains(v) implies subst(rho, TermV::Var(v)) is Var
                && subst(sg, subst(rho, TermV::Var(v))) == TermV::Var(v) by {
                assert(fv_all(xs, xs.len()).contains(v));
                let j = choose|j: int| 0 <= j < xs.len() && #[trigger] fv(xs[j]).contains(v);
                lemma_undo_renames(sg, rho, xs[j]);
            }
        }
    }
}

/// A substitution that sends every variable of `a` to a variable is a renaming of `a`.
pub(crate) proof fn lemma_subst_is_map_vars(rho: Map<u32, TermV>, a: TermV, f: spec_fn(u32) -> u32)
    requires
        forall|v: u32| #[trigger] fv(a).contains(v) ==> subst(rho, TermV::Var(v)) == TermV::Var(f(v)),
    ensures
        subst(rho, a) == map_vars(a, f),
    decreases a,
{
    match a {
        TermV::Sym(_) => {}
        TermV::Var(v) => {
            assert(fv(a).contains(v));
        }
        TermV::App(xs) => {
            lemma_subst_app(rho, xs);
            lemma_map_vars_app(xs, f);
            lemma_fv_all(xs, xs.len());
            assert forall|j: int| 0 <= j < xs.len() implies subst(rho, xs[j]) == map_vars(xs[j], f) by {
                assert forall|v: u32| #[trigger] fv(xs[j]).contains(v) implies subst(rho, TermV::Var(v)) == TermV::Var(f(v)) by {
                    assert(fv_all(xs, xs.len()).contains(v));
                    assert(fv(a).contains(v));
                }
                lemma_subst_is_map_vars(rho, xs[j], f);
            }
            assert(Seq::new(xs.len(), |j: int| subst(rho, xs[j])) =~= Seq::new(xs.len(), |j: int| map_vars(xs[j], f)));
        }
    }
}

/// Two idempotent substitutions that are instances of each other (two most general unifiers of
/// the same problem) give any term the same encoding: they agree up to renaming, and the
/// encoding does not see names.
pub proof fn lemma_equivalent_same_encoding(t1: Map<u32, TermV>, t2: Map<u32, TermV>, t: TermV)
    requires
        idem(t1),
        idem(t2),
        instance_of(t1, t2),
        instance_of(t2, t1),
    ensures
        encoding(subst(t1, t)) == encoding(subst(t2, t)),
        encodable(subst(t1, t)) == encodable(subst(t2, t)),
{
    let a = subst(t1, t);
    let b = subst(t2, t);
    lemma_instance_absorbs(t2, t1, t);
    lemma_instance_absorbs(t1, t2, t);
    lemma_subst_idem(t1, t);
    lemma_instance_absorbs(t1, t2, a);
    assert(subst(t2, a) == b);
    assert(subst(t1, subst(t2, a)) == a);
    lemma_mutual_instances(a, b, t2, t1);
}

/// Two terms that are instances of each other are renamings of each other, so they have one
/// encoding, and the encoder accepts both or neither.
pub proof fn lemma_mutual_instances(a: TermV, b: TermV, s: Map<u32, TermV>, r: Map<u32, TermV>)
    requires
        subst(s, a) == b,
        subst(r, b) == a,
    ensures
        encoding(a) == encoding(b),
        encodable(a) == encodable(b),
{
    lemma_undo_renames(r, s, a);
    let f = |v: u32| match subst(s, TermV::Var(v)) {
        TermV::Var(w) => w,
        _ => v,
    };
    lemma_subst_is_map_vars(s, a, f);
    let empty = Seq::<u32>::empty();
    assert(injective_on(f, empty.to_set().union(fv(a)))) by {
        assert forall|x: u32, y: u32| empty.to_set().union(fv(a)).contains(x) && empty.to_set().union(fv(a)).contains(y)
            && #[trigger] f(x) == #[trigger] f(y) implies x == y by {
            assert(fv(a).contains(x));
            assert(fv(a).contains(y));
        }
    }
    lemma_enc_map(a, empty, f);
    assert(empty.map_values(f) =~= empty);
    crate::term::lemma_shape_map(a, f);
    assert(vars_of(b) == vars_of(a).map_values(f));
}

} // verus!
