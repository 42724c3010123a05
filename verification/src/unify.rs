//! Unification with an explicit trail (the WAM idea), occurs check included.
//!
//! This is the *meet* of the term lattice: `unify(a, b)` finds the most general
//! substitution making `a` and `b` equal, or fails. It is both the per-variable
//! operation the joins perform and the core of the baseline matcher.
//!
//! The trail records every binding so a caller can `mark()` a point, try a branch, and
//! `rollback(mark)` in O(1) per binding when it backtracks.
//!
//! The environment stores raw bindings (a variable to the term it was bound to). What those
//! bindings mean is an idempotent substitution, one per trail prefix (`frames`): the last one
//! is the current substitution `sub()`, and rolling back to a mark returns to an earlier frame.

use vstd::prelude::*;
use std::collections::HashMap;
use crate::term::{Term, TermV, fv, fv_all, lemma_fv_all, views, lemma_view_app};
use crate::subst::{
    subst, compose, idem, instance_of, lemma_subst_app, lemma_fv_subst, lemma_subst_noop,
    lemma_subst_compose, lemma_subst_resolved, lemma_subst_idem, lemma_instance_absorbs,
    lemma_occurs_size, lemma_subst_agree, vimg, lemma_fv_finite, lemma_fv_all_finite,
};

verus! {

broadcast use vstd::std_specs::hash::group_hash_axioms;

/// A substitution environment with a trail for backtracking.
pub struct Env {
    bindings: HashMap<u32, Term>,
    trail: Vec<u32>,
    frames: Ghost<Seq<Map<u32, TermV>>>,
}

/// `s` is the meaning of the bindings `b` of the variables in `pre`: it binds exactly those
/// variables, each to its binding with `s` applied, and is idempotent.
pub open spec fn frame_ok(s: Map<u32, TermV>, b: Map<u32, TermV>, pre: Seq<u32>) -> bool {
    &&& forall|v: u32| #[trigger] s.contains_key(v) <==> pre.contains(v)
    &&& forall|v: u32| #[trigger] s.contains_key(v) ==> s[v] == subst(s, b[v])
    &&& idem(s)
}

/// Every variable of the bindings `b` (bound or occurring in a bound term) lies in `uni`.
pub open spec fn closed_in(b: Map<u32, TermV>, uni: Set<u32>) -> bool {
    &&& forall|v: u32| #[trigger] b.contains_key(v) ==> uni.contains(v)
    &&& forall|v: u32, u: u32| b.contains_key(v) && #[trigger] fv(b[v]).contains(u) ==> uni.contains(u)
}

/// The substitution that binds `x` to `t` and nothing else.
pub open spec fn single(x: u32, t: TermV) -> Map<u32, TermV> {
    Map::empty().insert(x, t)
}

/// `e2` is `e1` with more bindings made after it: `e1`'s trail and substitutions are a prefix
/// of `e2`'s (what `bind_var`, a successful `unify` and a failed one all leave).
pub open spec fn extends(e2: Env, e1: Env) -> bool {
    &&& e1.trail_seq().len() <= e2.trail_seq().len()
    &&& e2.trail_seq().take(e1.trail_seq().len() as int) == e1.trail_seq()
    &&& e1.frames().len() <= e2.frames().len()
    &&& e2.frames().take(e1.frames().len() as int) == e1.frames()
}

/// Extending is transitive, so any sequence of binding calls extends the environment it
/// started from.
pub proof fn law_extends_trans(e1: Env, e2: Env, e3: Env)
    requires
        extends(e2, e1),
        extends(e3, e2),
    ensures
        extends(e3, e1),
{
    assert(e3.trail_seq().take(e1.trail_seq().len() as int) =~= e3.trail_seq().take(e2.trail_seq().len() as int).take(e1.trail_seq().len() as int));
    assert(e3.frames().take(e1.frames().len() as int) =~= e3.frames().take(e2.frames().len() as int).take(e1.frames().len() as int));
}

/// Rolling back to the mark taken at `e1`, after any sequence of calls that extended it to
/// `e2`, restores `e1`'s trail and substitution.
pub proof fn law_rollback_restores(e1: Env, e2: Env, e3: Env)
    requires
        e1.wf(),
        extends(e2, e1),
        e3.trail_seq() == e2.trail_seq().take(e1.trail_seq().len() as int),
        e3.frames() == e2.frames().take(e1.trail_seq().len() + 1 as int),
    ensures
        e3.trail_seq() == e1.trail_seq(),
        e3.frames() == e1.frames(),
        e3.sub() == e1.sub(),
{
    e1.lemma_wf();
}

/// `r` is reached from `t` by following bindings at the head only: `r` is `t`, or `t` is a
/// variable `x0` bound to a variable `x1` bound to ... to a variable `xn` bound to `r`.
pub open spec fn head_chain(b: Map<u32, TermV>, t: TermV, r: TermV) -> bool {
    ||| r == t
    ||| exists|xs: Seq<u32>| #![trigger xs.last()] xs.len() >= 1 && t == TermV::Var(xs[0])
        && (forall|i: int| 0 <= i < xs.len() ==> #[trigger] b.contains_key(xs[i]))
        && (forall|i: int| 0 <= i < xs.len() - 1 ==> b[#[trigger] xs[i]] == TermV::Var(xs[i + 1]))
        && r == b[xs.last()]
}

impl Env {
    /// The raw bindings, by model.
    pub closed spec fn bound(&self) -> Map<u32, TermV> {
        self.bindings@.map_values(|t: Term| t@)
    }

    /// The bound variables, in binding order.
    pub closed spec fn trail_seq(&self) -> Seq<u32> {
        self.trail@
    }

    /// The substitution after each prefix of the trail.
    pub closed spec fn frames(&self) -> Seq<Map<u32, TermV>> {
        self.frames@
    }

    /// The current substitution.
    pub open spec fn sub(&self) -> Map<u32, TermV> {
        self.frames().last()
    }

    /// The environment is well formed.
    pub closed spec fn wf(&self) -> bool {
        &&& self.trail@.no_duplicates()
        &&& forall|v: u32| #[trigger] self.bindings@.contains_key(v) <==> self.trail@.contains(v)
        &&& self.frames@.len() == self.trail@.len() + 1
        &&& forall|k: int|
            0 <= k <= self.trail@.len() ==> frame_ok(#[trigger] self.frames@[k], self.bound(), self.trail@.take(k))
        &&& forall|i: int, j: int|
            0 <= i < self.trail@.len() && 0 <= j < self.trail@.len()
                && #[trigger] self.bound()[self.trail@[i]] == TermV::Var(#[trigger] self.trail@[j]) ==> i < j
    }

    /// Facts every well-formed environment has.
    pub proof fn lemma_wf(&self)
        requires
            self.wf(),
        ensures
            self.frames().len() == self.trail_seq().len() + 1,
            idem(self.sub()),
            forall|v: u32| #[trigger] self.sub().contains_key(v) <==> self.bound().contains_key(v),
            forall|v: u32| #[trigger] self.sub().contains_key(v) <==> self.trail_seq().contains(v),
            forall|v: u32| #[trigger] self.bound().contains_key(v) ==> self.sub()[v] == subst(self.sub(), self.bound()[v]),
            self.trail_seq().no_duplicates(),
    {
        let n = self.trail@.len() as int;
        assert(self.trail@.take(n) =~= self.trail@);
        assert(frame_ok(self.frames@[n], self.bound(), self.trail@.take(n)));
        assert forall|v: u32| #[trigger] self.bound().contains_key(v) <==> self.bindings@.contains_key(v) by {}
        assert forall|v: u32| #[trigger] self.bound().contains_key(v) implies self.sub()[v] == subst(self.sub(), self.bound()[v]) by {
            assert(self.bindings@.contains_key(v));
            assert(self.trail@.contains(v));
            assert(self.sub().contains_key(v));
        }
    }

    /// A walk step keeps the meaning of a term.
    proof fn lemma_step(&self, x: u32)
        requires
            self.wf(),
            self.bound().contains_key(x),
        ensures
            subst(self.sub(), self.bound()[x]) == subst(self.sub(), TermV::Var(x)),
    {
        self.lemma_wf();
    }

    /// The trail position of a bound variable.
    spec fn pos_of(&self, v: u32) -> int {
        self.trail@.index_of(v)
    }

    /// How many more walk steps a term can take, at most.
    spec fn chain(&self, t: TermV) -> nat {
        match t {
            TermV::Var(v) => if self.bindings@.contains_key(v) {
                (self.trail@.len() - self.pos_of(v)) as nat
            } else {
                0
            },
            _ => 0,
        }
    }

    pub fn new() -> (e: Env)
        ensures
            e.wf(),
            e.sub() == Map::<u32, TermV>::empty(),
            e.trail_seq() == Seq::<u32>::empty(),
            e.frames() == seq![Map::<u32, TermV>::empty()],
            e.bound() == Map::<u32, TermV>::empty(),
    {
        let ghost f = seq![Map::<u32, TermV>::empty()];
        let e = Env { bindings: HashMap::new(), trail: Vec::new(), frames: Ghost(f) };
        proof {
            assert(e.bound() =~= Map::<u32, TermV>::empty());
            assert forall|k: int| 0 <= k <= e.trail@.len() implies frame_ok(#[trigger] e.frames@[k], e.bound(), e.trail@.take(k)) by {
                assert(e.trail@.take(k) =~= Seq::<u32>::empty());
            }
        }
        e
    }

    /// A point to roll back to later.
    pub fn mark(&self) -> (m: usize)
        requires
            self.wf(),
        ensures
            m == self.trail_seq().len(),
    {
        self.trail.len()
    }

    /// Follow the binding chain at the head of `t` (var -> its binding -> ...), returning
    /// the first term that is not a bound variable. Shallow (head only).
    pub fn walk<'a>(&'a self, t: &'a Term) -> (r: &'a Term)
        requires
            self.wf(),
        ensures
            subst(self.sub(), r@) == subst(self.sub(), t@),
            !(r@ is Var && self.sub().contains_key(r@->Var_0)),
            r@ == t@ || exists|v: u32| #[trigger] self.bound().contains_key(v) && r@ == self.bound()[v],
            head_chain(self.bound(), t@, r@),
            !(t@ is Var && self.bound().contains_key(t@->Var_0)) ==> r@ == t@,
    {
        proof {
            self.lemma_wf();
        }
        let mut cur = t;
        loop
            invariant
                self.wf(),
                subst(self.sub(), cur@) == subst(self.sub(), t@),
                cur@ == t@ || exists|v: u32| #[trigger] self.bound().contains_key(v) && cur@ == self.bound()[v],
                head_chain(self.bound(), t@, cur@),
                !(t@ is Var && self.bound().contains_key(t@->Var_0)) ==> cur@ == t@,
            ensures
                subst(self.sub(), cur@) == subst(self.sub(), t@),
                !(cur@ is Var && self.sub().contains_key(cur@->Var_0)),
                cur@ == t@ || exists|v: u32| #[trigger] self.bound().contains_key(v) && cur@ == self.bound()[v],
                head_chain(self.bound(), t@, cur@),
                !(t@ is Var && self.bound().contains_key(t@->Var_0)) ==> cur@ == t@,
            decreases self.chain(cur@),
        {
            match cur {
                Term::Var(x) => {
                    match self.bindings.get(x) {
                        Some(next) => {
                            proof {
                                self.lemma_wf();
                                self.lemma_step(*x);
                                assert(self.bound()[*x] == next@);
                                let i = self.pos_of(*x);
                                assert(self.trail@.contains(*x));
                                crate::term::lemma_index_of(self.trail@, self.trail@.index_of(*x));
                                if next@ is Var && self.bindings@.contains_key(next@->Var_0) {
                                    let u = next@->Var_0;
                                    assert(self.trail@.contains(u));
                                    let j = self.trail@.index_of(u);
                                    assert(self.trail@[j] == u);
                                    assert(self.trail@[i] == *x);
                                    assert(self.bound()[self.trail@[i]] == TermV::Var(self.trail@[j]));
                                }
                                let b = self.bound();
                                assert(b.contains_key(*x));
                                if cur@ == t@ {
                                    let xs = seq![*x];
                                    assert(xs.last() == *x);
                                    assert(head_chain(b, t@, next@));
                                } else {
                                    let xs0 = choose|xs: Seq<u32>| #![trigger xs.last()] xs.len() >= 1 && t@ == TermV::Var(xs[0])
                                        && (forall|i: int| 0 <= i < xs.len() ==> #[trigger] b.contains_key(xs[i]))
                                        && (forall|i: int| 0 <= i < xs.len() - 1 ==> b[#[trigger] xs[i]] == TermV::Var(xs[i + 1]))
                                        && cur@ == b[xs.last()];
                                    let xs = xs0.push(*x);
                                    assert(xs.last() == *x);
                                    assert forall|i: int| 0 <= i < xs.len() implies #[trigger] b.contains_key(xs[i]) by {
                                        if i < xs0.len() {
                                            assert(xs[i] == xs0[i]);
                                        }
                                    }
                                    assert forall|i: int| 0 <= i < xs.len() - 1 implies b[#[trigger] xs[i]] == TermV::Var(xs[i + 1]) by {
                                        assert(xs[i] == xs0[i]);
                                        if i < xs0.len() - 1 {
                                            assert(xs[i + 1] == xs0[i + 1]);
                                        } else {
                                            assert(xs0[i] == xs0.last());
                                        }
                                    }
                                    assert(head_chain(b, t@, next@));
                                }
                            }
                            cur = next;
                        }
                        None => {
                            proof {
                                self.lemma_wf();
                            }
                            break;
                        }
                    }
                }
                _ => {
                    break;
                }
            }
        }
        cur
    }
}


impl Env {
    /// Apply the substitution fully (deep), producing a term with all bound variables
    /// replaced. Unbound variables are left as-is.
    pub fn resolve(&self, t: &Term) -> (r: Term)
        requires
            self.wf(),
        ensures
            r@ == subst(self.sub(), t@),
        decreases subst(self.sub(), t@),
    {
        let w = self.walk(t);
        match w {
            Term::Sym(s) => Term::Sym(s.clone()),
            Term::Var(x) => Term::Var(*x),
            Term::App(a) => {
                let ghost sw = subst(self.sub(), w@);
                proof {
                    lemma_view_app(*a);
                    lemma_subst_app(self.sub(), views(a@));
                }
                let mut out: Vec<Term> = Vec::new();
                let mut i: usize = 0;
                #[verifier::loop_isolation(false)]
                while i < a.len()
                    invariant
                        i <= a.len(),
                        out@.len() == i,
                        forall|j: int| 0 <= j < i ==> #[trigger] out@[j]@ == subst(self.sub(), a@[j]@),
                    decreases a.len() - i,
                {
                    proof {
                        let c = subst(self.sub(), a@[i as int]@);
                        assert(views(a@)[i as int] == a@[i as int]@);
                        assert(sw->App_0[i as int] == c);
                        assert(decreases_to!(sw => c));
                    }
                    out.push(self.resolve(&a[i]));
                    i += 1;
                }
                proof {
                    lemma_view_app(out);
                    assert(views(out@) =~= Seq::new(views(a@).len(), |j: int| subst(self.sub(), views(a@)[j])));
                }
                Term::App(out)
            }
        }
    }

    /// Does variable `x` occur in `t` under the current substitution? Prevents binding `x`
    /// to a term containing `x`, which would build an infinite term.
    pub(crate) fn occurs(&self, x: u32, t: &Term) -> (b: bool)
        requires
            self.wf(),
        ensures
            b == fv(subst(self.sub(), t@)).contains(x),
        decreases subst(self.sub(), t@),
    {
        let w = self.walk(t);
        match w {
            Term::Var(y) => x == *y,
            Term::Sym(_) => false,
            Term::App(a) => {
                let ghost sw = subst(self.sub(), w@);
                let ghost sa = Seq::new(views(a@).len(), |j: int| subst(self.sub(), views(a@)[j]));
                proof {
                    lemma_view_app(*a);
                    lemma_subst_app(self.sub(), views(a@));
                    lemma_fv_all(sa, sa.len());
                    assert(fv(sw) == fv_all(sa, sa.len()));
                }
                let mut i: usize = 0;
                #[verifier::loop_isolation(false)]
                while i < a.len()
                    invariant
                        i <= a.len(),
                        forall|j: int| 0 <= j < i ==> !fv(#[trigger] sa[j]).contains(x),
                    decreases a.len() - i,
                {
                    proof {
                        let c = subst(self.sub(), a@[i as int]@);
                        assert(views(a@)[i as int] == a@[i as int]@);
                        assert(sw->App_0[i as int] == c);
                        assert(decreases_to!(sw => c));
                    }
                    if self.occurs(x, &a[i]) {
                        proof {
                            assert(views(a@)[i as int] == a@[i as int]@);
                            assert(fv(sa[i as int]).contains(x));
                        }
                        return true;
                    }
                    proof {
                        assert(views(a@)[i as int] == a@[i as int]@);
                    }
                    i += 1;
                }
                false
            }
        }
    }
}


/// A frame depends only on the bindings of its own variables.
proof fn lemma_frame_agree(s: Map<u32, TermV>, b1: Map<u32, TermV>, b2: Map<u32, TermV>, pre: Seq<u32>)
    requires
        frame_ok(s, b1, pre),
        forall|v: u32| pre.contains(v) ==> b1.contains_key(v) && b2.contains_key(v) && b2[v] == b1[v],
    ensures
        frame_ok(s, b2, pre),
{
    assert forall|v: u32| #[trigger] s.contains_key(v) implies s[v] == subst(s, b2[v]) by {
        assert(pre.contains(v));
    }
}

/// The frame after binding `v` to `t`.
proof fn lemma_bind_frame(s: Map<u32, TermV>, b: Map<u32, TermV>, pre: Seq<u32>, v: u32, t: TermV)
    requires
        frame_ok(s, b, pre),
        !s.contains_key(v),
        !pre.contains(v),
        !fv(subst(s, t)).contains(v),
    ensures
        frame_ok(compose(s, single(v, subst(s, t))), b.insert(v, t), pre.push(v)),
        instance_of(compose(s, single(v, subst(s, t))), s),
{
    let tt = subst(s, t);
    let one = single(v, tt);
    let s2 = compose(s, one);
    let b2 = b.insert(v, t);
    assert forall|w: u32| #[trigger] s2.contains_key(w) <==> pre.push(v).contains(w) by {
        if w == v {
            assert(pre.push(v)[pre.len() as int] == v);
        } else {
            if pre.push(v).contains(w) {
                let i = choose|i: int| 0 <= i < pre.push(v).len() && pre.push(v)[i] == w;
                assert(pre[i] == w);
            }
            if pre.contains(w) {
                let i = choose|i: int| 0 <= i < pre.len() && pre[i] == w;
                assert(pre.push(v)[i] == w);
            }
        }
    }
    lemma_subst_resolved(s, t);
    assert forall|u: u32| fv(tt).contains(u) implies !one.contains_key(u) by {}
    lemma_subst_noop(one, tt);
    assert forall|w: u32| #[trigger] s2.contains_key(w) implies s2[w] == subst(s2, b2[w]) by {
        lemma_subst_compose(s, one, b2[w]);
        if w != v {
            assert(s.contains_key(w));
            assert(b2[w] == b[w]);
        }
    }
    assert forall|w: u32, u: u32| s2.contains_key(w) && #[trigger] fv(s2[w]).contains(u) implies !s2.contains_key(u) by {
        if w == v {
            assert(s2[w] == tt);
        } else {
            assert(s2[w] == subst(one, s[w]));
            lemma_fv_subst(one, s[w]);
            let w2 = choose|w2: u32| fv(s[w]).contains(w2) && vimg(one, w2, u);
            if w2 == v {
                assert(fv(tt).contains(u));
            } else {
                assert(u == w2);
            }
        }
    }
    assert forall|w: u32| #[trigger] s.contains_key(w) implies subst(s2, s[w]) == subst(s2, TermV::Var(w)) by {
        lemma_subst_compose(s, one, s[w]);
        assert forall|u: u32| fv(s[w]).contains(u) implies !s.contains_key(u) by {}
        lemma_subst_noop(s, s[w]);
    }
}

/// A unifier of `x` and `t` that is an instance of `s` is an instance of `s` with `x` bound to `t`.
pub proof fn lemma_bind_general(th: Map<u32, TermV>, s: Map<u32, TermV>, v: u32, tt: TermV)
    requires
        instance_of(th, s),
        !s.contains_key(v),
        subst(th, TermV::Var(v)) == subst(th, tt),
    ensures
        instance_of(th, compose(s, single(v, tt))),
{
    let one = single(v, tt);
    let s2 = compose(s, one);
    assert forall|w: u32| #[trigger] s2.contains_key(w) implies subst(th, s2[w]) == subst(th, TermV::Var(w)) by {
        if w != v {
            assert(s.contains_key(w));
            lemma_subst_compose(one, th, s[w]);
            assert forall|u: u32| fv(s[w]).contains(u) implies subst(compose(one, th), TermV::Var(u)) == subst(th, TermV::Var(u)) by {}
            lemma_subst_agree(compose(one, th), th, s[w]);
        }
    }
}

/// Instances compose.
pub proof fn lemma_instance_trans(s3: Map<u32, TermV>, s2: Map<u32, TermV>, s1: Map<u32, TermV>)
    requires
        instance_of(s3, s2),
        instance_of(s2, s1),
    ensures
        instance_of(s3, s1),
{
    assert forall|v: u32| #[trigger] s1.contains_key(v) implies subst(s3, s1[v]) == subst(s3, TermV::Var(v)) by {
        lemma_instance_absorbs(s3, s2, s1[v]);
        lemma_instance_absorbs(s3, s2, TermV::Var(v));
    }
}

impl Env {
    pub(crate) fn bind(&mut self, v: u32, t: Term)
        requires
            old(self).wf(),
            !old(self).sub().contains_key(v),
            !(t@ is Var && old(self).sub().contains_key(t@->Var_0)),
            !fv(subst(old(self).sub(), t@)).contains(v),
        ensures
            final(self).wf(),
            final(self).trail_seq() == old(self).trail_seq().push(v),
            final(self).bound() == old(self).bound().insert(v, t@),
            final(self).frames() == old(self).frames().push(compose(old(self).sub(), single(v, subst(old(self).sub(), t@)))),
            instance_of(final(self).sub(), old(self).sub()),
    {
        proof {
            self.lemma_wf();
        }
        let ghost s = self.sub();
        let ghost tv = t@;
        let ghost s2 = compose(s, single(v, subst(s, t@)));
        let ghost t0 = self.trail@;
        let ghost b0 = self.bound();
        let ghost f0 = self.frames@;
        let ghost n = t0.len() as int;
        proof {
            assert(t0.take(n) =~= t0);
            assert(frame_ok(f0[n], b0, t0.take(n)));
            lemma_bind_frame(s, b0, t0, v, tv);
        }
        self.bindings.insert(v, t);
        self.trail.push(v);
        self.frames = Ghost(f0.push(s2));
        proof {
            assert(self.bound() =~= b0.insert(v, tv));
            assert(self.trail@ == t0.push(v));
            assert forall|k: int| 0 <= k <= self.trail@.len() implies frame_ok(#[trigger] self.frames@[k], self.bound(), self.trail@.take(k)) by {
                if k <= n {
                    assert(self.trail@.take(k) =~= t0.take(k));
                    assert(frame_ok(f0[k], b0, t0.take(k)));
                    assert forall|w: u32| t0.take(k).contains(w) implies b0.contains_key(w) && self.bound().contains_key(w) && self.bound()[w] == b0[w] by {
                        let i = choose|i: int| 0 <= i < t0.take(k).len() && t0.take(k)[i] == w;
                        assert(t0[i] == w);
                        assert(t0.contains(w));
                    }
                    lemma_frame_agree(f0[k], b0, self.bound(), t0.take(k));
                } else {
                    assert(self.trail@.take(k) =~= t0.push(v));
                }
            }
            assert forall|i: int, j: int|
                0 <= i < self.trail@.len() && 0 <= j < self.trail@.len()
                    && #[trigger] self.bound()[self.trail@[i]] == TermV::Var(#[trigger] self.trail@[j]) implies i < j by {
                if i == n {
                    if j < n {
                        assert(t0.contains(t0[j]));
                        assert(s.contains_key(t0[j]));
                    } else {
                        assert(fv(TermV::Var(v)).contains(v));
                    }
                } else if j < n {
                    assert(t0[i] != v);
                    assert(b0[t0[i]] == TermV::Var(t0[j]));
                }
            }
            assert(self.trail@.no_duplicates());
            assert forall|w: u32| #[trigger] self.bindings@.contains_key(w) <==> self.trail@.contains(w) by {
                if w == v {
                    assert(self.trail@[n] == v);
                } else if self.trail@.contains(w) {
                    let i = choose|i: int| 0 <= i < self.trail@.len() && self.trail@[i] == w;
                    assert(t0[i] == w);
                    assert(t0.contains(w));
                } else if t0.contains(w) {
                    let i = choose|i: int| 0 <= i < t0.len() && t0[i] == w;
                    assert(self.trail@[i] == w);
                }
            }
        }
    }

    /// Bind an unbound variable to a term, recorded on the trail. The binding must not make the
    /// variable occur in its own value.
    pub fn bind_var(&mut self, v: u32, t: Term)
        requires
            old(self).wf(),
            !old(self).sub().contains_key(v),
            !fv(subst(old(self).sub(), t@)).contains(v),
        ensures
            final(self).wf(),
            final(self).trail_seq() == old(self).trail_seq().push(v),
            final(self).frames() == old(self).frames().push(compose(old(self).sub(), single(v, subst(old(self).sub(), t@)))),
            final(self).sub() == compose(old(self).sub(), single(v, subst(old(self).sub(), t@))),
            instance_of(final(self).sub(), old(self).sub()),
    {
        let w = self.walk(&t).clone();
        self.bind(v, w);
    }

    /// Undo every binding made since `mark`. O(1) per undone binding.
    pub fn rollback(&mut self, mark: usize)
        requires
            old(self).wf(),
        ensures
            final(self).wf(),
            mark <= old(self).trail_seq().len() ==> final(self).trail_seq() == old(self).trail_seq().take(mark as int)
                && final(self).frames() == old(self).frames().take(mark + 1 as int),
            mark > old(self).trail_seq().len() ==> final(self).trail_seq() == old(self).trail_seq()
                && final(self).frames() == old(self).frames(),
            forall|v: u32| #[trigger] final(self).bound().contains_key(v) ==> old(self).bound().contains_key(v)
                && final(self).bound()[v] == old(self).bound()[v],
    {
        let ghost t0 = self.trail@;
        let ghost f0 = self.frames@;
        let ghost b0 = self.bound();
        proof {
            assert(t0.take(t0.len() as int) =~= t0);
            assert(f0.take(t0.len() + 1 as int) =~= f0);
        }
        while self.trail.len() > mark
            invariant
                self.wf(),
                self.trail@.len() <= t0.len(),
                f0.len() == t0.len() + 1,
                mark <= t0.len() ==> mark <= self.trail@.len(),
                mark > t0.len() ==> self.trail@.len() == t0.len(),
                self.trail@ == t0.take(self.trail@.len() as int),
                self.frames@ == f0.take(self.trail@.len() + 1 as int),
                forall|v: u32| #[trigger] self.bound().contains_key(v) ==> b0.contains_key(v) && self.bound()[v] == b0[v],
            decreases self.trail.len(),
        {
            let ghost t1 = self.trail@;
            let ghost b1 = self.bound();
            let ghost n = t1.len() - 1;
            let v = self.trail.pop().unwrap();
            self.bindings.remove(&v);
            self.frames = Ghost(self.frames@.take(n + 1));
            proof {
                assert(self.trail@ =~= t1.take(n));
                assert(self.trail@ =~= t0.take(n));
                assert(self.frames@ =~= f0.take(n + 1));
                assert(v == t1[n]);
                assert forall|w: u32| #[trigger] self.bound().contains_key(w) implies b1.contains_key(w) && self.bound()[w] == b1[w] && w != v by {}
                assert forall|w: u32| self.trail@.contains(w) implies w != v && b1.contains_key(w) by {
                    let i = choose|i: int| 0 <= i < self.trail@.len() && self.trail@[i] == w;
                    assert(t1[i] == w);
                    assert(t1.contains(w));
                }
                assert forall|w: u32| #[trigger] self.bindings@.contains_key(w) <==> self.trail@.contains(w) by {
                    if self.bindings@.contains_key(w) {
                        assert(t1.contains(w));
                        let i = choose|i: int| 0 <= i < t1.len() && t1[i] == w;
                        if i < n {
                            assert(self.trail@[i] == w);
                        }
                    }
                }
                assert forall|k: int| 0 <= k <= self.trail@.len() implies frame_ok(#[trigger] self.frames@[k], self.bound(), self.trail@.take(k)) by {
                    assert(self.trail@.take(k) =~= t1.take(k));
                    assert(frame_ok(self.frames@[k], b1, t1.take(k)));
                    assert forall|w: u32| t1.take(k).contains(w) implies b1.contains_key(w) && self.bound().contains_key(w) && self.bound()[w] == b1[w] by {
                        let i = choose|i: int| 0 <= i < t1.take(k).len() && t1.take(k)[i] == w;
                        assert(self.trail@[i] == w);
                        assert(self.trail@.contains(w));
                    }
                    lemma_frame_agree(self.frames@[k], b1, self.bound(), t1.take(k));
                }
                assert forall|i: int, j: int|
                    0 <= i < self.trail@.len() && 0 <= j < self.trail@.len()
                        && #[trigger] self.bound()[self.trail@[i]] == TermV::Var(#[trigger] self.trail@[j]) implies i < j by {
                    assert(self.trail@[i] == t1[i]);
                    assert(self.trail@[j] == t1[j]);
                    assert(self.trail@.contains(t1[i]));
                    assert(b1[t1[i]] == TermV::Var(t1[j]));
                }
            }
        }
        proof {
            if mark <= t0.len() {
                assert(self.trail@.len() == mark);
            }
        }
    }
}


impl Env {
    /// The values bound, in trail order.
    pub(crate) closed spec fn values(&self) -> Seq<TermV> {
        Seq::new(self.trail@.len(), |k: int| self.bound()[self.trail@[k]])
    }

    /// Every variable of the environment: the bound ones and those in their values.
    pub(crate) closed spec fn all_vars(&self) -> Set<u32> {
        self.trail@.to_set().union(fv_all(self.values(), self.values().len()))
    }

    pub(crate) proof fn lemma_all_vars(&self)
        requires
            self.wf(),
        ensures
            self.all_vars().finite(),
            closed_in(self.bound(), self.all_vars()),
    {
        lemma_fv_all_finite(self.values(), self.values().len());
        lemma_fv_all(self.values(), self.values().len());
        assert forall|v: u32, u: u32| self.bound().contains_key(v) && #[trigger] fv(self.bound()[v]).contains(u) implies self.all_vars().contains(u) by {
            assert(self.bindings@.contains_key(v));
            assert(self.trail@.contains(v));
            let k = choose|k: int| 0 <= k < self.trail@.len() && self.trail@[k] == v;
            assert(fv(self.values()[k]).contains(u));
        }
        assert forall|v: u32| #[trigger] self.bound().contains_key(v) implies self.all_vars().contains(v) by {
            assert(self.bindings@.contains_key(v));
            assert(self.trail@.contains(v));
        }
    }

    /// The trail never outgrows a universe that holds every bound variable.
    pub(crate) proof fn lemma_trail_len(&self, uni: Set<u32>)
        requires
            self.wf(),
            uni.finite(),
            closed_in(self.bound(), uni),
        ensures
            self.trail_seq().len() <= uni.len(),
    {
        self.trail@.unique_seq_to_set();
        assert forall|v: u32| self.trail@.to_set().contains(v) implies uni.contains(v) by {
            assert(self.bindings@.contains_key(v));
            assert(self.bound().contains_key(v));
        }
        vstd::set_lib::lemma_len_subset(self.trail@.to_set(), uni);
    }

    /// The walked head of a term inside a closed universe stays inside it.
    pub(crate) proof fn lemma_walk_closed(&self, t: TermV, w: TermV, uni: Set<u32>)
        requires
            closed_in(self.bound(), uni),
            forall|v: u32| fv(t).contains(v) ==> uni.contains(v),
            w == t || exists|v: u32| #[trigger] self.bound().contains_key(v) && w == self.bound()[v],
        ensures
            forall|v: u32| fv(w).contains(v) ==> uni.contains(v),
    {
        if w != t {
            let v = choose|v: u32| #[trigger] self.bound().contains_key(v) && w == self.bound()[v];
        }
    }

    fn unify_rec(&mut self, a: &Term, b: &Term, Ghost(uni): Ghost<Set<u32>>) -> (ok: bool)
        requires
            old(self).wf(),
            uni.finite(),
            closed_in(old(self).bound(), uni),
            forall|v: u32| fv(a@).contains(v) ==> uni.contains(v),
            forall|v: u32| fv(b@).contains(v) ==> uni.contains(v),
        ensures
            final(self).wf(),
            closed_in(final(self).bound(), uni),
            old(self).trail_seq().len() <= final(self).trail_seq().len(),
            final(self).trail_seq().take(old(self).trail_seq().len() as int) == old(self).trail_seq(),
            final(self).frames().take(old(self).frames().len() as int) == old(self).frames(),
            forall|v: u32| #[trigger] old(self).bound().contains_key(v) ==> final(self).bound().contains_key(v)
                && final(self).bound()[v] == old(self).bound()[v],
            instance_of(final(self).sub(), old(self).sub()),
            ok ==> subst(final(self).sub(), a@) == subst(final(self).sub(), b@),
            ok ==> forall|th: Map<u32, TermV>| #[trigger] instance_of(th, old(self).sub()) && subst(th, a@) == subst(th, b@)
                ==> instance_of(th, final(self).sub()),
            !ok ==> forall|th: Map<u32, TermV>| #[trigger] instance_of(th, old(self).sub()) ==> subst(th, a@) != subst(th, b@),
        decreases uni.len() - old(self).trail_seq().len(), subst(old(self).sub(), a@),
    {
        proof {
            self.lemma_wf();
        }
        let ghost s = self.sub();
        let ghost t0 = self.trail@;
        let ghost f0 = self.frames@;
        let ghost b0 = self.bound();
        let wa = self.walk(a).clone();
        let wb = self.walk(b).clone();
        proof {
            self.lemma_walk_closed(a@, wa@, uni);
            self.lemma_walk_closed(b@, wb@, uni);
            assert(t0.take(t0.len() as int) =~= t0);
            assert(f0.take(f0.len() as int) =~= f0);
            assert forall|th: Map<u32, TermV>| #[trigger] instance_of(th, s) implies subst(th, a@) == subst(th, wa@) && subst(th, b@) == subst(th, wb@) by {
                lemma_instance_absorbs(th, s, a@);
                lemma_instance_absorbs(th, s, wa@);
                lemma_instance_absorbs(th, s, b@);
                lemma_instance_absorbs(th, s, wb@);
            }
            assert forall|th: Map<u32, TermV>| instance_of(th, s) implies instance_of(th, s) by {}
            assert(instance_of(s, s)) by {
                assert forall|v: u32| #[trigger] s.contains_key(v) implies subst(s, s[v]) == subst(s, TermV::Var(v)) by {
                    lemma_subst_idem(s, TermV::Var(v));
                }
            }
        }
        if let Term::Var(x) = &wa {
            let x = *x;
            if let Term::Var(y) = &wb {
                if x == *y {
                    return true;
                }
            }
            if self.occurs(x, &wb) {
                proof {
                    let tt = subst(s, wb@);
                    assert(tt != TermV::Var(x));
                    assert forall|th: Map<u32, TermV>| #[trigger] instance_of(th, s) implies subst(th, a@) != subst(th, b@) by {
                        lemma_occurs_size(th, x, tt);
                        lemma_instance_absorbs(th, s, wb@);
                    }
                }
                return false;
            }
            let ghost tt = subst(s, wb@);
            let ghost one = single(x, tt);
            self.bind(x, wb);
            proof {
                let s2 = self.sub();
                lemma_subst_compose(s, one, a@);
                lemma_subst_compose(s, one, b@);
                lemma_subst_resolved(s, wb@);
                assert forall|u: u32| fv(tt).contains(u) implies !one.contains_key(u) by {}
                lemma_subst_noop(one, tt);
                assert forall|th: Map<u32, TermV>| #[trigger] instance_of(th, s) && subst(th, a@) == subst(th, b@) implies instance_of(th, s2) by {
                    lemma_instance_absorbs(th, s, wb@);
                    lemma_bind_general(th, s, x, tt);
                }
                assert(self.trail@.take(t0.len() as int) =~= t0);
                assert(self.frames@.take(f0.len() as int) =~= f0);
            }
            return true;
        }
        if let Term::Var(y) = &wb {
            let y = *y;
            if self.occurs(y, &wa) {
                proof {
                    let tt = subst(s, wa@);
                    assert(tt != TermV::Var(y));
                    assert forall|th: Map<u32, TermV>| #[trigger] instance_of(th, s) implies subst(th, a@) != subst(th, b@) by {
                        lemma_occurs_size(th, y, tt);
                        lemma_instance_absorbs(th, s, wa@);
                    }
                }
                return false;
            }
            let ghost tt = subst(s, wa@);
            let ghost one = single(y, tt);
            self.bind(y, wa);
            proof {
                let s2 = self.sub();
                lemma_subst_compose(s, one, a@);
                lemma_subst_compose(s, one, b@);
                lemma_subst_resolved(s, wa@);
                assert forall|u: u32| fv(tt).contains(u) implies !one.contains_key(u) by {}
                lemma_subst_noop(one, tt);
                assert forall|th: Map<u32, TermV>| #[trigger] instance_of(th, s) && subst(th, a@) == subst(th, b@) implies instance_of(th, s2) by {
                    lemma_instance_absorbs(th, s, wa@);
                    lemma_bind_general(th, s, y, tt);
                }
                assert(self.trail@.take(t0.len() as int) =~= t0);
                assert(self.frames@.take(f0.len() as int) =~= f0);
            }
            return true;
        }
        match (&wa, &wb) {
            (Term::Sym(p), Term::Sym(q)) => {
                let eq = *p == *q;
                proof {
                    assert(eq == (p@ == q@));
                    assert(subst(s, wa@) == TermV::Sym(p@));
                    assert(subst(s, wb@) == TermV::Sym(q@));
                    assert forall|th: Map<u32, TermV>| #[trigger] instance_of(th, s) implies (subst(th, a@) == subst(th, b@) <==> eq) by {
                        lemma_instance_absorbs(th, s, a@);
                        lemma_instance_absorbs(th, s, wa@);
                        lemma_instance_absorbs(th, s, b@);
                        lemma_instance_absorbs(th, s, wb@);
                        assert(subst(th, wa@) == TermV::Sym(p@));
                        assert(subst(th, wb@) == TermV::Sym(q@));
                        if p@ != q@ {
                            assert(TermV::Sym(p@)->Sym_0 != TermV::Sym(q@)->Sym_0);
                        }
                    }
                }
                eq
            }
            (Term::App(xs), Term::App(ys)) => {
                if xs.len() != ys.len() {
                    proof {
                        lemma_view_app(*xs);
                        lemma_view_app(*ys);
                        assert forall|th: Map<u32, TermV>| #[trigger] instance_of(th, s) implies subst(th, a@) != subst(th, b@) by {
                            lemma_subst_app(th, views(xs@));
                            lemma_subst_app(th, views(ys@));
                            assert(subst(th, wa@)->App_0.len() == xs@.len());
                            assert(subst(th, wb@)->App_0.len() == ys@.len());
                        }
                    }
                    return false;
                }
                let ghost vx = views(xs@);
                let ghost vy = views(ys@);
                proof {
                    lemma_view_app(*xs);
                    lemma_view_app(*ys);
                    lemma_subst_app(s, vx);
                    lemma_fv_all(vx, vx.len());
                    lemma_fv_all(vy, vy.len());
                    assert(fv(wa@) == fv_all(vx, vx.len()));
                    assert(fv(wb@) == fv_all(vy, vy.len()));
                    assert forall|th: Map<u32, TermV>| #[trigger] instance_of(th, s) && subst(th, a@) == subst(th, b@) implies
                        forall|j: int| 0 <= j < vx.len() ==> subst(th, #[trigger] vx[j]) == subst(th, vy[j]) by {
                        lemma_subst_app(th, vx);
                        lemma_subst_app(th, vy);
                        assert forall|j: int| 0 <= j < vx.len() implies subst(th, #[trigger] vx[j]) == subst(th, vy[j]) by {
                            assert(subst(th, wa@)->App_0[j] == subst(th, vx[j]));
                            assert(subst(th, wb@)->App_0[j] == subst(th, vy[j]));
                        }
                    }
                }
                let mut i: usize = 0;
                while i < xs.len()
                    invariant
                        t0 == old(self).trail_seq(),
                        f0 == old(self).frames(),
                        b0 == old(self).bound(),
                        s == old(self).sub(),
                        xs@.len() == ys@.len(),
                        vx == views(xs@),
                        vy == views(ys@),
                        wa@ == TermV::App(vx),
                        wb@ == TermV::App(vy),
                        subst(s, a@) == subst(s, wa@),
                        subst(s, b@) == subst(s, wb@),
                        subst(s, wa@) == TermV::App(Seq::new(vx.len(), |j: int| subst(s, vx[j]))),
                        forall|v: u32| fv(wa@).contains(v) ==> uni.contains(v),
                        forall|v: u32| fv(wb@).contains(v) ==> uni.contains(v),
                        fv(wa@) == fv_all(vx, vx.len()),
                        fv(wb@) == fv_all(vy, vy.len()),
                        forall|v: u32| fv_all(vx, vx.len()).contains(v) <==> exists|j: int| 0 <= j < vx.len() && #[trigger] fv(vx[j]).contains(v),
                        forall|v: u32| fv_all(vy, vy.len()).contains(v) <==> exists|j: int| 0 <= j < vy.len() && #[trigger] fv(vy[j]).contains(v),
                        i <= xs@.len(),
                        uni.finite(),
                        self.wf(),
                        closed_in(self.bound(), uni),
                        t0.len() <= self.trail@.len(),
                        self.trail@.take(t0.len() as int) == t0,
                        self.frames@.take(f0.len() as int) == f0,
                        f0.len() == t0.len() + 1,
                        f0.last() == s,
                        forall|v: u32| #[trigger] b0.contains_key(v) ==> self.bound().contains_key(v) && self.bound()[v] == b0[v],
                        instance_of(self.sub(), s),
                        self.trail@.len() == t0.len() ==> self.sub() == s,
                        forall|j: int| 0 <= j < i ==> subst(self.sub(), #[trigger] vx[j]) == subst(self.sub(), vy[j]),
                        forall|th: Map<u32, TermV>| #[trigger] instance_of(th, s) && subst(th, a@) == subst(th, b@)
                            ==> instance_of(th, self.sub()),
                        forall|th: Map<u32, TermV>| #[trigger] instance_of(th, s) && subst(th, a@) == subst(th, b@) ==>
                            forall|j: int| 0 <= j < vx.len() ==> subst(th, #[trigger] vx[j]) == subst(th, vy[j]),
                    decreases xs@.len() - i,
                {
                    let ghost si = self.sub();
                    let ghost ti = self.trail@;
                    let ghost fi = self.frames@;
                    proof {
                        self.lemma_wf();
                        self.lemma_trail_len(uni);
                        assert(vx[i as int] == xs@[i as int]@);
                        assert(vy[i as int] == ys@[i as int]@);
                        assert forall|v: u32| fv(vx[i as int]).contains(v) implies uni.contains(v) by {
                            assert(fv_all(vx, vx.len()).contains(v));
                        }
                        assert forall|v: u32| fv(vy[i as int]).contains(v) implies uni.contains(v) by {
                            assert(fv_all(vy, vy.len()).contains(v));
                        }
                        if self.trail@.len() == t0.len() {
                            assert(subst(s, wa@)->App_0[i as int] == subst(s, vx[i as int]));
                            assert(decreases_to!(subst(s, a@) => subst(s, vx[i as int])));
                        }
                    }
                    let r = self.unify_rec(&xs[i], &ys[i], Ghost(uni));
                    if !r {
                        proof {
                            assert forall|th: Map<u32, TermV>| #[trigger] instance_of(th, s) implies subst(th, a@) != subst(th, b@) by {
                                if subst(th, a@) == subst(th, b@) {
                                    assert(instance_of(th, si));
                                    assert(subst(th, vx[i as int]) == subst(th, vy[i as int]));
                                }
                            }
                            lemma_instance_trans(self.sub(), si, s);
                            assert(self.trail@.take(t0.len() as int) =~= ti.take(t0.len() as int));
                            assert(self.frames@.take(f0.len() as int) =~= fi.take(f0.len() as int));
                        }
                        return false;
                    }
                    proof {
                        let s2 = self.sub();
                        lemma_instance_trans(s2, si, s);
                        assert forall|j: int| 0 <= j < i + 1 implies subst(s2, #[trigger] vx[j]) == subst(s2, vy[j]) by {
                            if j < i {
                                lemma_instance_absorbs(s2, si, vx[j]);
                                lemma_instance_absorbs(s2, si, vy[j]);
                            }
                        }
                        assert forall|th: Map<u32, TermV>| #[trigger] instance_of(th, s) && subst(th, a@) == subst(th, b@)
                            implies instance_of(th, s2) by {
                            assert(instance_of(th, si));
                            assert(subst(th, vx[i as int]) == subst(th, vy[i as int]));
                        }
                        assert(self.trail@.take(t0.len() as int) =~= ti.take(t0.len() as int));
                        assert(self.frames@.take(f0.len() as int) =~= fi.take(f0.len() as int));
                        if self.trail@.len() == t0.len() {
                            assert(ti.len() == t0.len());
                            assert(self.frames@.len() == fi.len());
                            assert(self.frames@ =~= fi);
                        }
                    }
                    i += 1;
                }
                proof {
                    let s2 = self.sub();
                    lemma_instance_absorbs(s2, s, a@);
                    lemma_instance_absorbs(s2, s, wa@);
                    lemma_instance_absorbs(s2, s, b@);
                    lemma_instance_absorbs(s2, s, wb@);
                    lemma_subst_app(s2, vx);
                    lemma_subst_app(s2, vy);
                    assert(Seq::new(vx.len(), |j: int| subst(s2, vx[j])) =~= Seq::new(vy.len(), |j: int| subst(s2, vy[j])));
                }
                true
            }
            _ => {
                proof {
                    assert forall|th: Map<u32, TermV>| #[trigger] instance_of(th, s) implies subst(th, a@) != subst(th, b@) by {
                        match wa@ {
                            TermV::App(p) => { lemma_subst_app(th, p); }
                            _ => {}
                        }
                        match wb@ {
                            TermV::App(p) => { lemma_subst_app(th, p); }
                            _ => {}
                        }
                    }
                }
                false
            }
        }
    }

    /// Unify `a` and `b`. On success the bindings are left in place and `true` returned: the
    /// new substitution is a most general unifier extending the old one. On failure nothing is
    /// changed and no extension of the substitution unifies the two terms.
    pub fn unify(&mut self, a: &Term, b: &Term) -> (ok: bool)
        requires
            old(self).wf(),
        ensures
            final(self).wf(),
            ok ==> subst(final(self).sub(), a@) == subst(final(self).sub(), b@),
            ok ==> instance_of(final(self).sub(), old(self).sub()),
            ok ==> old(self).trail_seq().len() <= final(self).trail_seq().len(),
            ok ==> final(self).trail_seq().take(old(self).trail_seq().len() as int) == old(self).trail_seq(),
            ok ==> final(self).frames().take(old(self).frames().len() as int) == old(self).frames(),
            ok ==> forall|v: u32| #[trigger] old(self).bound().contains_key(v) ==> final(self).bound().contains_key(v)
                && final(self).bound()[v] == old(self).bound()[v],
            ok ==> forall|th: Map<u32, TermV>| #[trigger] instance_of(th, old(self).sub()) && subst(th, a@) == subst(th, b@)
                ==> instance_of(th, final(self).sub()),
            !ok ==> final(self).trail_seq() == old(self).trail_seq() && final(self).frames() == old(self).frames()
                && final(self).bound() == old(self).bound(),
            !ok ==> forall|th: Map<u32, TermV>| #[trigger] instance_of(th, old(self).sub()) ==> subst(th, a@) != subst(th, b@),
    {
        let m = self.mark();
        let ghost uni = fv(a@).union(fv(b@)).union(self.all_vars());
        let ghost b0 = self.bound();
        let ghost t0 = self.trail@;
        let ghost f0 = self.frames@;
        proof {
            self.lemma_wf();
            self.lemma_all_vars();
            lemma_fv_finite(a@);
            lemma_fv_finite(b@);
        }
        if self.unify_rec(a, b, Ghost(uni)) {
            true
        } else {
            self.rollback(m);
            proof {
                self.lemma_wf();
                assert(self.trail@ =~= t0);
                assert(self.frames@ =~= f0);
                assert forall|v: u32| #[trigger] self.bound().contains_key(v) <==> b0.contains_key(v) by {
                    assert(self.bindings@.contains_key(v) <==> self.trail@.contains(v));
                }
                assert(self.bound() =~= b0);
            }
            false
        }
    }
}

} // verus!
