//! Anti-unification: the least general generalization (Plotkin 1970, Reynolds 1970), the
//! lattice JOIN dual to unification's meet, and the operation that forms generalization
//! templates.
//!
//! `anti_unify(s, t)` generalizes `s` and `t`: where the two terms agree it keeps the
//! structure; where they disagree it puts a variable, and the SAME disagreement pair gets the
//! SAME variable, so `(f a a)` and `(f b b)` generalize to `(f $0 $0)`, not `(f $0 $1)`. The
//! result is the most specific term that both inputs are instances of.
//!
//! Lattice picture: order terms by "is an instance of". Unification is the meet (the most
//! general common instance); anti-unification is the join. A variable is the top element.

use vstd::prelude::*;
use crate::term::{Term, TermV, views, lemma_view_app, ground, ground_all, lemma_ground_all, fv, fv_all, lemma_fv_all};
use crate::subst::{subst, tsize, tsize_all, lemma_subst_app, lemma_subst_agree};

verus! {

/// `g` is a generalization of `t`: some substitution instantiates it to `t`.
pub open spec fn generalizes(g: TermV, t: TermV) -> bool {
    exists|th: Map<u32, TermV>| subst(th, g) == t
}

/// The substitution that sends variable `i` to one side of the `i`th recorded disagreement.
pub open spec fn side_sub(subs: Seq<(Term, Term)>, left: bool) -> Map<u32, TermV> {
    Map::new(|v: u32| v < subs.len(), |v: u32| if left { subs[v as int].0@ } else { subs[v as int].1@ })
}

/// The disagreement pairs a table records, as models.
pub open spec fn table_keys(subs: Seq<(Term, Term)>) -> Seq<(TermV, TermV)> {
    subs.map_values(|p: (Term, Term)| (p.0@, p.1@))
}

/// The variable the table gives the disagreement of `s` and `t`.
pub open spec fn dvar(keys: Seq<(TermV, TermV)>, s: TermV, t: TermV) -> TermV {
    TermV::Var(keys.index_of((s, t)) as u32)
}

/// The generalization of `s` and `t` under the disagreement table `keys`: equal symbols are
/// kept, expressions of one arity are generalized child by child, and any other pair is the
/// variable the table gives it.
pub open spec fn phi(keys: Seq<(TermV, TermV)>, s: TermV, t: TermV) -> TermV
    decreases s,
{
    match s {
        TermV::Sym(x) => match t {
            TermV::Sym(y) => if x == y { TermV::Sym(x) } else { dvar(keys, s, t) },
            _ => dvar(keys, s, t),
        },
        TermV::App(xs) => match t {
            TermV::App(ys) => if xs.len() == ys.len() {
                TermV::App(Seq::new(xs.len(), |j: int| if 0 <= j < xs.len() { phi(keys, xs[j], ys[j]) } else { TermV::Var(0) }))
            } else {
                dvar(keys, s, t)
            },
            _ => dvar(keys, s, t),
        },
        TermV::Var(_) => dvar(keys, s, t),
    }
}

/// Every disagreement of `s` and `t` is in the table.
pub open spec fn dis_in(keys: Seq<(TermV, TermV)>, s: TermV, t: TermV) -> bool
    decreases s, 1nat,
{
    match s {
        TermV::Sym(x) => match t {
            TermV::Sym(y) => x == y || keys.contains((s, t)),
            _ => keys.contains((s, t)),
        },
        TermV::App(xs) => match t {
            TermV::App(ys) => if xs.len() == ys.len() {
                dis_in_all(keys, xs, ys, xs.len())
            } else {
                keys.contains((s, t))
            },
            _ => keys.contains((s, t)),
        },
        TermV::Var(_) => keys.contains((s, t)),
    }
}

pub open spec fn dis_in_all(keys: Seq<(TermV, TermV)>, xs: Seq<TermV>, ys: Seq<TermV>, k: nat) -> bool
    decreases xs, k,
{
    if k == 0 || k > xs.len() {
        true
    } else {
        dis_in_all(keys, xs, ys, (k - 1) as nat) && dis_in(keys, xs[k - 1], ys[k - 1])
    }
}

proof fn lemma_dis_in_all(keys: Seq<(TermV, TermV)>, xs: Seq<TermV>, ys: Seq<TermV>, k: nat)
    requires
        k <= xs.len(),
    ensures
        dis_in_all(keys, xs, ys, k) <==> forall|i: int| 0 <= i < k ==> #[trigger] dis_in(keys, xs[i], ys[i]),
    decreases k,
{
    if k > 0 {
        let k1 = (k - 1) as nat;
        lemma_dis_in_all(keys, xs, ys, k1);
        assert(dis_in_all(keys, xs, ys, k) == (dis_in_all(keys, xs, ys, k1) && dis_in(keys, xs[k1 as int], ys[k1 as int])));
        if forall|i: int| 0 <= i < k ==> #[trigger] dis_in(keys, xs[i], ys[i]) {
            assert(dis_in(keys, xs[k1 as int], ys[k1 as int]));
            assert forall|i: int| 0 <= i < k1 implies #[trigger] dis_in(keys, xs[i], ys[i]) by {
                assert(dis_in(keys, xs[i], ys[i]));
            }
        }
    }
}

/// A table that extends another without repeating a key gives every disagreement already in
/// the shorter one the same variable.
proof fn lemma_phi_extend(k1: Seq<(TermV, TermV)>, k2: Seq<(TermV, TermV)>, s: TermV, t: TermV)
    requires
        k1.len() <= k2.len(),
        k2.take(k1.len() as int) == k1,
        k2.no_duplicates(),
        dis_in(k1, s, t),
    ensures
        phi(k2, s, t) == phi(k1, s, t),
        dis_in(k2, s, t),
    decreases s,
{
    let key = (s, t);
    if k1.contains(key) {
        let i = choose|i: int| 0 <= i < k1.len() && k1[i] == key;
        assert(k2[i] == k1[i]);
        assert(k2.contains(key));
        assert(k1.no_duplicates()) by {
            assert forall|x: int, y: int| 0 <= x < k1.len() && 0 <= y < k1.len() && x != y implies k1[x] != k1[y] by {
                assert(k2[x] == k1[x] && k2[y] == k1[y]);
            }
        }
        let j1 = k1.index_of(key);
        let j2 = k2.index_of(key);
        assert(0 <= j1 < k1.len() && k1[j1] == key);
        assert(0 <= j2 < k2.len() && k2[j2] == key);
        assert(k2[j1] == key);
        assert(j1 == j2);
    }
    match s {
        TermV::App(xs) => match t {
            TermV::App(ys) => {
                if xs.len() == ys.len() {
                    lemma_dis_in_all(k1, xs, ys, xs.len());
                    lemma_dis_in_all(k2, xs, ys, xs.len());
                    assert forall|j: int| #![trigger phi(k2, xs[j], ys[j])] #![trigger dis_in(k2, xs[j], ys[j])] 0 <= j < xs.len() implies
                        phi(k2, xs[j], ys[j]) == phi(k1, xs[j], ys[j]) && dis_in(k2, xs[j], ys[j]) by {
                        assert(dis_in(k1, xs[j], ys[j]));
                        lemma_phi_extend(k1, k2, xs[j], ys[j]);
                    }
                    lemma_phi_app(k1, xs, ys);
                    lemma_phi_app(k2, xs, ys);
                    assert(phi(k2, s, t)->App_0 =~= phi(k1, s, t)->App_0);
                }
            }
            _ => {}
        },
        _ => {}
    }
}

proof fn lemma_phi_app(keys: Seq<(TermV, TermV)>, xs: Seq<TermV>, ys: Seq<TermV>)
    requires
        xs.len() == ys.len(),
    ensures
        phi(keys, TermV::App(xs), TermV::App(ys)) is App,
        phi(keys, TermV::App(xs), TermV::App(ys))->App_0.len() == xs.len(),
        forall|j: int| 0 <= j < xs.len() ==> #[trigger] phi(keys, TermV::App(xs), TermV::App(ys))->App_0[j] == phi(keys, xs[j], ys[j]),
{
}

/// The substitution sending each variable to the generalization of its images under `s1` and `s2`.
pub open spec fn phi_sub(keys: Seq<(TermV, TermV)>, s1: Map<u32, TermV>, s2: Map<u32, TermV>) -> Map<u32, TermV> {
    Map::new(|x: u32| true, |x: u32| phi(keys, subst(s1, TermV::Var(x)), subst(s2, TermV::Var(x))))
}

/// The generalization of two instances of `h` is itself an instance of `h`: the substitution
/// sends each variable of `h` to the generalization of its two images.
proof fn lemma_phi_subst(keys: Seq<(TermV, TermV)>, h: TermV, s1: Map<u32, TermV>, s2: Map<u32, TermV>)
    ensures
        phi(keys, subst(s1, h), subst(s2, h)) == subst(phi_sub(keys, s1, s2), h),
    decreases h,
{
    let tau = phi_sub(keys, s1, s2);
    match h {
        TermV::Sym(c) => {
            assert(subst(s1, h) == h && subst(s2, h) == h && subst(tau, h) == h);
            assert(phi(keys, h, h) == h);
        }
        TermV::Var(x) => {}
        TermV::App(hs) => {
            lemma_subst_app(s1, hs);
            lemma_subst_app(s2, hs);
            lemma_subst_app(tau, hs);
            let a1 = Seq::new(hs.len(), |j: int| subst(s1, hs[j]));
            let a2 = Seq::new(hs.len(), |j: int| subst(s2, hs[j]));
            assert forall|j: int| 0 <= j < hs.len() implies phi(keys, a1[j], a2[j]) == subst(tau, hs[j]) by {
                lemma_phi_subst(keys, hs[j], s1, s2);
            }
            lemma_phi_app(keys, a1, a2);
            assert(phi(keys, TermV::App(a1), TermV::App(a2))->App_0 =~= Seq::new(hs.len(), |j: int| subst(tau, hs[j])));
        }
    }
}

/// The least general generalization of `a` and `b`: the structure the two share, with one
/// variable per distinct disagreement pair. Both inputs are instances of the result, every
/// common generalization of `a` and `b` generalizes the result, and a ground term generalizes
/// with itself to itself.
pub fn anti_unify(a: &Term, b: &Term) -> (g: Term)
    requires
        tsize(a@) <= u32::MAX,
    ensures
        exists|keys: Seq<(TermV, TermV)>| keys.no_duplicates() && dis_in(keys, a@, b@)
            && g@ == #[trigger] phi(keys, a@, b@),
        generalizes(g@, a@),
        generalizes(g@, b@),
        forall|h: TermV, s1: Map<u32, TermV>, s2: Map<u32, TermV>|
            #![trigger subst(s1, h), subst(s2, h)]
            subst(s1, h) == a@ && subst(s2, h) == b@ ==> generalizes(h, g@),
        ground(a@) && a@ == b@ ==> g@ == a@,
{
    let mut subs: Vec<(Term, Term)> = Vec::new();
    proof {
        assert(table_keys(subs@) =~= Seq::<(TermV, TermV)>::empty());
    }
    let g = lgg(a, b, &mut subs);
    proof {
        let kf = table_keys(subs@);
        assert(kf.no_duplicates() && dis_in(kf, a@, b@) && g@ == phi(kf, a@, b@));
        assert forall|h: TermV, s1: Map<u32, TermV>, s2: Map<u32, TermV>|
            #![trigger subst(s1, h), subst(s2, h)]
            subst(s1, h) == a@ && subst(s2, h) == b@ implies generalizes(h, g@) by {
            lemma_phi_subst(kf, h, s1, s2);
            assert(subst(phi_sub(kf, s1, s2), h) == g@);
        }
        assert(subst(side_sub(subs@, true), g@) == a@);
        assert(subst(side_sub(subs@, false), g@) == b@);
    }
    g
}

fn lgg(a: &Term, b: &Term, subs: &mut Vec<(Term, Term)>) -> (g: Term)
    requires
        old(subs)@.len() + tsize(a@) <= u32::MAX,
        table_keys(old(subs)@).no_duplicates(),
    ensures
        table_keys(final(subs)@).no_duplicates(),
        dis_in(table_keys(final(subs)@), a@, b@),
        g@ == phi(table_keys(final(subs)@), a@, b@),
        old(subs)@.len() <= final(subs)@.len() <= old(subs)@.len() + tsize(a@),
        final(subs)@.take(old(subs)@.len() as int) == old(subs)@,
        forall|v: u32| fv(g@).contains(v) ==> v < final(subs)@.len(),
        subst(side_sub(final(subs)@, true), g@) == a@,
        subst(side_sub(final(subs)@, false), g@) == b@,
        ground(a@) && a@ == b@ ==> g@ == a@ && final(subs)@ == old(subs)@,
    decreases a,
{
    let ghost s0 = subs@;
    let mut agree_sym = false;
    if let Term::Sym(x) = a {
        if let Term::Sym(y) = b {
            agree_sym = *x == *y;
        }
    }
    if agree_sym {
        proof {
            assert(subs@.take(s0.len() as int) =~= s0);
            assert(a@ == b@);
        }
        return a.clone();
    }
    match a {
        Term::App(xs) => match b {
            Term::App(ys) => {
            if xs.len() == ys.len() {
                proof {
                    lemma_view_app(*xs);
                    lemma_view_app(*ys);
                }
                let ghost vx = views(xs@);
                let ghost vy = views(ys@);
                proof {
                    lemma_ground_all(vx, vx.len());
                    lemma_ground_all(vy, vy.len());
                }
                let mut out: Vec<Term> = Vec::new();
                let mut i: usize = 0;
                #[verifier::loop_isolation(false)]
                while i < xs.len()
                    invariant
                        xs@.len() == ys@.len(),
                        vx == views(xs@),
                        vy == views(ys@),
                        a@ == TermV::App(vx),
                        b@ == TermV::App(vy),
                        tsize(a@) == 1 + tsize_all(vx, vx.len()),
                        s0.len() + tsize(a@) <= u32::MAX,
                        i <= xs@.len(),
                        out@.len() == i,
                        table_keys(subs@).no_duplicates(),
                        forall|j: int| 0 <= j < i ==> #[trigger] dis_in(table_keys(subs@), vx[j], vy[j])
                            && out@[j]@ == phi(table_keys(subs@), vx[j], vy[j]),
                        s0.len() <= subs@.len() <= s0.len() + tsize_all(vx, i as nat),
                        subs@.take(s0.len() as int) == s0,
                        forall|j: int, v: u32| 0 <= j < i && #[trigger] fv(out@[j]@).contains(v) ==> v < subs@.len(),
                        forall|j: int| 0 <= j < i ==>
                            subst(side_sub(subs@, true), #[trigger] out@[j]@) == vx[j]
                                && subst(side_sub(subs@, false), out@[j]@) == vy[j],
                        ground(a@) && ground(b@) ==> forall|j: int| 0 <= j < vx.len() ==> ground(#[trigger] vx[j]) && ground(vy[j]),
                        ground(a@) && a@ == b@ ==> subs@ == s0 && forall|j: int| 0 <= j < i ==> #[trigger] out@[j]@ == vx[j],
                    decreases xs@.len() - i,
                {
                    let ghost si = subs@;
                    proof {
                        assert(vx[i as int] == xs@[i as int]@);
                        assert(vy[i as int] == ys@[i as int]@);
                        crate::subst::lemma_tsize_child(vx, i as int);
                        lemma_tsize_all_grows(vx, i as nat);
                        assert(decreases_to!(xs@ => xs@[i as int]));
                    }
                    let gi = lgg(&xs[i], &ys[i], subs);
                    proof {
                        lemma_keys_take(si, subs@);
                        assert forall|j: int| 0 <= j < i implies #[trigger] dis_in(table_keys(subs@), vx[j], vy[j])
                            && out@[j]@ == phi(table_keys(subs@), vx[j], vy[j]) by {
                            lemma_phi_extend(table_keys(si), table_keys(subs@), vx[j], vy[j]);
                        }
                        assert forall|j: int, v: u32| 0 <= j < i + 1 && #[trigger] fv(out@.push(gi)[j]@).contains(v) implies v < subs@.len() by {
                            if j < i {
                                assert(out@.push(gi)[j] == out@[j]);
                            }
                        }
                        assert forall|j: int| 0 <= j < i implies
                            subst(side_sub(subs@, true), #[trigger] out@[j]@) == vx[j] && subst(side_sub(subs@, false), out@[j]@) == vy[j] by {
                            lemma_side_sub_grow(si, subs@, out@[j]@);
                        }
                        if ground(a@) && a@ == b@ {
                            assert(vx[i as int] == vy[i as int]);
                        }
                    }
                    let ghost out0 = out@;
                    out.push(gi);
                    proof {
                        assert(subs@.take(s0.len() as int) =~= si.take(s0.len() as int));
                        assert forall|j: int| 0 <= j < i + 1 implies #[trigger] dis_in(table_keys(subs@), vx[j], vy[j])
                            && out@[j]@ == phi(table_keys(subs@), vx[j], vy[j]) by {
                            if j < i {
                                assert(out@[j] == out0[j]);
                                assert(dis_in(table_keys(subs@), vx[j], vy[j]));
                            }
                        }
                        assert forall|j: int| 0 <= j < i + 1 implies
                            subst(side_sub(subs@, true), #[trigger] out@[j]@) == vx[j] && subst(side_sub(subs@, false), out@[j]@) == vy[j] by {
                            if j < i {
                                assert(out@[j] == out0[j]);
                            }
                        }
                    }
                    i += 1;
                }
                proof {
                    lemma_view_app(out);
                    let vo = views(out@);
                    let kf = table_keys(subs@);
                    lemma_dis_in_all(kf, vx, vy, vx.len());
                    assert forall|j: int| 0 <= j < vx.len() implies #[trigger] dis_in(kf, vx[j], vy[j]) by {
                        assert(dis_in(kf, vx[j], vy[j]));
                    }
                    lemma_phi_app(kf, vx, vy);
                    assert forall|j: int| 0 <= j < vx.len() implies vo[j] == #[trigger] phi(kf, a@, b@)->App_0[j] by {
                        assert(dis_in(kf, vx[j], vy[j]));
                        assert(vo[j] == out@[j]@);
                    }
                    assert(vo =~= phi(kf, a@, b@)->App_0);
                    lemma_fv_all(vo, vo.len());
                    assert forall|v: u32| fv(TermV::App(vo)).contains(v) implies v < subs@.len() by {
                        assert(fv_all(vo, vo.len()).contains(v));
                        let j = choose|j: int| 0 <= j < vo.len() && #[trigger] fv(vo[j]).contains(v);
                        assert(vo[j] == out@[j]@);
                    }
                    lemma_subst_app(side_sub(subs@, true), vo);
                    lemma_subst_app(side_sub(subs@, false), vo);
                    assert forall|j: int| 0 <= j < vo.len() implies subst(side_sub(subs@, true), #[trigger] vo[j]) == vx[j]
                        && subst(side_sub(subs@, false), vo[j]) == vy[j] by {
                        assert(vo[j] == out@[j]@);
                    }
                    assert(Seq::new(vo.len(), |j: int| subst(side_sub(subs@, true), vo[j])) =~= vx);
                    assert(Seq::new(vo.len(), |j: int| subst(side_sub(subs@, false), vo[j])) =~= vy);
                    if ground(a@) && a@ == b@ {
                        assert(vo =~= vx);
                    }
                }
                return Term::App(out);
            }
            }
            _ => {}
        },
        _ => {}
    }
    // A disagreement (different symbols, different arity, or a variable on a side): a
    // fresh variable, but the same one for the same disagreement pair.
    proof {
        if ground(a@) && a@ == b@ {
            match a@ {
                TermV::App(p) => {}
                _ => {}
            }
        }
    }
    let mut i: usize = 0;
    #[verifier::loop_isolation(false)]
    while i < subs.len()
        invariant
            i <= subs@.len(),
            subs@ == s0,
            forall|j: int| 0 <= j < i ==> !(subs@[j].0@ == a@ && subs@[j].1@ == b@),
        decreases subs.len() - i,
    {
        if subs[i].0.eq_term(a) && subs[i].1.eq_term(b) {
            proof {
                assert(subs@.take(s0.len() as int) =~= s0);
                lemma_tsize_pos(a@);
                let kf = table_keys(subs@);
                assert(kf[i as int] == (a@, b@));
                lemma_index_of_unique(kf, i as int);
            }
            return Term::Var(i as u32);
        }
        i += 1;
    }
    let v = subs.len() as u32;
    proof {
        lemma_tsize_pos(a@);
    }
    subs.push((a.clone(), b.clone()));
    proof {
        assert(subs@.take(s0.len() as int) =~= s0);
        let kf = table_keys(subs@);
        assert(kf =~= table_keys(s0).push((a@, b@)));
        assert(kf.no_duplicates()) by {
            assert forall|x: int, y: int| 0 <= x < kf.len() && 0 <= y < kf.len() && x != y implies kf[x] != kf[y] by {
                if x < s0.len() && y < s0.len() {
                    assert(table_keys(s0)[x] != table_keys(s0)[y]);
                } else if x < s0.len() {
                    assert(!(s0[x].0@ == a@ && s0[x].1@ == b@));
                } else if y < s0.len() {
                    assert(!(s0[y].0@ == a@ && s0[y].1@ == b@));
                }
            }
        }
        lemma_index_of_unique(kf, s0.len() as int);
    }
    Term::Var(v)
}

/// In a sequence without repeats the element at `i` is found at `i`.
proof fn lemma_index_of_unique(keys: Seq<(TermV, TermV)>, i: int)
    requires
        keys.no_duplicates(),
        0 <= i < keys.len(),
    ensures
        keys.contains(keys[i]),
        keys.index_of(keys[i]) == i,
{
    assert(keys.contains(keys[i]));
    let j = keys.index_of(keys[i]);
    assert(0 <= j < keys.len() && keys[j] == keys[i]);
}

/// The keys of a table's prefix are the prefix of its keys.
proof fn lemma_keys_take(s1: Seq<(Term, Term)>, s2: Seq<(Term, Term)>)
    requires
        s1.len() <= s2.len(),
        s2.take(s1.len() as int) == s1,
    ensures
        table_keys(s2).take(s1.len() as int) == table_keys(s1),
        table_keys(s1).len() <= table_keys(s2).len(),
{
    assert forall|j: int| 0 <= j < s1.len() implies table_keys(s2)[j] == table_keys(s1)[j] by {
        assert(s2[j] == s2.take(s1.len() as int)[j]);
    }
    assert(table_keys(s2).take(s1.len() as int) =~= table_keys(s1));
}

proof fn lemma_tsize_pos(t: TermV)
    ensures
        tsize(t) >= 1,
{
}

proof fn lemma_tsize_all_grows(a: Seq<TermV>, i: nat)
    requires
        i < a.len(),
    ensures
        tsize_all(a, i + 1) == tsize_all(a, i) + tsize(a[i as int]),
        tsize_all(a, i + 1) <= tsize_all(a, a.len()),
    decreases a.len() - i,
{
    if i + 1 < a.len() {
        lemma_tsize_all_grows(a, i + 1);
    }
}

/// Growing the table keeps the meaning of a generalization built from its prefix.
proof fn lemma_side_sub_grow(s1: Seq<(Term, Term)>, s2: Seq<(Term, Term)>, g: TermV)
    requires
        s1.len() <= s2.len(),
        s2.take(s1.len() as int) == s1,
        forall|v: u32| fv(g).contains(v) ==> v < s1.len(),
    ensures
        subst(side_sub(s2, true), g) == subst(side_sub(s1, true), g),
        subst(side_sub(s2, false), g) == subst(side_sub(s1, false), g),
{
    assert forall|v: u32| fv(g).contains(v) implies subst(side_sub(s2, true), TermV::Var(v)) == subst(side_sub(s1, true), TermV::Var(v))
        && subst(side_sub(s2, false), TermV::Var(v)) == subst(side_sub(s1, false), TermV::Var(v)) by {
        assert(s2[v as int] == s2.take(s1.len() as int)[v as int]);
    }
    lemma_subst_agree(side_sub(s2, true), side_sub(s1, true), g);
    lemma_subst_agree(side_sub(s2, false), side_sub(s1, false), g);
}

} // verus!
