//! The unification join and the nested-loop matcher agree: over the same patterns and facts
//! they produce the same set of answer keys.
//!
//! The argument goes through solution sets. For a list of equations, the answer tuples of
//! its unifiers form a set whose most general element is the answer tuple of a most general
//! unifier, and whose encoding therefore names the set. Renaming the facts apart differently,
//! splitting the conjunction into one relation per pattern, and choosing another tuple of the
//! same key to represent a match all leave the solution set unchanged.

use vstd::prelude::*;
use crate::term::{
    TermV, fv, fv_all, lemma_fv_all, encodable, encoding, map_vars, lemma_map_vars_app, canon, lab,
    vars_of, collect, lemma_collect, lemma_index_of, lemma_dec_enc, dec_at, shape_ok, shift,
    decoded, injective_on, lemma_decode_encoding, lemma_enc_map,
};
use crate::subst::{
    subst, idem, instance_of, compose, vimg, lemma_subst_app, lemma_fv_subst, lemma_subst_agree,
    lemma_subst_compose, lemma_instance_absorbs, lemma_subst_noop, lemma_mutual_instances,
};
use crate::oracle::{unifies, is_mgu, tuple_of, key_of, var_tuple, lemma_tuple_of};
use crate::unijoin::{binds_rows, mgu_rows};
use crate::mgu::{eq_vars, lemma_mgu_exists};
use crate::oracle::{
    DATA_VAR_BASE, DATA_VAR_STRIDE, ready, id_room, level_base, fact_offset, choice_pairs, is_choice, matched,
    answer_of, answers, mgu, lemma_level_base_bound, lemma_room,
};
use crate::unijoin::{
    mat_offset, mat_ready, pair_of, pair_matches, unmatched, materialized, rel_orders, row_vals, join_row,
    join_answers, tuple_from, tuple_ok, tkey, tuples_complete, rel_complete, proj,
};

verus! {

/// Applying `r` to a renamed term is applying, to the term, the substitution that sends each
/// variable to the image of its new name.
pub proof fn lemma_subst_map_vars(r: Map<u32, TermV>, t: TermV, f: spec_fn(u32) -> u32)
    ensures
        subst(r, map_vars(t, f)) == subst(Map::new(|v: u32| true, |v: u32| subst(r, TermV::Var(f(v)))), t),
    decreases t,
{
    let m = Map::new(|v: u32| true, |v: u32| subst(r, TermV::Var(f(v))));
    match t {
        TermV::Sym(_) => {}
        TermV::Var(v) => {}
        TermV::App(a) => {
            lemma_map_vars_app(a, f);
            let b = Seq::new(a.len(), |j: int| map_vars(a[j], f));
            lemma_subst_app(r, b);
            lemma_subst_app(m, a);
            assert forall|j: int| 0 <= j < a.len() implies subst(r, b[j]) == subst(m, a[j]) by {
                lemma_subst_map_vars(r, a[j], f);
            }
            assert(Seq::new(b.len(), |j: int| subst(r, b[j])) =~= Seq::new(a.len(), |j: int| subst(m, a[j])));
        }
    }
}

/// A term and its canonical form are renamings of each other.
proof fn lemma_canon_renaming(t: TermV) -> (res: (Map<u32, TermV>, Map<u32, TermV>))
    requires
        encodable(t),
    ensures
        subst(res.0, t) == canon(t),
        subst(res.1, canon(t)) == t,
{
    let l = vars_of(t);
    let empty = Seq::<u32>::empty();
    lemma_collect(t, empty);
    assert(empty.no_duplicates());
    let f = lab(l);
    let s = Map::new(|v: u32| true, |v: u32| TermV::Var(f(v)));
    assert forall|v: u32| #[trigger] fv(t).contains(v) implies subst(s, TermV::Var(v)) == TermV::Var(f(v)) by {}
    crate::subst::lemma_subst_is_map_vars(s, t, f);
    let r = Map::new(|i: u32| i < l.len(), |i: u32| TermV::Var(l[i as int]));
    lemma_subst_map_vars(r, t, f);
    let m = Map::new(|v: u32| true, |v: u32| subst(r, TermV::Var(f(v))));
    let id = Map::<u32, TermV>::empty();
    assert forall|w: u32| fv(t).contains(w) implies subst(m, TermV::Var(w)) == subst(id, TermV::Var(w)) by {
        assert(l.contains(w));
        let i = choose|i: int| 0 <= i < l.len() && l[i] == w;
        lemma_index_of(l, i);
        assert(f(w) == i as u32);
    }
    lemma_subst_agree(m, id, t);
    lemma_subst_noop(id, t);
    (s, r)
}

/// Decoding the encoding of an encodable term gives its canonical form.
proof fn lemma_encoding_canon(t: TermV)
    requires
        encodable(t),
    ensures
        dec_at(encoding(t), 0, 0) matches Some((d, _, _)) && d == canon(t),
{
    let e = encoding(t);
    let l = vars_of(t);
    let empty = Seq::<u32>::empty();
    assert(empty.no_duplicates());
    lemma_collect(t, empty);
    assert(l.subrange(0, l.len() as int) =~= l);
    assert(e.subrange(0, e.len() as int) =~= e);
    lemma_dec_enc(t, empty, l, e, 0);
}

/// Two encodable terms with the same encoding are renamings of each other.
pub proof fn lemma_same_encoding(a: TermV, b: TermV) -> (res: (Map<u32, TermV>, Map<u32, TermV>))
    requires
        encodable(a),
        encodable(b),
        encoding(a) == encoding(b),
    ensures
        subst(res.0, a) == b,
        subst(res.1, b) == a,
{
    lemma_encoding_canon(a);
    lemma_encoding_canon(b);
    assert(canon(a) == canon(b));
    let (sa, ra) = lemma_canon_renaming(a);
    let (sb, rb) = lemma_canon_renaming(b);
    lemma_subst_compose(sa, rb, a);
    lemma_subst_compose(sb, ra, b);
    (compose(sa, rb), compose(sb, ra))
}

// --- solution sets ---

/// The answer tuples of the unifiers of a list of equations.
pub open spec fn sols_eqs(ps: Seq<(TermV, TermV)>, qv: Seq<u32>) -> Set<TermV> {
    Set::new(|g: TermV| exists|s: Map<u32, TermV>| unifies(s, ps) && g == #[trigger] tuple_of(s, qv))
}

/// The answer tuples of the substitutions that make the bindings of the rows.
pub open spec fn sols_rows(rvs: Seq<Seq<u32>>, vals: Seq<Seq<TermV>>, qv: Seq<u32>) -> Set<TermV> {
    Set::new(|g: TermV| exists|s: Map<u32, TermV>| binds_rows(s, rvs, vals) && g == #[trigger] tuple_of(s, qv))
}

/// Every answer tuple of an instance of `th` is an instance of the answer tuple of `th`.
proof fn lemma_tuple_instance(s: Map<u32, TermV>, th: Map<u32, TermV>, qv: Seq<u32>)
    requires
        instance_of(s, th),
    ensures
        subst(s, tuple_of(th, qv)) == tuple_of(s, qv),
{
    lemma_tuple_of(th, qv);
    lemma_tuple_of(s, qv);
    lemma_instance_absorbs(s, th, var_tuple(qv));
}

/// Two most general unifiers with the same solution set give the same answer key.
pub proof fn lemma_key_from_sols(t1: Map<u32, TermV>, ps: Seq<(TermV, TermV)>, t2: Map<u32, TermV>,
    rvs: Seq<Seq<u32>>, vals: Seq<Seq<TermV>>, qv: Seq<u32>)
    requires
        is_mgu(t1, ps),
        mgu_rows(t2, rvs, vals),
        sols_eqs(ps, qv) == sols_rows(rvs, vals, qv),
    ensures
        key_of(t1, qv) == key_of(t2, qv),
        encodable(tuple_of(t1, qv)) == encodable(tuple_of(t2, qv)),
{
    let g1 = tuple_of(t1, qv);
    let g2 = tuple_of(t2, qv);
    assert(sols_eqs(ps, qv).contains(g1));
    assert(sols_rows(rvs, vals, qv).contains(g2));
    let s1 = choose|s: Map<u32, TermV>| binds_rows(s, rvs, vals) && g1 == #[trigger] tuple_of(s, qv);
    let s2 = choose|s: Map<u32, TermV>| unifies(s, ps) && g2 == #[trigger] tuple_of(s, qv);
    assert(instance_of(s1, t2));
    assert(instance_of(s2, t1));
    lemma_tuple_instance(s1, t2, qv);
    lemma_tuple_instance(s2, t1, qv);
    lemma_mutual_instances(g2, g1, s1, s2);
}

// --- rows as equations ---

/// The equations a row of bindings stands for: each variable equals its value.
pub open spec fn row_eqs(rv: Seq<u32>, vs: Seq<TermV>) -> Seq<(TermV, TermV)> {
    Seq::new(vs.len(), |d: int| (TermV::Var(rv[d]), vs[d]))
}

/// The equations all the rows stand for.
pub open spec fn rows_eqs(rvs: Seq<Seq<u32>>, vals: Seq<Seq<TermV>>) -> Seq<(TermV, TermV)>
    decreases vals.len(),
{
    if vals.len() == 0 {
        seq![]
    } else {
        rows_eqs(rvs, vals.drop_last()) + row_eqs(rvs[vals.len() - 1], vals.last())
    }
}

/// Making the bindings of the rows is unifying their equations.
proof fn lemma_rows_eqs(s: Map<u32, TermV>, rvs: Seq<Seq<u32>>, vals: Seq<Seq<TermV>>)
    ensures
        binds_rows(s, rvs, vals) <==> unifies(s, rows_eqs(rvs, vals)),
    decreases vals.len(),
{
    if vals.len() > 0 {
        let init = vals.drop_last();
        let n = vals.len() - 1;
        let a = rows_eqs(rvs, init);
        let b = row_eqs(rvs[n], vals.last());
        lemma_rows_eqs(s, rvs, init);
        crate::mgu::lemma_unifies_append(s, a, b);
        if binds_rows(s, rvs, vals) {
            assert forall|i: int, d: int| #![trigger init[i][d]] 0 <= i < init.len() && 0 <= d < init[i].len()
                implies subst(s, TermV::Var(rvs[i][d])) == subst(s, init[i][d]) by {
                assert(init[i] == vals[i]);
                assert(subst(s, TermV::Var(rvs[i][d])) == subst(s, vals[i][d]));
            }
            assert forall|k: int| 0 <= k < b.len() implies #[trigger] subst(s, b[k].0) == subst(s, b[k].1) by {
                assert(subst(s, TermV::Var(rvs[n][k])) == subst(s, vals[n][k]));
            }
        }
        if unifies(s, rows_eqs(rvs, vals)) {
            assert forall|i: int, d: int| #![trigger vals[i][d]] 0 <= i < vals.len() && 0 <= d < vals[i].len()
                implies subst(s, TermV::Var(rvs[i][d])) == subst(s, vals[i][d]) by {
                if i < n {
                    assert(init[i] == vals[i]);
                    assert(subst(s, TermV::Var(rvs[i][d])) == subst(s, init[i][d]));
                } else {
                    assert(subst(s, b[d].0) == subst(s, b[d].1));
                }
            }
        }
    }
}

/// Rows whose bindings some substitution makes have a most general unifier.
pub proof fn lemma_rows_mgu_exists(s: Map<u32, TermV>, rvs: Seq<Seq<u32>>, vals: Seq<Seq<TermV>>) -> (th: Map<u32, TermV>)
    requires
        binds_rows(s, rvs, vals),
    ensures
        mgu_rows(th, rvs, vals),
{
    lemma_rows_eqs(s, rvs, vals);
    let th = lemma_mgu_exists(rows_eqs(rvs, vals), s);
    lemma_rows_eqs(th, rvs, vals);
    assert forall|th2: Map<u32, TermV>| #[trigger] binds_rows(th2, rvs, vals) implies instance_of(th2, th) by {
        lemma_rows_eqs(th2, rvs, vals);
    }
    th
}


// --- renaming the facts apart ---

/// Each pattern paired with its fact, renamed apart by the pattern's offset.
pub open spec fn off_eqs(pats: Seq<TermV>, fs: Seq<TermV>, offs: Seq<int>) -> Seq<(TermV, TermV)> {
    Seq::new(pats.len(), |j: int| (pats[j], shift(fs[j], offs[j] as u32)))
}

/// Offsets that rename the facts into disjoint blocks above the query's variables.
pub open spec fn offs_ok(fs: Seq<TermV>, offs: Seq<int>) -> bool {
    &&& offs.len() == fs.len()
    &&& forall|j: int| 0 <= j < offs.len() ==> DATA_VAR_BASE <= #[trigger] offs[j]
    &&& forall|i: int, j: int| 0 <= i < offs.len() && 0 <= j < offs.len() && i != j
        ==> #[trigger] offs[i] + DATA_VAR_STRIDE <= #[trigger] offs[j] || offs[j] + DATA_VAR_STRIDE <= offs[i]
    &&& forall|j: int, u: u32| 0 <= j < fs.len() && #[trigger] fv(fs[j]).contains(u)
        ==> u < DATA_VAR_STRIDE && u + offs[j] <= u32::MAX
}

/// The variables of the patterns and the query lie below the renamed facts.
pub open spec fn low_vars(pats: Seq<TermV>, qv: Seq<u32>) -> bool {
    &&& forall|j: int, v: u32| 0 <= j < pats.len() && #[trigger] fv(pats[j]).contains(v) ==> v < DATA_VAR_BASE
    &&& forall|k: int| 0 <= k < qv.len() ==> #[trigger] qv[k] < DATA_VAR_BASE
}

/// The block of offset `b` that `v` falls in, if any.
pub open spec fn in_block(b: Seq<int>, v: u32) -> bool {
    exists|j: int| 0 <= j < b.len() && b[j] <= v < #[trigger] b[j] + DATA_VAR_STRIDE
}

/// `s` moved from the blocks of `a` to the blocks of `b`.
pub open spec fn moved(s: Map<u32, TermV>, a: Seq<int>, b: Seq<int>) -> Map<u32, TermV> {
    Map::new(|v: u32| true, |v: u32| if in_block(b, v) {
        let j = choose|j: int| 0 <= j < b.len() && b[j] <= v < #[trigger] b[j] + DATA_VAR_STRIDE;
        subst(s, TermV::Var((v - b[j] + a[j]) as u32))
    } else {
        subst(s, TermV::Var(v))
    })
}

/// Renaming the facts apart by other offsets keeps the answer tuples of the unifiers.
proof fn lemma_sols_moved(pats: Seq<TermV>, fs: Seq<TermV>, a: Seq<int>, b: Seq<int>, qv: Seq<u32>)
    requires
        fs.len() == pats.len(),
        offs_ok(fs, a),
        offs_ok(fs, b),
        low_vars(pats, qv),
    ensures
        sols_eqs(off_eqs(pats, fs, a), qv).subset_of(sols_eqs(off_eqs(pats, fs, b), qv)),
{
    assert forall|g: TermV| #[trigger] sols_eqs(off_eqs(pats, fs, a), qv).contains(g)
        implies sols_eqs(off_eqs(pats, fs, b), qv).contains(g) by {
        let s = choose|s: Map<u32, TermV>| unifies(s, off_eqs(pats, fs, a)) && g == #[trigger] tuple_of(s, qv);
        let s2 = moved(s, a, b);
        // Below the blocks nothing moves.
        assert forall|v: u32| v < DATA_VAR_BASE implies #[trigger] subst(s2, TermV::Var(v)) == subst(s, TermV::Var(v)) by {
            if in_block(b, v) {
                let j = choose|j: int| 0 <= j < b.len() && b[j] <= v < #[trigger] b[j] + DATA_VAR_STRIDE;
                assert(DATA_VAR_BASE <= b[j]);
            }
        }
        assert(tuple_of(s2, qv) == tuple_of(s, qv)) by {
            assert forall|k: int| 0 <= k < qv.len() implies subst(s2, TermV::Var(qv[k])) == subst(s, TermV::Var(qv[k])) by {
                assert(qv[k] < DATA_VAR_BASE);
            }
            assert(tuple_of(s2, qv)->App_0 =~= tuple_of(s, qv)->App_0);
        }
        assert(unifies(s2, off_eqs(pats, fs, b))) by {
            let eb = off_eqs(pats, fs, b);
            let ea = off_eqs(pats, fs, a);
            assert forall|j: int| 0 <= j < eb.len() implies #[trigger] subst(s2, eb[j].0) == subst(s2, eb[j].1) by {
                assert(subst(s, ea[j].0) == subst(s, ea[j].1));
                assert forall|w: u32| fv(pats[j]).contains(w) implies subst(s2, TermV::Var(w)) == subst(s, TermV::Var(w)) by {
                    assert(w < DATA_VAR_BASE);
                }
                lemma_subst_agree(s2, s, pats[j]);
                let fb = |v: u32| (v + b[j] as u32) as u32;
                let fa = |v: u32| (v + a[j] as u32) as u32;
                lemma_subst_map_vars(s2, fs[j], fb);
                lemma_subst_map_vars(s, fs[j], fa);
                let mb = Map::new(|v: u32| true, |v: u32| subst(s2, TermV::Var(fb(v))));
                let ma = Map::new(|v: u32| true, |v: u32| subst(s, TermV::Var(fa(v))));
                assert forall|u: u32| fv(fs[j]).contains(u) implies subst(mb, TermV::Var(u)) == subst(ma, TermV::Var(u)) by {
                    assert(u < DATA_VAR_STRIDE && u + b[j] <= u32::MAX && u + a[j] <= u32::MAX);
                    let v = fb(u);
                    assert(v == u + b[j]);
                    assert(in_block(b, v));
                    let j2 = choose|j2: int| 0 <= j2 < b.len() && b[j2] <= v < #[trigger] b[j2] + DATA_VAR_STRIDE;
                    if j2 != j {
                        assert(b[j2] + DATA_VAR_STRIDE <= b[j] || b[j] + DATA_VAR_STRIDE <= b[j2]);
                    }
                }
                lemma_subst_agree(mb, ma, fs[j]);
                assert(shift(fs[j], b[j] as u32) == map_vars(fs[j], fb));
                assert(shift(fs[j], a[j] as u32) == map_vars(fs[j], fa));
            }
        }
    }
}


// --- one relation per pattern ---

/// The images of the variables of a problem under a most general unifier hold only variables
/// of the problem.
pub proof fn lemma_mgu_clean(th: Map<u32, TermV>, ps: Seq<(TermV, TermV)>, v: u32)
    requires
        is_mgu(th, ps),
        eq_vars(ps).contains(v),
    ensures
        forall|u: u32| #[trigger] fv(subst(th, TermV::Var(v))).contains(u) ==> eq_vars(ps).contains(u),
{
    let th0 = lemma_mgu_exists(ps, th);
    assert(instance_of(th0, th));
    lemma_instance_absorbs(th0, th, TermV::Var(v));
    lemma_fv_subst(th0, subst(th, TermV::Var(v)));
    assert forall|u: u32| #[trigger] fv(subst(th, TermV::Var(v))).contains(u) implies eq_vars(ps).contains(u) by {
        if !eq_vars(ps).contains(u) {
            assert(!th0.contains_key(u));
            assert(vimg(th0, u, u));
            assert(fv(subst(th0, TermV::Var(v))).contains(u));
            if th0.contains_key(v) {
                assert(fv(th0[v]).contains(u));
            }
        }
    }
}

/// A block's substitution: inside block `j`, apply `ths[j]` and then `s`.
pub open spec fn joined(s: Map<u32, TermV>, ths: Seq<Map<u32, TermV>>, b: Seq<int>) -> Map<u32, TermV> {
    Map::new(|v: u32| true, |v: u32| if in_block(b, v) {
        let j = choose|j: int| 0 <= j < b.len() && b[j] <= v < #[trigger] b[j] + DATA_VAR_STRIDE;
        subst(s, subst(ths[j], TermV::Var(v)))
    } else {
        subst(s, TermV::Var(v))
    })
}

/// Rows whose values are the images of their variables under one most general unifier per
/// pattern/fact equation: the unifiers of all the equations at once and the substitutions
/// that make the rows' bindings have the same answer tuples.
proof fn lemma_sols_split(pats: Seq<TermV>, fs: Seq<TermV>, b: Seq<int>, qv: Seq<u32>,
    ths: Seq<Map<u32, TermV>>, rvs: Seq<Seq<u32>>, vals: Seq<Seq<TermV>>)
    requires
        fs.len() == pats.len(),
        offs_ok(fs, b),
        low_vars(pats, qv),
        ths.len() == pats.len(),
        rvs.len() == pats.len(),
        vals.len() == pats.len(),
        forall|j: int| 0 <= j < pats.len() ==> is_mgu(#[trigger] ths[j], seq![off_eqs(pats, fs, b)[j]]),
        forall|j: int, x: u32| 0 <= j < pats.len() ==> (#[trigger] rvs[j].contains(x) <==> fv(pats[j]).contains(x)),
        forall|j: int| 0 <= j < pats.len() ==> (#[trigger] vals[j]).len() == rvs[j].len(),
        forall|j: int, d: int| 0 <= j < pats.len() && 0 <= d < rvs[j].len()
            ==> #[trigger] vals[j][d] == subst(ths[j], TermV::Var(rvs[j][d])),
    ensures
        sols_eqs(off_eqs(pats, fs, b), qv) == sols_rows(rvs, vals, qv),
{
    let e = off_eqs(pats, fs, b);
    assert forall|g: TermV| sols_eqs(e, qv).contains(g) implies #[trigger] sols_rows(rvs, vals, qv).contains(g) by {
        let s = choose|s: Map<u32, TermV>| unifies(s, e) && g == #[trigger] tuple_of(s, qv);
        assert(binds_rows(s, rvs, vals)) by {
            assert forall|j: int, d: int| #![trigger vals[j][d]] 0 <= j < vals.len() && 0 <= d < vals[j].len()
                implies subst(s, TermV::Var(rvs[j][d])) == subst(s, vals[j][d]) by {
                assert(subst(s, e[j].0) == subst(s, e[j].1));
                assert(unifies(s, seq![e[j]]));
                assert(instance_of(s, ths[j]));
                lemma_instance_absorbs(s, ths[j], TermV::Var(rvs[j][d]));
            }
        }
    }
    assert forall|g: TermV| sols_rows(rvs, vals, qv).contains(g) implies #[trigger] sols_eqs(e, qv).contains(g) by {
        let s = choose|s: Map<u32, TermV>| binds_rows(s, rvs, vals) && g == #[trigger] tuple_of(s, qv);
        let s2 = joined(s, ths, b);
        assert forall|v: u32| v < DATA_VAR_BASE implies #[trigger] subst(s2, TermV::Var(v)) == subst(s, TermV::Var(v)) by {
            if in_block(b, v) {
                let j = choose|j: int| 0 <= j < b.len() && b[j] <= v < #[trigger] b[j] + DATA_VAR_STRIDE;
                assert(DATA_VAR_BASE <= b[j]);
            }
        }
        assert(tuple_of(s2, qv) == tuple_of(s, qv)) by {
            assert forall|k: int| 0 <= k < qv.len() implies subst(s2, TermV::Var(qv[k])) == subst(s, TermV::Var(qv[k])) by {
                assert(qv[k] < DATA_VAR_BASE);
            }
            assert(tuple_of(s2, qv)->App_0 =~= tuple_of(s, qv)->App_0);
        }
        assert(unifies(s2, e)) by {
            assert forall|j: int| 0 <= j < e.len() implies #[trigger] subst(s2, e[j].0) == subst(s2, e[j].1) by {
                let th = ths[j];
                assert(unifies(th, seq![e[j]]));
                assert(subst(th, seq![e[j]][0].0) == subst(th, seq![e[j]][0].1));
                // The pattern side: its variables are row variables, bound as `th` binds them.
                assert forall|w: u32| fv(pats[j]).contains(w) implies subst(s2, TermV::Var(w)) == subst(s, subst(th, TermV::Var(w))) by {
                    assert(w < DATA_VAR_BASE);
                    assert(rvs[j].contains(w));
                    let d = choose|d: int| 0 <= d < rvs[j].len() && rvs[j][d] == w;
                    assert(subst(s, TermV::Var(rvs[j][d])) == subst(s, vals[j][d]));
                }
                lemma_subst_compose(th, s, pats[j]);
                assert forall|w: u32| fv(pats[j]).contains(w) implies subst(s2, TermV::Var(w)) == subst(compose(th, s), TermV::Var(w)) by {
                    lemma_subst_compose(th, s, TermV::Var(w));
                }
                lemma_subst_agree(s2, compose(th, s), pats[j]);
                // The fact side lies in block `j`, where `s2` is `th` then `s`.
                let f = |v: u32| (v + b[j] as u32) as u32;
                let ren = Map::new(|v: u32| true, |v: u32| TermV::Var(f(v)));
                assert forall|u: u32| #[trigger] fv(fs[j]).contains(u) implies subst(ren, TermV::Var(u)) == TermV::Var(f(u)) by {}
                crate::subst::lemma_subst_is_map_vars(ren, fs[j], f);
                lemma_fv_subst(ren, fs[j]);
                assert(e[j].1 == map_vars(fs[j], f));
                assert forall|w: u32| fv(e[j].1).contains(w) implies subst(s2, TermV::Var(w)) == subst(compose(th, s), TermV::Var(w)) by {
                    let u = choose|u: u32| fv(fs[j]).contains(u) && vimg(ren, u, w);
                    assert(u < DATA_VAR_STRIDE && u + b[j] <= u32::MAX);
                    assert(w == u + b[j]);
                    assert(in_block(b, w));
                    let j2 = choose|j2: int| 0 <= j2 < b.len() && b[j2] <= w < #[trigger] b[j2] + DATA_VAR_STRIDE;
                    if j2 != j {
                        assert(b[j2] + DATA_VAR_STRIDE <= b[j] || b[j] + DATA_VAR_STRIDE <= b[j2]);
                    }
                    lemma_subst_compose(th, s, TermV::Var(w));
                }
                lemma_subst_agree(s2, compose(th, s), e[j].1);
                lemma_subst_compose(th, s, e[j].1);
            }
        }
    }
    assert(sols_eqs(e, qv) =~= sols_rows(rvs, vals, qv));
}

// --- another tuple of the same key ---

/// A pattern variable among the values of a row is bound to itself there.
pub open spec fn self_bound(rv: Seq<u32>, vs: Seq<TermV>) -> bool {
    forall|d: int, x: u32| 0 <= d < vs.len() && #[trigger] fv(vs[d]).contains(x) && x < DATA_VAR_BASE
        ==> exists|d2: int| 0 <= d2 < rv.len() && rv[d2] == x && #[trigger] vs[d2] == TermV::Var(x)
}

/// The variables of the values of row `j` above the query's lie in zone `j` (an interval of
/// the zones `z`, which do not overlap).
pub open spec fn in_zone(z: Seq<(int, int)>, j: int, vs: Seq<TermV>) -> bool {
    forall|d: int, x: u32| 0 <= d < vs.len() && #[trigger] fv(vs[d]).contains(x) && x >= DATA_VAR_BASE
        ==> z[j].0 <= x < z[j].1
}

/// Zones above the query's variables that do not overlap.
pub open spec fn zones_ok(z: Seq<(int, int)>) -> bool {
    &&& forall|j: int| 0 <= j < z.len() ==> DATA_VAR_BASE <= #[trigger] z[j].0
    &&& forall|i: int, j: int| 0 <= i < z.len() && 0 <= j < z.len() && i != j
        ==> #[trigger] z[i].1 <= #[trigger] z[j].0 || z[j].1 <= z[i].0
}

/// The zone `v` falls in, if any.
pub open spec fn in_some_zone(z: Seq<(int, int)>, v: u32) -> bool {
    exists|j: int| 0 <= j < z.len() && #[trigger] z[j].0 <= v < z[j].1
}

/// `s` carried over through `rs[j]` inside zone `j`.
pub open spec fn carried(s: Map<u32, TermV>, rs: Seq<Map<u32, TermV>>, z: Seq<(int, int)>) -> Map<u32, TermV> {
    Map::new(|v: u32| true, |v: u32| if in_some_zone(z, v) {
        let j = choose|j: int| 0 <= j < z.len() && #[trigger] z[j].0 <= v < z[j].1;
        subst(s, subst(rs[j], TermV::Var(v)))
    } else {
        subst(s, TermV::Var(v))
    })
}

/// Replacing each row by a renaming of it keeps the answer tuples, when the rows bind their
/// pattern variables to themselves and keep their other variables to zones of their own.
proof fn lemma_sols_renamed(rvs: Seq<Seq<u32>>, vt: Seq<Seq<TermV>>, vr: Seq<Seq<TermV>>, qv: Seq<u32>,
    rs: Seq<Map<u32, TermV>>, z: Seq<(int, int)>)
    requires
        vt.len() == rvs.len(),
        vr.len() == rvs.len(),
        rs.len() == rvs.len(),
        z.len() == rvs.len(),
        zones_ok(z),
        forall|k: int| 0 <= k < qv.len() ==> #[trigger] qv[k] < DATA_VAR_BASE,
        forall|j: int, d: int| 0 <= j < rvs.len() && 0 <= d < rvs[j].len() ==> #[trigger] rvs[j][d] < DATA_VAR_BASE,
        forall|j: int| 0 <= j < rvs.len() ==> (#[trigger] vt[j]).len() == rvs[j].len() && vr[j].len() == rvs[j].len(),
        forall|j: int, d: int| 0 <= j < rvs.len() && 0 <= d < rvs[j].len() ==> subst(rs[j], #[trigger] vr[j][d]) == vt[j][d],
        forall|j: int| 0 <= j < rvs.len() ==> self_bound(rvs[j], #[trigger] vr[j]),
        forall|j: int| 0 <= j < rvs.len() ==> in_zone(z, j, #[trigger] vr[j]),
    ensures
        sols_rows(rvs, vt, qv).subset_of(sols_rows(rvs, vr, qv)),
{
    assert forall|g: TermV| sols_rows(rvs, vt, qv).contains(g) implies #[trigger] sols_rows(rvs, vr, qv).contains(g) by {
        let s = choose|s: Map<u32, TermV>| binds_rows(s, rvs, vt) && g == #[trigger] tuple_of(s, qv);
        let s2 = carried(s, rs, z);
        assert forall|v: u32| v < DATA_VAR_BASE implies #[trigger] subst(s2, TermV::Var(v)) == subst(s, TermV::Var(v)) by {
            if in_some_zone(z, v) {
                let j = choose|j: int| 0 <= j < z.len() && #[trigger] z[j].0 <= v < z[j].1;
                assert(DATA_VAR_BASE <= z[j].0);
            }
        }
        assert(tuple_of(s2, qv) == tuple_of(s, qv)) by {
            assert forall|k: int| 0 <= k < qv.len() implies subst(s2, TermV::Var(qv[k])) == subst(s, TermV::Var(qv[k])) by {
                assert(qv[k] < DATA_VAR_BASE);
            }
            assert(tuple_of(s2, qv)->App_0 =~= tuple_of(s, qv)->App_0);
        }
        assert(binds_rows(s2, rvs, vr)) by {
            assert forall|j: int, d: int| #![trigger vr[j][d]] 0 <= j < vr.len() && 0 <= d < vr[j].len()
                implies subst(s2, TermV::Var(rvs[j][d])) == subst(s2, vr[j][d]) by {
                let r = rs[j];
                assert forall|w: u32| fv(vr[j][d]).contains(w) implies subst(s2, TermV::Var(w)) == subst(compose(r, s), TermV::Var(w)) by {
                    lemma_subst_compose(r, s, TermV::Var(w));
                    if w < DATA_VAR_BASE {
                        assert(self_bound(rvs[j], vr[j]));
                        let d2 = choose|d2: int| 0 <= d2 < rvs[j].len() && rvs[j][d2] == w && #[trigger] vr[j][d2] == TermV::Var(w);
                        assert(subst(r, vr[j][d2]) == vt[j][d2]);
                        assert(subst(s, TermV::Var(rvs[j][d2])) == subst(s, vt[j][d2]));
                    } else {
                        assert(in_zone(z, j, vr[j]));
                        assert(z[j].0 <= w < z[j].1);
                        assert(in_some_zone(z, w));
                        let j2 = choose|j2: int| 0 <= j2 < z.len() && #[trigger] z[j2].0 <= w < z[j2].1;
                        if j2 != j {
                            assert(z[j2].1 <= z[j].0 || z[j].1 <= z[j2].0);
                        }
                    }
                }
                lemma_subst_agree(s2, compose(r, s), vr[j][d]);
                lemma_subst_compose(r, s, vr[j][d]);
                assert(subst(r, vr[j][d]) == vt[j][d]);
                assert(subst(s, TermV::Var(rvs[j][d])) == subst(s, vt[j][d]));
                assert(rvs[j][d] < DATA_VAR_BASE);
            }
        }
    }
}


// --- the two renamings of the facts ---

/// The fact each pattern is paired with by a choice.
pub open spec fn chosen(facts: Seq<TermV>, c: Seq<int>) -> Seq<TermV> {
    Seq::new(c.len(), |j: int| facts[c[j]])
}

/// The offsets the matcher renames the chosen facts by.
pub open spec fn search_offs(c: Seq<int>) -> Seq<int> {
    Seq::new(c.len(), |j: int| fact_offset(c, j))
}

/// The offsets materializing renames the chosen facts by.
pub open spec fn mat_offs(c: Seq<int>, m: int) -> Seq<int> {
    Seq::new(c.len(), |j: int| mat_offset(j, c[j], m))
}

/// The inputs on which the join and the matcher are compared: both can run, the query's
/// variables (which hold every pattern variable) lie below the renamed facts, and a fact's
/// variables are numbered below the room each occurrence gets.
pub open spec fn agree_ready(pats: Seq<TermV>, facts: Seq<TermV>, qv: Seq<u32>) -> bool {
    &&& ready(pats, qv, facts)
    &&& mat_ready(pats, facts)
    &&& low_vars(pats, qv)
    &&& forall|j: int, v: u32| 0 <= j < pats.len() && #[trigger] fv(pats[j]).contains(v) ==> qv.contains(v)
    &&& forall|k: int, u: u32| 0 <= k < facts.len() && #[trigger] fv(facts[k]).contains(u) ==> u < DATA_VAR_STRIDE
}

proof fn lemma_level_base_mono(c: Seq<int>, i: nat, j: nat)
    requires
        i <= j <= c.len(),
        forall|k: int| 0 <= k < c.len() ==> 0 <= #[trigger] c[k],
    ensures
        level_base(c, i) <= level_base(c, j),
    decreases j - i,
{
    if i < j {
        lemma_level_base_mono(c, i, (j - 1) as nat);
        assert(c[j - 1] >= 0);
    }
}

/// The matcher's renaming of a choice is one into disjoint blocks.
proof fn lemma_search_offs_ok(pats: Seq<TermV>, facts: Seq<TermV>, qv: Seq<u32>, c: Seq<int>)
    requires
        agree_ready(pats, facts, qv),
        is_choice(c, pats.len(), facts.len()),
    ensures
        choice_pairs(pats, facts, c) == off_eqs(pats, chosen(facts, c), search_offs(c)),
        offs_ok(chosen(facts, c), search_offs(c)),
{
    let n = pats.len();
    let m = facts.len();
    let fs = chosen(facts, c);
    let o = search_offs(c);
    assert(choice_pairs(pats, facts, c) =~= off_eqs(pats, fs, o));
    assert forall|j: int| 0 <= j < n implies DATA_VAR_BASE <= #[trigger] o[j]
        && o[j] + DATA_VAR_STRIDE <= level_base(c, (j + 1) as nat)
        && o[j] + DATA_VAR_STRIDE <= id_room(n, m) by {
        lemma_level_base_bound(c, j as nat, m);
        lemma_room(j as nat, c[j] as nat, n, m);
        assert(DATA_VAR_STRIDE * m * j + DATA_VAR_STRIDE * c[j] + DATA_VAR_STRIDE == DATA_VAR_STRIDE * m * j + DATA_VAR_STRIDE * (c[j] + 1)) by (nonlinear_arith);
    }
    assert forall|i: int, j: int| 0 <= i < n && 0 <= j < n && i != j
        implies #[trigger] o[i] + DATA_VAR_STRIDE <= #[trigger] o[j] || o[j] + DATA_VAR_STRIDE <= o[i] by {
        if i < j {
            lemma_level_base_mono(c, (i + 1) as nat, j as nat);
            assert(c[j] >= 0);
        } else {
            lemma_level_base_mono(c, (j + 1) as nat, i as nat);
            assert(c[i] >= 0);
        }
    }
    assert forall|j: int, u: u32| 0 <= j < fs.len() && #[trigger] fv(fs[j]).contains(u)
        implies u < DATA_VAR_STRIDE && u + o[j] <= u32::MAX by {
        assert(fv(facts[c[j]]).contains(u));
    }
}

/// Materializing's renaming of a choice is one into disjoint blocks, block `j` inside the
/// zone of pattern `j`.
proof fn lemma_mat_offs_ok(pats: Seq<TermV>, facts: Seq<TermV>, qv: Seq<u32>, c: Seq<int>)
    requires
        agree_ready(pats, facts, qv),
        is_choice(c, pats.len(), facts.len()),
    ensures
        offs_ok(chosen(facts, c), mat_offs(c, facts.len() as int)),
        forall|j: int| 0 <= j < pats.len() ==> seq![#[trigger] off_eqs(pats, chosen(facts, c), mat_offs(c, facts.len() as int))[j]]
            == pair_of(pats[j], facts[c[j]], mat_offset(j, c[j], facts.len() as int)),
{
    let n = pats.len() as int;
    let m = facts.len() as int;
    let fs = chosen(facts, c);
    let o = mat_offs(c, m);
    assert forall|j: int| 0 <= j < n implies DATA_VAR_BASE <= #[trigger] o[j]
        && o[j] + DATA_VAR_STRIDE <= DATA_VAR_BASE + DATA_VAR_STRIDE * ((j + 1) * m)
        && DATA_VAR_BASE + DATA_VAR_STRIDE * (j * m) <= o[j] by {
        let k = c[j];
        assert(0 <= k < m);
        assert(0 <= j * m + k && j * m + k + 1 <= (j + 1) * m) by (nonlinear_arith)
            requires 0 <= j, 0 <= k < m;
    }
    assert forall|i: int, j: int| 0 <= i < n && 0 <= j < n && i != j
        implies #[trigger] o[i] + DATA_VAR_STRIDE <= #[trigger] o[j] || o[j] + DATA_VAR_STRIDE <= o[i] by {
        if i < j {
            assert((i + 1) * m <= j * m) by (nonlinear_arith) requires i + 1 <= j, 0 <= m;
        } else {
            assert((j + 1) * m <= i * m) by (nonlinear_arith) requires j + 1 <= i, 0 <= m;
        }
    }
    assert forall|j: int, u: u32| 0 <= j < fs.len() && #[trigger] fv(fs[j]).contains(u)
        implies u < DATA_VAR_STRIDE && u + o[j] <= u32::MAX by {
        assert(fv(facts[c[j]]).contains(u));
        assert((j + 1) * m <= n * m) by (nonlinear_arith) requires j + 1 <= n, 0 <= m;
    }
    assert forall|j: int| 0 <= j < n implies seq![#[trigger] off_eqs(pats, fs, o)[j]]
        == pair_of(pats[j], facts[c[j]], mat_offset(j, c[j], m)) by {
        assert(seq![off_eqs(pats, fs, o)[j]] =~= pair_of(pats[j], facts[c[j]], mat_offset(j, c[j], m)));
    }
}

/// The two renamings of a choice give the same answer tuples.
proof fn lemma_sols_offs(pats: Seq<TermV>, facts: Seq<TermV>, qv: Seq<u32>, c: Seq<int>)
    requires
        agree_ready(pats, facts, qv),
        is_choice(c, pats.len(), facts.len()),
    ensures
        sols_eqs(choice_pairs(pats, facts, c), qv)
            == sols_eqs(off_eqs(pats, chosen(facts, c), mat_offs(c, facts.len() as int)), qv),
{
    lemma_search_offs_ok(pats, facts, qv, c);
    lemma_mat_offs_ok(pats, facts, qv, c);
    let fs = chosen(facts, c);
    lemma_sols_moved(pats, fs, search_offs(c), mat_offs(c, facts.len() as int), qv);
    lemma_sols_moved(pats, fs, mat_offs(c, facts.len() as int), search_offs(c), qv);
    assert(sols_eqs(off_eqs(pats, fs, search_offs(c)), qv) =~= sols_eqs(off_eqs(pats, fs, mat_offs(c, facts.len() as int)), qv));
}


// --- what one match contributes ---

/// The zone of pattern `j`: the blocks its matches against the `m` facts are renamed into.
pub open spec fn zone(j: int, m: int) -> (int, int) {
    (DATA_VAR_BASE + DATA_VAR_STRIDE * (j * m), DATA_VAR_BASE + DATA_VAR_STRIDE * ((j + 1) * m))
}

pub open spec fn zones(n: int, m: int) -> Seq<(int, int)> {
    Seq::new(n as nat, |j: int| zone(j, m))
}

proof fn lemma_zones_ok(n: int, m: int)
    requires
        0 <= n,
        0 <= m,
    ensures
        zones_ok(zones(n, m)),
{
    let z = zones(n, m);
    assert forall|j: int| 0 <= j < z.len() implies DATA_VAR_BASE <= #[trigger] z[j].0 by {
        assert(0 <= j * m) by (nonlinear_arith) requires 0 <= j, 0 <= m;
    }
    assert forall|i: int, j: int| 0 <= i < z.len() && 0 <= j < z.len() && i != j
        implies #[trigger] z[i].1 <= #[trigger] z[j].0 || z[j].1 <= z[i].0 by {
        if i < j {
            assert((i + 1) * m <= j * m) by (nonlinear_arith) requires i + 1 <= j, 0 <= m;
        } else {
            assert((j + 1) * m <= i * m) by (nonlinear_arith) requires j + 1 <= i, 0 <= m;
        }
    }
}

/// The values a most general unifier of pattern `j` against a fact gives the pattern's
/// variables hold pattern variables bound to themselves, and otherwise variables of the
/// pattern's zone.
proof fn lemma_match_values(pats: Seq<TermV>, facts: Seq<TermV>, qv: Seq<u32>, j: int, k: int, th: Map<u32, TermV>)
    requires
        agree_ready(pats, facts, qv),
        0 <= j < pats.len(),
        0 <= k < facts.len(),
        is_mgu(th, pair_of(pats[j], facts[k], mat_offset(j, k, facts.len() as int))),
    ensures
        forall|v: u32, x: u32| fv(pats[j]).contains(v) && #[trigger] fv(subst(th, TermV::Var(v))).contains(x) ==>
            (x < DATA_VAR_BASE ==> fv(pats[j]).contains(x) && subst(th, TermV::Var(x)) == TermV::Var(x))
            && (x >= DATA_VAR_BASE ==> zone(j, facts.len() as int).0 <= x < zone(j, facts.len() as int).1),
{
    let m = facts.len() as int;
    let n = pats.len() as int;
    let off = mat_offset(j, k, m);
    let ps = pair_of(pats[j], facts[k], off);
    crate::mgu::lemma_eq_vars(ps);
    assert(0 <= j * m + k && j * m + k + 1 <= (j + 1) * m) by (nonlinear_arith) requires 0 <= j, 0 <= k < m;
    assert((j + 1) * m <= n * m) by (nonlinear_arith) requires j + 1 <= n, 0 <= m;
    let f = |v: u32| (v + off as u32) as u32;
    let ren = Map::new(|v: u32| true, |v: u32| TermV::Var(f(v)));
    assert forall|u: u32| #[trigger] fv(facts[k]).contains(u) implies subst(ren, TermV::Var(u)) == TermV::Var(f(u)) by {}
    crate::subst::lemma_subst_is_map_vars(ren, facts[k], f);
    lemma_fv_subst(ren, facts[k]);
    assert(ps[0].1 == map_vars(facts[k], f));
    assert forall|v: u32, x: u32| fv(pats[j]).contains(v) && #[trigger] fv(subst(th, TermV::Var(v))).contains(x) implies
        (x < DATA_VAR_BASE ==> fv(pats[j]).contains(x) && subst(th, TermV::Var(x)) == TermV::Var(x))
        && (x >= DATA_VAR_BASE ==> zone(j, m).0 <= x < zone(j, m).1) by {
        assert(fv(ps[0].0).contains(v));
        lemma_mgu_clean(th, ps, v);
        assert(eq_vars(ps).contains(x));
        let i = choose|i: int| 0 <= i < ps.len() && (fv(ps[i].0).contains(x) || fv(ps[i].1).contains(x));
        assert(i == 0);
        if fv(ps[0].1).contains(x) {
            let u = choose|u: u32| fv(facts[k]).contains(u) && vimg(ren, u, x);
            assert(u < DATA_VAR_STRIDE);
            assert(x == u + off);
        } else {
            assert(x < DATA_VAR_BASE);
        }
        if x < DATA_VAR_BASE {
            if th.contains_key(v) {
                assert(fv(th[v]).contains(x));
                assert(!th.contains_key(x));
            } else {
                assert(x == v);
            }
        }
    }
}

/// The variables of relation `j` in the query's order are exactly the pattern's variables,
/// all below the renamed facts.
proof fn lemma_rel_orders(pats: Seq<TermV>, facts: Seq<TermV>, qv: Seq<u32>, rels: Seq<crate::wcojoin::Relation>)
    requires
        agree_ready(pats, facts, qv),
        materialized(pats, facts, rels),
    ensures
        rel_orders(rels, qv).len() == pats.len(),
        forall|j: int, x: u32| 0 <= j < pats.len() ==> (#[trigger] rel_orders(rels, qv)[j].contains(x) <==> fv(pats[j]).contains(x)),
        forall|j: int, d: int| 0 <= j < pats.len() && 0 <= d < rel_orders(rels, qv)[j].len()
            ==> #[trigger] rel_orders(rels, qv)[j][d] < DATA_VAR_BASE
                && vars_of(pats[j]).contains(rel_orders(rels, qv)[j][d]),
{
    let rvs = rel_orders(rels, qv);
    assert forall|j: int, x: u32| 0 <= j < pats.len() implies (#[trigger] rvs[j].contains(x) <==> fv(pats[j]).contains(x)) by {
        assert(rels[j].vars@ == vars_of(pats[j]));
        crate::wcojoin::lemma_restrict_in(qv, rels[j].vars@, x);
        lemma_collect(pats[j], Seq::<u32>::empty());
    }
    assert forall|j: int, d: int| 0 <= j < pats.len() && 0 <= d < rvs[j].len()
        implies #[trigger] rvs[j][d] < DATA_VAR_BASE && vars_of(pats[j]).contains(rvs[j][d]) by {
        assert(rvs[j].contains(rvs[j][d]));
        assert(fv(pats[j]).contains(rvs[j][d]));
        lemma_collect(pats[j], Seq::<u32>::empty());
    }
}


// --- the two directions ---

/// The match a tuple of relation `j` comes from: a fact and a most general unifier.
pub open spec fn source(pats: Seq<TermV>, facts: Seq<TermV>, t: Map<u32, crate::term::Term>, j: int) -> (int, Map<u32, TermV>) {
    choose|kk: int, th: Map<u32, TermV>| 0 <= kk < facts.len()
        && #[trigger] is_mgu(th, pair_of(pats[j], facts[kk], mat_offset(j, kk, facts.len() as int)))
        && tuple_ok(t, vars_of(pats[j]), th)
}

/// The tuples a join choice picks, with their sources: each row holds the images of its
/// variables under its source's unifier.
proof fn lemma_picked_rows(pats: Seq<TermV>, facts: Seq<TermV>, qv: Seq<u32>, rels: Seq<crate::wcojoin::Relation>, ch: Seq<int>)
    requires
        agree_ready(pats, facts, qv),
        materialized(pats, facts, rels),
        ch.len() == rels.len(),
        forall|i: int| 0 <= i < rels.len() ==> 0 <= #[trigger] ch[i] < rels[i].tuples@.len(),
    ensures
        row_vals(rels, qv, ch).len() == pats.len(),
        forall|j: int| 0 <= j < pats.len() ==> {
            let (kk, th) = source(pats, facts, rels[j].tuples@[ch[j]]@, j);
            &&& 0 <= kk < facts.len()
            &&& is_mgu(th, pair_of(pats[j], facts[kk], mat_offset(j, kk, facts.len() as int)))
            &&& tuple_ok(rels[j].tuples@[ch[j]]@, vars_of(pats[j]), th)
            &&& (#[trigger] row_vals(rels, qv, ch)[j]).len() == rel_orders(rels, qv)[j].len()
            &&& forall|d: int| 0 <= d < rel_orders(rels, qv)[j].len() ==> #[trigger] row_vals(rels, qv, ch)[j][d]
                == subst(th, TermV::Var(rel_orders(rels, qv)[j][d]))
        },
{
    lemma_rel_orders(pats, facts, qv, rels);
    let rvs = rel_orders(rels, qv);
    let vr = row_vals(rels, qv, ch);
    assert forall|j: int| 0 <= j < pats.len() implies {
            let (kk, th) = source(pats, facts, rels[j].tuples@[ch[j]]@, j);
            &&& 0 <= kk < facts.len()
            &&& is_mgu(th, pair_of(pats[j], facts[kk], mat_offset(j, kk, facts.len() as int)))
            &&& tuple_ok(rels[j].tuples@[ch[j]]@, vars_of(pats[j]), th)
            &&& (#[trigger] vr[j]).len() == rvs[j].len()
            &&& forall|d: int| 0 <= d < rvs[j].len() ==> #[trigger] vr[j][d] == subst(th, TermV::Var(rvs[j][d]))
        } by {
        let t = rels[j].tuples@[ch[j]]@;
        assert(tuple_from(pats, facts, j, t));
        let (kk, th) = source(pats, facts, t, j);
        assert forall|d: int| 0 <= d < rvs[j].len() implies #[trigger] vr[j][d] == subst(th, TermV::Var(rvs[j][d])) by {
            assert(vars_of(pats[j]).contains(rvs[j][d]));
            assert(t.contains_key(rvs[j][d]));
        }
    }
}

/// Every answer of the join is an answer of the matcher.
proof fn lemma_join_in_answers(pats: Seq<TermV>, facts: Seq<TermV>, qv: Seq<u32>, rels: Seq<crate::wcojoin::Relation>,
    ch: Seq<int>, th: Map<u32, TermV>, k: Seq<u8>)
    requires
        agree_ready(pats, facts, qv),
        materialized(pats, facts, rels),
        join_row(rels, qv, qv, ch, th, k),
    ensures
        answers(pats, facts, qv).contains(k),
{
    let n = pats.len() as int;
    let m = facts.len() as int;
    let rvs = rel_orders(rels, qv);
    let vr = row_vals(rels, qv, ch);
    lemma_rel_orders(pats, facts, qv, rels);
    lemma_picked_rows(pats, facts, qv, rels, ch);
    let c = Seq::new(n as nat, |j: int| source(pats, facts, rels[j].tuples@[ch[j]]@, j).0);
    let ths = Seq::new(n as nat, |j: int| source(pats, facts, rels[j].tuples@[ch[j]]@, j).1);
    assert(is_choice(c, pats.len(), facts.len())) by {
        assert forall|j: int| 0 <= j < n implies 0 <= #[trigger] c[j] < m by {
            assert(vr[j].len() == rvs[j].len());
        }
    }
    lemma_mat_offs_ok(pats, facts, qv, c);
    let fs = chosen(facts, c);
    let e2 = off_eqs(pats, fs, mat_offs(c, m));
    assert forall|j: int| 0 <= j < n implies is_mgu(#[trigger] ths[j], seq![e2[j]]) by {
        assert(vr[j].len() == rvs[j].len());
        assert(seq![e2[j]] == pair_of(pats[j], facts[c[j]], mat_offset(j, c[j], m)));
    }
    assert forall|j: int| 0 <= j < n implies (#[trigger] vr[j]).len() == rvs[j].len() by {}
    assert forall|j: int, d: int| 0 <= j < n && 0 <= d < rvs[j].len() implies #[trigger] vr[j][d] == subst(ths[j], TermV::Var(rvs[j][d])) by {
        assert(vr[j].len() == rvs[j].len());
    }
    lemma_sols_split(pats, fs, mat_offs(c, m), qv, ths, rvs, vr);
    lemma_sols_offs(pats, facts, qv, c);
    let cp = choice_pairs(pats, facts, c);
    assert(sols_rows(rvs, vr, qv).contains(tuple_of(th, qv)));
    assert(sols_eqs(cp, qv).contains(tuple_of(th, qv)));
    let s = choose|s: Map<u32, TermV>| unifies(s, cp) && tuple_of(th, qv) == #[trigger] tuple_of(s, qv);
    let t0 = lemma_mgu_exists(cp, s);
    assert(matched(pats, facts, c));
    let tc = mgu(cp);
    assert(is_mgu(tc, cp));
    lemma_key_from_sols(tc, cp, th, rvs, vr, qv);
    assert(k == answer_of(pats, facts, qv, c));
}

/// The renamings between a representative tuple and the bindings of a match of the same key.
pub open spec fn renaming(a: TermV, b: TermV) -> (Map<u32, TermV>, Map<u32, TermV>) {
    choose|p: (Map<u32, TermV>, Map<u32, TermV>)| subst(p.0, a) == b && subst(p.1, b) == a
}

/// The rows the images of the pattern variables under one unifier per pattern make.
pub open spec fn match_rows(rvs: Seq<Seq<u32>>, ths: Seq<Map<u32, TermV>>) -> Seq<Seq<TermV>> {
    Seq::new(ths.len(), |j: int| Seq::new(rvs[j].len(), |d: int| subst(ths[j], TermV::Var(rvs[j][d]))))
}

/// The tuple of pattern `j` a join choice picks, as a term over the pattern's variables.
pub open spec fn picked_tuple(pats: Seq<TermV>, rels: Seq<crate::wcojoin::Relation>, ch: Seq<int>, j: int) -> TermV {
    TermV::App(Seq::new(vars_of(pats[j]).len(), |i: int| rels[j].tuples@[ch[j]]@[vars_of(pats[j])[i]]@))
}

/// A join choice that picks, for each pattern, a tuple of the key of the match `ths[j]`
/// against the chosen fact.
pub open spec fn represents(pats: Seq<TermV>, facts: Seq<TermV>, rels: Seq<crate::wcojoin::Relation>, c: Seq<int>,
    ths: Seq<Map<u32, TermV>>, ch: Seq<int>) -> bool {
    &&& ths.len() == pats.len()
    &&& ch.len() == rels.len()
    &&& forall|j: int| 0 <= j < pats.len() ==> is_mgu(#[trigger] ths[j], pair_of(pats[j], facts[c[j]], mat_offset(j, c[j], facts.len() as int)))
    &&& forall|i: int| 0 <= i < rels.len() ==> 0 <= #[trigger] ch[i] < rels[i].tuples@.len()
    &&& forall|j: int| 0 <= j < pats.len() ==> #[trigger] tkey(rels[j].tuples@[ch[j]]@, vars_of(pats[j])) == key_of(ths[j], vars_of(pats[j]))
}

/// The representative rows are renamings of the match rows.
proof fn lemma_rep_renaming(pats: Seq<TermV>, facts: Seq<TermV>, qv: Seq<u32>, rels: Seq<crate::wcojoin::Relation>,
    c: Seq<int>, ths: Seq<Map<u32, TermV>>, ch: Seq<int>) -> (res: (Seq<Map<u32, TermV>>, Seq<Map<u32, TermV>>))
    requires
        agree_ready(pats, facts, qv),
        materialized(pats, facts, rels),
        is_choice(c, pats.len(), facts.len()),
        represents(pats, facts, rels, c, ths, ch),
    ensures
        res.0.len() == pats.len(),
        res.1.len() == pats.len(),
        forall|j: int, d: int| 0 <= j < pats.len() && 0 <= d < rel_orders(rels, qv)[j].len()
            ==> subst(res.0[j], #[trigger] row_vals(rels, qv, ch)[j][d]) == match_rows(rel_orders(rels, qv), ths)[j][d]
                && subst(res.1[j], match_rows(rel_orders(rels, qv), ths)[j][d]) == row_vals(rels, qv, ch)[j][d],
{
    let n = pats.len() as int;
    let rvs = rel_orders(rels, qv);
    lemma_rel_orders(pats, facts, qv, rels);
    lemma_picked_rows(pats, facts, qv, rels, ch);
    let vr = row_vals(rels, qv, ch);
    let vt = match_rows(rvs, ths);
    let tr = Seq::new(n as nat, |j: int| picked_tuple(pats, rels, ch, j));
    let tt = Seq::new(n as nat, |j: int| tuple_of(ths[j], vars_of(pats[j])));
    assert forall|j: int| #![trigger tr[j]] 0 <= j < n implies exists|p: (Map<u32, TermV>, Map<u32, TermV>)|
        subst(p.0, tr[j]) == tt[j] && subst(p.1, tt[j]) == tr[j] by {
        let t = rels[j].tuples@[ch[j]]@;
        let (kk, th2) = source(pats, facts, t, j);
        assert(vr[j].len() == rvs[j].len());
        assert(tr[j] == tuple_of(th2, vars_of(pats[j]))) by {
            let l = vars_of(pats[j]);
            assert forall|i: int| 0 <= i < l.len() implies #[trigger] t[l[i]]@ == subst(th2, TermV::Var(l[i])) by {
                assert(l.contains(l[i]));
                assert(t.contains_key(l[i]));
            }
            assert(tr[j]->App_0 =~= tuple_of(th2, l)->App_0);
        }
        assert(encodable(tr[j]));
        assert(is_mgu(ths[j], pair_of(pats[j], facts[c[j]], mat_offset(j, c[j], facts.len() as int))));
        assert(encodable(tt[j]));
        assert(tkey(t, vars_of(pats[j])) == key_of(ths[j], vars_of(pats[j])));
        let p = lemma_same_encoding(tr[j], tt[j]);
    }
    let rn = Seq::new(n as nat, |j: int| renaming(tr[j], tt[j]));
    let rs = Seq::new(n as nat, |j: int| rn[j].0);
    let ss = Seq::new(n as nat, |j: int| rn[j].1);
    assert forall|j: int, d: int| 0 <= j < n && 0 <= d < rvs[j].len()
        implies subst(rs[j], #[trigger] vr[j][d]) == vt[j][d] && subst(ss[j], vt[j][d]) == vr[j][d] by {
        let t = rels[j].tuples@[ch[j]]@;
        let (kk, th2) = source(pats, facts, t, j);
        assert(vr[j].len() == rvs[j].len());
        let l = vars_of(pats[j]);
        let x = rvs[j][d];
        assert(l.contains(x));
        let i = choose|i: int| 0 <= i < l.len() && l[i] == x;
        assert(subst(rn[j].0, tr[j]) == tt[j] && subst(rn[j].1, tt[j]) == tr[j]);
        lemma_subst_app(rs[j], tr[j]->App_0);
        lemma_subst_app(ss[j], tt[j]->App_0);
        assert(subst(rs[j], tr[j])->App_0[i] == subst(rs[j], tr[j]->App_0[i]));
        assert(subst(ss[j], tt[j])->App_0[i] == subst(ss[j], tt[j]->App_0[i]));
        assert(t.contains_key(x));
    }
    (rs, ss)
}

/// The rows of a match bind their pattern variables to themselves and keep their other
/// variables to the pattern's zone.
proof fn lemma_rows_shape(pats: Seq<TermV>, facts: Seq<TermV>, qv: Seq<u32>, rels: Seq<crate::wcojoin::Relation>,
    j: int, k: int, th: Map<u32, TermV>, vs: Seq<TermV>)
    requires
        agree_ready(pats, facts, qv),
        materialized(pats, facts, rels),
        0 <= j < pats.len(),
        0 <= k < facts.len(),
        is_mgu(th, pair_of(pats[j], facts[k], mat_offset(j, k, facts.len() as int))),
        vs.len() == rel_orders(rels, qv)[j].len(),
        forall|d: int| 0 <= d < vs.len() ==> #[trigger] vs[d] == subst(th, TermV::Var(rel_orders(rels, qv)[j][d])),
    ensures
        self_bound(rel_orders(rels, qv)[j], vs),
        in_zone(zones(pats.len() as int, facts.len() as int), j, vs),
{
    let rvs = rel_orders(rels, qv);
    let z = zones(pats.len() as int, facts.len() as int);
    lemma_rel_orders(pats, facts, qv, rels);
    lemma_match_values(pats, facts, qv, j, k, th);
    assert forall|d: int, x: u32| 0 <= d < vs.len() && #[trigger] fv(vs[d]).contains(x) && x < DATA_VAR_BASE
        implies exists|d2: int| 0 <= d2 < rvs[j].len() && rvs[j][d2] == x && #[trigger] vs[d2] == TermV::Var(x) by {
        assert(rvs[j].contains(rvs[j][d]));
        assert(fv(pats[j]).contains(rvs[j][d]));
        assert(fv(subst(th, TermV::Var(rvs[j][d]))).contains(x));
        assert(rvs[j].contains(x));
        let d2 = choose|d2: int| 0 <= d2 < rvs[j].len() && rvs[j][d2] == x;
        assert(vs[d2] == subst(th, TermV::Var(x)));
    }
    assert forall|d: int, x: u32| 0 <= d < vs.len() && #[trigger] fv(vs[d]).contains(x) && x >= DATA_VAR_BASE
        implies z[j].0 <= x < z[j].1 by {
        assert(rvs[j].contains(rvs[j][d]));
        assert(fv(pats[j]).contains(rvs[j][d]));
        assert(fv(subst(th, TermV::Var(rvs[j][d]))).contains(x));
    }
}

/// The representative rows and the match rows have the same answer tuples.
proof fn lemma_rep_sols(pats: Seq<TermV>, facts: Seq<TermV>, qv: Seq<u32>, rels: Seq<crate::wcojoin::Relation>,
    c: Seq<int>, ths: Seq<Map<u32, TermV>>, ch: Seq<int>)
    requires
        agree_ready(pats, facts, qv),
        materialized(pats, facts, rels),
        is_choice(c, pats.len(), facts.len()),
        represents(pats, facts, rels, c, ths, ch),
    ensures
        sols_rows(rel_orders(rels, qv), match_rows(rel_orders(rels, qv), ths), qv)
            == sols_rows(rel_orders(rels, qv), row_vals(rels, qv, ch), qv),
{
    let n = pats.len() as int;
    let m = facts.len() as int;
    let rvs = rel_orders(rels, qv);
    lemma_rel_orders(pats, facts, qv, rels);
    lemma_picked_rows(pats, facts, qv, rels, ch);
    let vr = row_vals(rels, qv, ch);
    let vt = match_rows(rvs, ths);
    let z = zones(n, m);
    lemma_zones_ok(n, m);
    let (rs, ss) = lemma_rep_renaming(pats, facts, qv, rels, c, ths, ch);
    assert forall|j: int| 0 <= j < n implies (#[trigger] vt[j]).len() == rvs[j].len() && vr[j].len() == rvs[j].len()
        && self_bound(rvs[j], vr[j]) && in_zone(z, j, vr[j]) && self_bound(rvs[j], vt[j]) && in_zone(z, j, vt[j]) by {
        let t = rels[j].tuples@[ch[j]]@;
        let (kk, th2) = source(pats, facts, t, j);
        assert(vr[j].len() == rvs[j].len());
        lemma_rows_shape(pats, facts, qv, rels, j, kk, th2, vr[j]);
        assert(is_mgu(ths[j], pair_of(pats[j], facts[c[j]], mat_offset(j, c[j], m))));
        lemma_rows_shape(pats, facts, qv, rels, j, c[j], ths[j], vt[j]);
    }
    assert forall|j: int, d: int| 0 <= j < rvs.len() && 0 <= d < rvs[j].len() implies #[trigger] rvs[j][d] < DATA_VAR_BASE by {}
    assert forall|j: int| 0 <= j < rvs.len() implies self_bound(rvs[j], #[trigger] vr[j]) by {}
    assert forall|j: int| 0 <= j < rvs.len() implies in_zone(z, j, #[trigger] vr[j]) by {}
    assert forall|j: int| 0 <= j < rvs.len() implies self_bound(rvs[j], #[trigger] vt[j]) by {}
    assert forall|j: int| 0 <= j < rvs.len() implies in_zone(z, j, #[trigger] vt[j]) by {}
    lemma_sols_renamed(rvs, vt, vr, qv, rs, z);
    lemma_sols_renamed(rvs, vr, vt, qv, ss, z);
    assert(sols_rows(rvs, vt, qv) =~= sols_rows(rvs, vr, qv));
}

/// A matching choice pairs each pattern with a fact it matches on its own, and the relations
/// hold a tuple of that match's key.
proof fn lemma_choice_represented(pats: Seq<TermV>, facts: Seq<TermV>, qv: Seq<u32>, rels: Seq<crate::wcojoin::Relation>,
    c: Seq<int>, g: TermV) -> (res: (Seq<Map<u32, TermV>>, Seq<int>))
    requires
        agree_ready(pats, facts, qv),
        materialized(pats, facts, rels),
        is_choice(c, pats.len(), facts.len()),
        sols_eqs(off_eqs(pats, chosen(facts, c), mat_offs(c, facts.len() as int)), qv).contains(g),
    ensures
        represents(pats, facts, rels, c, res.0, res.1),
{
    let n = pats.len() as int;
    let m = facts.len() as int;
    lemma_mat_offs_ok(pats, facts, qv, c);
    let e2 = off_eqs(pats, chosen(facts, c), mat_offs(c, m));
    let s = choose|s: Map<u32, TermV>| unifies(s, e2) && g == #[trigger] tuple_of(s, qv);
    assert forall|j: int| #![trigger c[j]] 0 <= j < n implies exists|t: Map<u32, TermV>|
        #[trigger] is_mgu(t, pair_of(pats[j], facts[c[j]], mat_offset(j, c[j], m))) by {
        assert(seq![e2[j]] == pair_of(pats[j], facts[c[j]], mat_offset(j, c[j], m)));
        assert(subst(s, e2[j].0) == subst(s, e2[j].1));
        assert(unifies(s, seq![e2[j]]));
        let t = lemma_mgu_exists(seq![e2[j]], s);
    }
    let ths = Seq::new(n as nat, |j: int| choose|t: Map<u32, TermV>| #[trigger] is_mgu(t, pair_of(pats[j], facts[c[j]], mat_offset(j, c[j], m))));
    reveal(tuples_complete);
    assert forall|j: int| #![trigger ths[j]] 0 <= j < n implies exists|t: int| 0 <= t < rels[j].tuples@.len()
        && #[trigger] tkey(rels[j].tuples@[t]@, vars_of(pats[j])) == key_of(ths[j], vars_of(pats[j])) by {
        assert(is_mgu(ths[j], pair_of(pats[j], facts[c[j]], mat_offset(j, c[j], m))));
        assert(rel_complete(pats, facts, j, rels[j]));
        assert(0 <= c[j] < m);
    }
    let ch = Seq::new(n as nat, |j: int| choose|t: int| 0 <= t < rels[j].tuples@.len()
        && #[trigger] tkey(rels[j].tuples@[t]@, vars_of(pats[j])) == key_of(ths[j], vars_of(pats[j])));
    assert forall|i: int| 0 <= i < rels.len() implies 0 <= #[trigger] ch[i] < rels[i].tuples@.len() by {}
    (ths, ch)
}


/// Every answer of the matcher is an answer of the join.
proof fn lemma_answer_in_join(pats: Seq<TermV>, facts: Seq<TermV>, qv: Seq<u32>, rels: Seq<crate::wcojoin::Relation>, c: Seq<int>)
    requires
        agree_ready(pats, facts, qv),
        materialized(pats, facts, rels),
        is_choice(c, pats.len(), facts.len()),
        matched(pats, facts, c),
    ensures
        join_answers(rels, qv, qv).contains(answer_of(pats, facts, qv, c)),
{
    let m = facts.len() as int;
    let rvs = rel_orders(rels, qv);
    let cp = choice_pairs(pats, facts, c);
    let tc = mgu(cp);
    assert(is_mgu(tc, cp));
    lemma_sols_offs(pats, facts, qv, c);
    lemma_mat_offs_ok(pats, facts, qv, c);
    let fs = chosen(facts, c);
    let e2 = off_eqs(pats, fs, mat_offs(c, m));
    assert(sols_eqs(cp, qv).contains(tuple_of(tc, qv)));
    let (ths, ch) = lemma_choice_represented(pats, facts, qv, rels, c, tuple_of(tc, qv));
    lemma_rel_orders(pats, facts, qv, rels);
    let vt = match_rows(rvs, ths);
    assert forall|j: int| 0 <= j < pats.len() implies is_mgu(#[trigger] ths[j], seq![e2[j]]) by {
        assert(seq![e2[j]] == pair_of(pats[j], facts[c[j]], mat_offset(j, c[j], m)));
    }
    assert forall|j: int| 0 <= j < pats.len() implies (#[trigger] vt[j]).len() == rvs[j].len() by {}
    lemma_sols_split(pats, fs, mat_offs(c, m), qv, ths, rvs, vt);
    lemma_rep_sols(pats, facts, qv, rels, c, ths, ch);
    let vr = row_vals(rels, qv, ch);
    assert(sols_rows(rvs, vr, qv).contains(tuple_of(tc, qv)));
    let s2 = choose|s2: Map<u32, TermV>| binds_rows(s2, rvs, vr) && tuple_of(tc, qv) == #[trigger] tuple_of(s2, qv);
    let thq = lemma_rows_mgu_exists(s2, rvs, vr);
    lemma_key_from_sols(tc, cp, thq, rvs, vr, qv);
    assert(encodable(tuple_of(tc, qv)));
    assert(join_row(rels, qv, qv, ch, thq, answer_of(pats, facts, qv, c)));
}


/// The unification join of the relations the patterns materialize into has exactly the
/// answers of the nested-loop matcher over the same patterns and facts.
pub proof fn lemma_join_agrees(pats: Seq<TermV>, facts: Seq<TermV>, qv: Seq<u32>, rels: Seq<crate::wcojoin::Relation>)
    requires
        agree_ready(pats, facts, qv),
        materialized(pats, facts, rels),
    ensures
        join_answers(rels, qv, qv) == answers(pats, facts, qv),
{
    assert forall|k: Seq<u8>| join_answers(rels, qv, qv).contains(k) implies #[trigger] answers(pats, facts, qv).contains(k) by {
        let (ch, th) = choose|ch: Seq<int>, th: Map<u32, TermV>| #[trigger] join_row(rels, qv, qv, ch, th, k);
        lemma_join_in_answers(pats, facts, qv, rels, ch, th, k);
    }
    assert forall|k: Seq<u8>| answers(pats, facts, qv).contains(k) implies #[trigger] join_answers(rels, qv, qv).contains(k) by {
        let c = choose|c: Seq<int>| #[trigger] is_choice(c, pats.len(), facts.len()) && matched(pats, facts, c)
            && k == answer_of(pats, facts, qv, c);
        lemma_answer_in_join(pats, facts, qv, rels, c);
    }
    assert(join_answers(rels, qv, qv) =~= answers(pats, facts, qv));
}

/// A pattern that matches none of the facts leaves the matcher without answers.
pub proof fn lemma_unmatched_no_answers(pats: Seq<TermV>, facts: Seq<TermV>, qv: Seq<u32>, j: int)
    requires
        agree_ready(pats, facts, qv),
        0 <= j < pats.len(),
        unmatched(pats, facts, j),
    ensures
        answers(pats, facts, qv) == Set::<Seq<u8>>::empty(),
{
    let m = facts.len() as int;
    assert forall|k: Seq<u8>| !#[trigger] answers(pats, facts, qv).contains(k) by {
        if answers(pats, facts, qv).contains(k) {
            let c = choose|c: Seq<int>| #[trigger] is_choice(c, pats.len(), facts.len()) && matched(pats, facts, c)
                && k == answer_of(pats, facts, qv, c);
            let cp = choice_pairs(pats, facts, c);
            let tc = mgu(cp);
            assert(is_mgu(tc, cp));
            lemma_sols_offs(pats, facts, qv, c);
            lemma_mat_offs_ok(pats, facts, qv, c);
            let e2 = off_eqs(pats, chosen(facts, c), mat_offs(c, m));
            assert(sols_eqs(cp, qv).contains(tuple_of(tc, qv)));
            assert(sols_eqs(e2, qv).contains(tuple_of(tc, qv)));
            let s = choose|s: Map<u32, TermV>| unifies(s, e2) && tuple_of(tc, qv) == #[trigger] tuple_of(s, qv);
            assert(seq![e2[j]] == pair_of(pats[j], facts[c[j]], mat_offset(j, c[j], m)));
            assert(subst(s, e2[j].0) == subst(s, e2[j].1));
            assert(unifies(s, seq![e2[j]]));
            let t = lemma_mgu_exists(seq![e2[j]], s);
            assert(pair_matches(pats, facts, j, c[j]));
            assert(0 <= c[j] < m);
        }
    }
    assert(answers(pats, facts, qv) =~= Set::<Seq<u8>>::empty());
}


/// The byte strings of `r` are exactly the keys of `a`.
#[verifier::opaque]
pub open spec fn same_keys(r: Set<Vec<u8>>, a: Set<Seq<u8>>) -> bool {
    forall|k: Seq<u8>| (exists|x: Vec<u8>| #[trigger] r.contains(x) && x@ == k) <==> #[trigger] a.contains(k)
}

// --- the equality leapfrog on ground matches ---

/// Every match of a pattern against a fact binds every variable of the pattern to a ground
/// value.
pub open spec fn ground_matches(pats: Seq<TermV>, facts: Seq<TermV>) -> bool {
    forall|j: int, k: int, th: Map<u32, TermV>, v: u32| 0 <= j < pats.len() && 0 <= k < facts.len()
        && #[trigger] is_mgu(th, pair_of(pats[j], facts[k], mat_offset(j, k, facts.len() as int)))
        && #[trigger] vars_of(pats[j]).contains(v) ==> crate::term::ground(subst(th, TermV::Var(v)))
}

/// Every query variable occurs in some pattern.
pub open spec fn qv_covered(pats: Seq<TermV>, qv: Seq<u32>) -> bool {
    forall|x: int| #![trigger qv[x]] 0 <= x < qv.len() ==> exists|j: int| 0 <= j < pats.len() && #[trigger] fv(pats[j]).contains(qv[x])
}

/// The values of the tuples of materialized relations are ground on ground matches.
proof fn lemma_tuple_values_ground(pats: Seq<TermV>, facts: Seq<TermV>, qv: Seq<u32>, rels: Seq<crate::wcojoin::Relation>,
    r: int, t: int, v: u32)
    requires
        agree_ready(pats, facts, qv),
        ground_matches(pats, facts),
        materialized(pats, facts, rels),
        0 <= r < rels.len(),
        0 <= t < rels[r].tuples@.len(),
        rels[r].tuples@[t]@.contains_key(v),
    ensures
        crate::term::ground(rels[r].tuples@[t]@[v]@),
        encodable(rels[r].tuples@[t]@[v]@),
{
    let tup = rels[r].tuples@[t]@;
    assert(tuple_from(pats, facts, r, tup));
    let (kk, th) = source(pats, facts, tup, r);
    assert(vars_of(pats[r]).contains(v));
    assert(crate::wcojoin::rel_encodable(rels[r]));
}

/// Two encodable terms with one encoding, one of them ground, are equal.
proof fn lemma_ground_same(a: TermV, g: TermV)
    requires
        encodable(a),
        encodable(g),
        crate::term::ground(g),
        encoding(a) == encoding(g),
    ensures
        a == g,
{
    let (s, r) = lemma_same_encoding(g, a);
    crate::term::lemma_ground_fv(g);
    lemma_subst_noop(s, g);
}

/// An assignment the relations support, every value encodable, has the key of its tuple among
/// the answers of the unification join, on ground matches.
pub proof fn lemma_supported_in_join(pats: Seq<TermV>, facts: Seq<TermV>, qv: Seq<u32>, rels: Seq<crate::wcojoin::Relation>,
    s: Map<u32, crate::term::Term>)
    requires
        agree_ready(pats, facts, qv),
        ground_matches(pats, facts),
        qv_covered(pats, qv),
        materialized(pats, facts, rels),
        s.dom() == qv.to_set(),
        crate::wcojoin::supported(rels, qv, s),
        forall|v: u32| #[trigger] s.contains_key(v) ==> encodable(s[v]@),
        encodable(crate::join::sol_tuple(s, qv)),
    ensures
        join_answers(rels, qv, qv).contains(encoding(crate::join::sol_tuple(s, qv))),
{
    let n = rels.len() as int;
    let rvs = rel_orders(rels, qv);
    lemma_rel_orders(pats, facts, qv, rels);
    // One agreeing tuple per relation (any tuple where the relation binds no query variable).
    let ch = Seq::new(n as nat, |r: int| if rvs[r].len() > 0 {
        choose|x: int| 0 <= x < rels[r].tuples@.len() && #[trigger] crate::wcojoin::agrees(rels[r].tuples@[x]@, s, rvs[r])
    } else {
        0
    });
    assert forall|r: int| 0 <= r < n implies 0 <= #[trigger] ch[r] < rels[r].tuples@.len()
        && crate::wcojoin::agrees(rels[r].tuples@[ch[r]]@, s, rvs[r]) by {
        if rvs[r].len() > 0 {
            assert(crate::wcojoin::restrict_order(qv, rels[r].vars@).len() > 0);
        } else {
            assert(rels[r].tuples@.len() > 0);
        }
    }
    lemma_picked_rows(pats, facts, qv, rels, ch);
    let vals = row_vals(rels, qv, ch);
    // The rows hold exactly the assignment's values, all ground.
    assert forall|r: int, d: int| 0 <= r < n && 0 <= d < rvs[r].len()
        implies #[trigger] vals[r][d] == s[rvs[r][d]]@ && crate::term::ground(vals[r][d]) by {
        let x = rvs[r][d];
        let t = rels[r].tuples@[ch[r]]@;
        assert(crate::wcojoin::agrees_at(t, s, rvs[r][d]));
        assert(vals[r].len() == rvs[r].len());
        assert(vals[r][d] == t[x]@);
        lemma_tuple_values_ground(pats, facts, qv, rels, r, ch[r], x);
        lemma_ground_same(s[x]@, t[x]@);
    }
    // Every query variable is a row variable, so its value is ground.
    assert forall|v: u32| #[trigger] s.contains_key(v) implies crate::term::ground(s[v]@)
        && exists|r: int, d: int| 0 <= r < n && 0 <= d < rvs[r].len() && #[trigger] rvs[r][d] == v by {
        assert(qv.to_set().contains(v));
        let x = choose|x: int| 0 <= x < qv.len() && qv[x] == v;
        let j = choose|j: int| 0 <= j < pats.len() && #[trigger] fv(pats[j]).contains(qv[x]);
        assert(rvs[j].contains(v));
        let d = choose|d: int| 0 <= d < rvs[j].len() && rvs[j][d] == v;
        assert(vals[j][d] == s[rvs[j][d]]@);
    }
    let th = Map::new(|v: u32| qv.contains(v), |v: u32| s[v]@);
    assert forall|v: u32| #[trigger] th.contains_key(v) implies s.contains_key(v) && th[v] == s[v]@ by {
        assert(qv.to_set().contains(v));
    }
    assert(idem(th)) by {
        assert forall|v: u32, u: u32| th.contains_key(v) && #[trigger] fv(th[v]).contains(u) implies !th.contains_key(u) by {
            crate::term::lemma_ground_fv(s[v]@);
        }
    }
    assert forall|r: int, d: int| 0 <= r < n && 0 <= d < rvs[r].len()
        implies subst(th, #[trigger] vals[r][d]) == vals[r][d] && subst(th, TermV::Var(rvs[r][d])) == vals[r][d] by {
        crate::term::lemma_ground_fv(vals[r][d]);
        lemma_subst_noop(th, vals[r][d]);
        assert(fv(pats[r]).contains(rvs[r][d])) by {
            assert(rvs[r].contains(rvs[r][d]));
        }
        assert(qv.contains(rvs[r][d]));
    }
    assert(binds_rows(th, rvs, vals));
    assert forall|th2: Map<u32, TermV>| #[trigger] binds_rows(th2, rvs, vals) implies instance_of(th2, th) by {
        assert forall|v: u32| #[trigger] th.contains_key(v) implies subst(th2, th[v]) == subst(th2, TermV::Var(v)) by {
            assert(s.contains_key(v));
            let (r, d) = choose|r: int, d: int| 0 <= r < n && 0 <= d < rvs[r].len() && #[trigger] rvs[r][d] == v;
            assert(subst(th2, TermV::Var(rvs[r][d])) == subst(th2, vals[r][d]));
            crate::term::lemma_ground_fv(vals[r][d]);
            lemma_subst_noop(th2, vals[r][d]);
            crate::term::lemma_ground_fv(s[v]@);
            lemma_subst_noop(th2, s[v]@);
        }
    }
    assert(mgu_rows(th, rvs, vals));
    assert(tuple_of(th, qv) == crate::join::sol_tuple(s, qv)) by {
        assert forall|i: int| 0 <= i < qv.len() implies subst(th, TermV::Var(qv[i])) == s[qv[i]]@ && s.contains_key(qv[i]) by {
            assert(qv.contains(qv[i]));
            assert(qv.to_set().contains(qv[i]));
        }
        assert(tuple_of(th, qv)->App_0 =~= crate::join::sol_tuple(s, qv)->App_0);
    }
    assert(join_row(rels, qv, qv, ch, th, encoding(crate::join::sol_tuple(s, qv))));
}

/// An answer of the unification join, on ground matches, is the key of an assignment the
/// relations support, and of every assignment with encodable values that agrees with it.
pub proof fn lemma_join_supported(pats: Seq<TermV>, facts: Seq<TermV>, qv: Seq<u32>, rels: Seq<crate::wcojoin::Relation>, k: Seq<u8>)
    -> (s: Map<u32, crate::term::Term>)
    requires
        agree_ready(pats, facts, qv),
        ground_matches(pats, facts),
        qv_covered(pats, qv),
        materialized(pats, facts, rels),
        join_answers(rels, qv, qv).contains(k),
    ensures
        s.dom() == qv.to_set(),
        crate::wcojoin::supported(rels, qv, s),
        forall|o: Map<u32, crate::term::Term>| #[trigger] crate::wcojoin::agrees(o, s, qv)
            && (forall|v: u32| #[trigger] o.contains_key(v) ==> encodable(o[v]@))
            ==> encoding(crate::join::sol_tuple(o, qv)) == k && encodable(crate::join::sol_tuple(o, qv)),
{
    let n = rels.len() as int;
    let rvs = rel_orders(rels, qv);
    lemma_rel_orders(pats, facts, qv, rels);
    let (ch, th) = choose|ch: Seq<int>, th: Map<u32, TermV>| #[trigger] join_row(rels, qv, qv, ch, th, k);
    lemma_picked_rows(pats, facts, qv, rels, ch);
    let vals = row_vals(rels, qv, ch);
    assert forall|r: int, d: int| 0 <= r < n && 0 <= d < rvs[r].len()
        implies crate::term::ground(#[trigger] vals[r][d]) && encodable(vals[r][d])
            && vals[r][d] == rels[r].tuples@[ch[r]]@[rvs[r][d]]@
            && subst(th, TermV::Var(rvs[r][d])) == vals[r][d] by {
        assert(vals[r].len() == rvs[r].len());
        assert(vars_of(pats[r]).contains(rvs[r][d]));
        assert(rels[r].tuples@[ch[r]]@.contains_key(rvs[r][d]));
        lemma_tuple_values_ground(pats, facts, qv, rels, r, ch[r], rvs[r][d]);
        assert(subst(th, TermV::Var(rvs[r][d])) == subst(th, vals[r][d]));
        crate::term::lemma_ground_fv(vals[r][d]);
        lemma_subst_noop(th, vals[r][d]);
    }
    // Each query variable is a row variable: take its value from one relation that binds it.
    assert forall|x: int| #![trigger qv[x]] 0 <= x < qv.len() implies exists|rd: (int, int)| 0 <= rd.0 < n && 0 <= rd.1 < rvs[rd.0].len()
        && #[trigger] rvs[rd.0][rd.1] == qv[x] by {
        let j = choose|j: int| 0 <= j < pats.len() && #[trigger] fv(pats[j]).contains(qv[x]);
        assert(rvs[j].contains(qv[x]));
        let d = choose|d: int| 0 <= d < rvs[j].len() && rvs[j][d] == qv[x];
        assert(rvs[(j, d).0][(j, d).1] == qv[x]);
    }
    let at = |v: u32| choose|rd: (int, int)| 0 <= rd.0 < n && 0 <= rd.1 < rvs[rd.0].len() && #[trigger] rvs[rd.0][rd.1] == v;
    let s = Map::new(|v: u32| qv.contains(v), |v: u32| rels[at(v).0].tuples@[ch[at(v).0]]@[v]);
    assert forall|v: u32| #[trigger] s.contains_key(v) implies s[v]@ == subst(th, TermV::Var(v))
        && crate::term::ground(s[v]@) && encodable(s[v]@) by {
        let x = choose|x: int| 0 <= x < qv.len() && qv[x] == v;
        assert(exists|rd: (int, int)| 0 <= rd.0 < n && 0 <= rd.1 < rvs[rd.0].len() && #[trigger] rvs[rd.0][rd.1] == qv[x]);
        let rd = at(v);
        assert(vals[rd.0][rd.1] == rels[rd.0].tuples@[ch[rd.0]]@[rvs[rd.0][rd.1]]@);
    }
    assert(s.dom() =~= qv.to_set());
    // The tuples the join picked support it.
    assert forall|r: int| 0 <= r < rels.len() && crate::wcojoin::restrict_order(qv, rels[r].vars@).len() > 0
        implies exists|x: int| 0 <= x < rels[r].tuples@.len()
            && #[trigger] crate::wcojoin::agrees(rels[r].tuples@[x]@, s, crate::wcojoin::restrict_order(qv, rels[r].vars@)) by {
        assert forall|l: int| 0 <= l < rvs[r].len() implies #[trigger] crate::wcojoin::agrees_at(rels[r].tuples@[ch[r]]@, s, rvs[r][l]) by {
            let v = rvs[r][l];
            assert(fv(pats[r]).contains(v)) by {
                assert(rvs[r].contains(v));
            }
            assert(qv.contains(v));
            assert(s.contains_key(v));
            assert(s[v]@ == subst(th, TermV::Var(v)));
            assert(vals[r][l] == rels[r].tuples@[ch[r]]@[v]@ && subst(th, TermV::Var(rvs[r][l])) == vals[r][l]);
            assert(rels[r].tuples@[ch[r]]@.contains_key(v)) by {
                assert(vars_of(pats[r]).contains(v));
            }
        }
        assert(0 <= ch[r] < rels[r].tuples@.len());
        assert(rvs[r] == crate::wcojoin::restrict_order(qv, rels[r].vars@));
        assert(crate::wcojoin::agrees(rels[r].tuples@[ch[r]]@, s, rvs[r]));
    }
    assert(tuple_of(th, qv) == crate::join::sol_tuple(s, qv)) by {
        assert forall|i: int| 0 <= i < qv.len() implies subst(th, TermV::Var(qv[i])) == s[qv[i]]@ && s.contains_key(qv[i]) by {
            assert(qv.contains(qv[i]));
        }
        assert(tuple_of(th, qv)->App_0 =~= crate::join::sol_tuple(s, qv)->App_0);
    }
    assert forall|o: Map<u32, crate::term::Term>| #[trigger] crate::wcojoin::agrees(o, s, qv)
        && (forall|v: u32| #[trigger] o.contains_key(v) ==> encodable(o[v]@))
        implies encoding(crate::join::sol_tuple(o, qv)) == k && encodable(crate::join::sol_tuple(o, qv)) by {
        assert forall|i: int| 0 <= i < qv.len() implies o.contains_key(qv[i]) && o[qv[i]]@ == s[qv[i]]@ by {
            assert(crate::wcojoin::agrees_at(o, s, qv[i]));
            lemma_ground_same(o[qv[i]]@, s[qv[i]]@);
        }
        assert(crate::join::sol_tuple(o, qv)->App_0 =~= crate::join::sol_tuple(s, qv)->App_0);
    }
    s
}


/// The inputs on which the equality leapfrog is compared with the matcher: those on which the
/// unification join is, with query variables that are distinct and each in some pattern, and
/// every match ground.
pub open spec fn leap_ready(pats: Seq<TermV>, facts: Seq<TermV>, qv: Seq<u32>) -> bool {
    &&& agree_ready(pats, facts, qv)
    &&& qv.no_duplicates()
    &&& qv_covered(pats, qv)
    &&& ground_matches(pats, facts)
}

/// Relations that cover every query variable constrain every query variable.
proof fn lemma_all_constrained(pats: Seq<TermV>, facts: Seq<TermV>, qv: Seq<u32>, rels: Seq<crate::wcojoin::Relation>)
    requires
        qv_covered(pats, qv),
        materialized(pats, facts, rels),
    ensures
        crate::wcojoin::all_constrained(rels, qv),
{
    assert forall|v: u32| #[trigger] qv.contains(v) implies exists|r: int| 0 <= r < rels.len() && #[trigger] rels[r].vars@.contains(v) by {
        let x = choose|x: int| 0 <= x < qv.len() && qv[x] == v;
        assert(exists|j: int| 0 <= j < pats.len() && #[trigger] fv(pats[j]).contains(qv[x]));
        let j = choose|j: int| 0 <= j < pats.len() && #[trigger] fv(pats[j]).contains(qv[x]);
        lemma_collect(pats[j], Seq::<u32>::empty());
        assert(rels[j].vars@ == vars_of(pats[j]));
        assert(vars_of(pats[j]).contains(v));
        assert(rels[j].vars@.contains(v));
    }
}

/// What the assignments the equality leapfrog returns, and the keys built from them, satisfy.
pub open spec fn leap_out(rels: Seq<crate::wcojoin::Relation>, qv: Seq<u32>,
    sols: Seq<std::collections::BTreeMap<u32, crate::term::Term>>, kv: Seq<Vec<u8>>) -> bool {
    &&& forall|x: int| 0 <= x < sols.len() ==> (#[trigger] sols[x])@.dom() == qv.to_set()
    &&& forall|x: int| 0 <= x < sols.len() ==> crate::wcojoin::supported(rels, qv, #[trigger] sols[x]@)
    &&& forall|x: int, v: u32| 0 <= x < sols.len() && #[trigger] sols[x]@.contains_key(v) ==> encodable(sols[x]@[v]@)
    &&& crate::wcojoin::all_constrained(rels, qv) ==> forall|s: Map<u32, crate::term::Term>|
        s.dom() == qv.to_set() && #[trigger] crate::wcojoin::supported(rels, qv, s) ==> crate::wcojoin::covers(sols, qv, s)
    &&& crate::join::keys_from(sols, qv, kv)
    &&& crate::join::keys_cover(sols, qv, kv)
}

proof fn lemma_leapfrog_sound(pats: Seq<TermV>, facts: Seq<TermV>, qv: Seq<u32>, rels: Seq<crate::wcojoin::Relation>,
    sols: Seq<std::collections::BTreeMap<u32, crate::term::Term>>, kv: Seq<Vec<u8>>, k: Seq<u8>)
    requires
        leap_ready(pats, facts, qv),
        materialized(pats, facts, rels),
        leap_out(rels, qv, sols, kv),
        crate::oracle::has_key(kv, k),
    ensures
        join_answers(rels, qv, qv).contains(k),
{
    let y = choose|y: int| 0 <= y < kv.len() && #[trigger] kv[y]@ == k;
    assert(exists|x: int| #![trigger sols[x]] 0 <= x < sols.len()
        && kv[y]@ == encoding(crate::join::sol_tuple(sols[x]@, qv)) && encodable(crate::join::sol_tuple(sols[x]@, qv)));
    let x = choose|x: int| #![trigger sols[x]] 0 <= x < sols.len()
        && kv[y]@ == encoding(crate::join::sol_tuple(sols[x]@, qv)) && encodable(crate::join::sol_tuple(sols[x]@, qv));
    let o = sols[x]@;
    assert(o.dom() == qv.to_set());
    assert forall|v: u32| #[trigger] o.contains_key(v) implies encodable(o[v]@) by {
        assert(sols[x]@.contains_key(v));
    }
    lemma_supported_in_join(pats, facts, qv, rels, o);
}

proof fn lemma_leapfrog_complete(pats: Seq<TermV>, facts: Seq<TermV>, qv: Seq<u32>, rels: Seq<crate::wcojoin::Relation>,
    sols: Seq<std::collections::BTreeMap<u32, crate::term::Term>>, kv: Seq<Vec<u8>>, k: Seq<u8>)
    requires
        leap_ready(pats, facts, qv),
        materialized(pats, facts, rels),
        leap_out(rels, qv, sols, kv),
        join_answers(rels, qv, qv).contains(k),
    ensures
        crate::oracle::has_key(kv, k),
{
    lemma_all_constrained(pats, facts, qv, rels);
    let s = lemma_join_supported(pats, facts, qv, rels, k);
    assert(crate::wcojoin::covers(sols, qv, s));
    let z = choose|z: int| 0 <= z < sols.len() && #[trigger] crate::wcojoin::agrees(sols[z]@, s, qv);
    let o = sols[z]@;
    assert forall|v: u32| #[trigger] o.contains_key(v) implies encodable(o[v]@) by {
        assert(sols[z]@.contains_key(v));
    }
    assert(encoding(crate::join::sol_tuple(o, qv)) == k && encodable(crate::join::sol_tuple(o, qv)));
}

/// Keys built from the assignments the equality leapfrog returns (each key the encoded tuple
/// of one of them, and every encodable such tuple a key) are exactly the matcher's answers, on
/// ground matches.
pub proof fn lemma_leapfrog_keys(pats: Seq<TermV>, facts: Seq<TermV>, qv: Seq<u32>, rels: Seq<crate::wcojoin::Relation>,
    sols: Seq<std::collections::BTreeMap<u32, crate::term::Term>>, kv: Seq<Vec<u8>>)
    requires
        leap_ready(pats, facts, qv),
        materialized(pats, facts, rels),
        leap_out(rels, qv, sols, kv),
    ensures
        forall|k: Seq<u8>| crate::oracle::has_key(kv, k) <==> #[trigger] answers(pats, facts, qv).contains(k),
{
    lemma_join_agrees(pats, facts, qv, rels);
    assert forall|k: Seq<u8>| crate::oracle::has_key(kv, k) <==> #[trigger] answers(pats, facts, qv).contains(k) by {
        if crate::oracle::has_key(kv, k) {
            lemma_leapfrog_sound(pats, facts, qv, rels, sols, kv, k);
        }
        if answers(pats, facts, qv).contains(k) {
            lemma_leapfrog_complete(pats, facts, qv, rels, sols, kv, k);
        }
    }
}


// --- the elimination order ---

/// The answer key `k` of a tuple laid out in the variable order `qv`, re-encoded as the tuple
/// of the same values laid out in the order `c`.
pub open spec fn rekey(k: Seq<u8>, qv: Seq<u32>, c: Seq<u32>) -> Seq<u8> {
    let a = decoded(k)->App_0;
    encoding(TermV::App(Seq::new(c.len(), |j: int| a[qv.index_of(c[j])])))
}

/// Re-encoding the key of an answer onto another order of its variables gives the key of the
/// answer in that order.
proof fn lemma_rekey(th: Map<u32, TermV>, qv: Seq<u32>, c: Seq<u32>)
    requires
        encodable(tuple_of(th, qv)),
        forall|j: int| 0 <= j < c.len() ==> qv.contains(#[trigger] c[j]),
    ensures
        rekey(key_of(th, qv), qv, c) == key_of(th, c),
{
    let t = tuple_of(th, qv);
    let tc = tuple_of(th, c);
    let a0 = t->App_0;
    let b0 = tc->App_0;
    let l = vars_of(t);
    let f = lab(l);
    let empty = Seq::<u32>::empty();
    lemma_decode_encoding(t);
    lemma_map_vars_app(a0, f);
    lemma_map_vars_app(b0, f);
    let a = decoded(key_of(th, qv))->App_0;
    assert(a == Seq::new(a0.len(), |j: int| map_vars(a0[j], f)));
    assert(Seq::new(c.len(), |j: int| a[qv.index_of(c[j])]) =~= Seq::new(b0.len(), |j: int| map_vars(b0[j], f))) by {
        assert forall|j: int| 0 <= j < c.len() implies a[qv.index_of(c[j])] == map_vars(b0[j], f) by {
            assert(qv.contains(c[j]));
            let i = qv.index_of(c[j]);
            assert(0 <= i < qv.len() && qv[i] == c[j]);
        }
    }
    lemma_collect(t, empty);
    lemma_fv_all(a0, a0.len());
    lemma_fv_all(b0, b0.len());
    assert(injective_on(f, empty.to_set().union(fv(tc)))) by {
        assert forall|x: u32, y: u32| empty.to_set().union(fv(tc)).contains(x) && empty.to_set().union(fv(tc)).contains(y)
            && #[trigger] f(x) == #[trigger] f(y) implies x == y by {
            assert forall|v: u32| empty.to_set().union(fv(tc)).contains(v) implies l.contains(v) by {
                assert(fv_all(b0, b0.len()).contains(v));
                let j = choose|j: int| 0 <= j < b0.len() && #[trigger] fv(b0[j]).contains(v);
                assert(qv.contains(c[j]));
                let i = qv.index_of(c[j]);
                assert(0 <= i < qv.len() && qv[i] == c[j]);
                assert(a0[i] == b0[j]);
                assert(fv_all(a0, a0.len()).contains(v));
            }
            assert(l.contains(x));
            assert(l.contains(y));
            let i = choose|i: int| 0 <= i < l.len() && l[i] == x;
            let j = choose|j: int| 0 <= j < l.len() && l[j] == y;
            lemma_index_of(l, i);
            lemma_index_of(l, j);
        }
    }
    lemma_enc_map(tc, empty, f);
    assert(empty.map_values(f) =~= empty);
}

/// An answer of the query in the order `qv` re-keyed onto `c` is the key, in the order `c`,
/// of a matching choice, and every such key comes from an answer.
proof fn lemma_rekey_answers(pats: Seq<TermV>, facts: Seq<TermV>, qv: Seq<u32>, c: Seq<u32>, k: Seq<u8>)
    requires
        ready(pats, qv, facts),
        forall|j: int| 0 <= j < c.len() ==> qv.contains(#[trigger] c[j]),
    ensures
        (exists|k1: Seq<u8>| #[trigger] answers(pats, facts, qv).contains(k1) && rekey(k1, qv, c) == k)
            <==> (exists|ch: Seq<int>| #[trigger] is_choice(ch, pats.len(), facts.len()) && matched(pats, facts, ch)
                && k == key_of(mgu(choice_pairs(pats, facts, ch)), c)),
{
    if exists|k1: Seq<u8>| #[trigger] answers(pats, facts, qv).contains(k1) && rekey(k1, qv, c) == k {
        let k1 = choose|k1: Seq<u8>| #[trigger] answers(pats, facts, qv).contains(k1) && rekey(k1, qv, c) == k;
        let ch = choose|ch: Seq<int>| #[trigger] is_choice(ch, pats.len(), facts.len()) && matched(pats, facts, ch)
            && k1 == answer_of(pats, facts, qv, ch);
        let ps = choice_pairs(pats, facts, ch);
        let th = mgu(ps);
        assert(is_mgu(th, ps));
        lemma_rekey(th, qv, c);
    }
    if exists|ch: Seq<int>| #[trigger] is_choice(ch, pats.len(), facts.len()) && matched(pats, facts, ch)
        && k == key_of(mgu(choice_pairs(pats, facts, ch)), c) {
        let ch = choose|ch: Seq<int>| #[trigger] is_choice(ch, pats.len(), facts.len()) && matched(pats, facts, ch)
            && k == key_of(mgu(choice_pairs(pats, facts, ch)), c);
        let ps = choice_pairs(pats, facts, ch);
        let th = mgu(ps);
        assert(is_mgu(th, ps));
        lemma_rekey(th, qv, c);
        let k1 = answer_of(pats, facts, qv, ch);
        assert(answers(pats, facts, qv).contains(k1));
    }
}

proof fn lemma_same_keys_at(r: Set<Vec<u8>>, a: Set<Seq<u8>>, k: Seq<u8>)
    requires
        same_keys(r, a),
    ensures
        (exists|x: Vec<u8>| #[trigger] r.contains(x) && x@ == k) <==> a.contains(k),
{
    reveal(same_keys);
}

/// The keys of `s` re-keyed from the order `qv` onto the order `c`.
pub open spec fn rekeyed(s: Set<Seq<u8>>, qv: Seq<u32>, c: Seq<u32>) -> Set<Seq<u8>> {
    Set::new(|k: Seq<u8>| exists|k1: Seq<u8>| #[trigger] s.contains(k1) && rekey(k1, qv, c) == k)
}

/// The byte strings of `r` re-keyed from the order `qv` onto the order `c`.
pub open spec fn rekeyed_vecs(r: Set<Vec<u8>>, qv: Seq<u32>, c: Seq<u32>) -> Set<Seq<u8>> {
    Set::new(|k: Seq<u8>| exists|x: Vec<u8>| #[trigger] r.contains(x) && rekey(x@, qv, c) == k)
}

/// The elimination order does not change the answers: two layouts `qv` and `qv2` of the query
/// variables give the same answers once each is re-keyed onto one order `c` of (some of) them.
pub proof fn law_elimination_order(pats: Seq<TermV>, facts: Seq<TermV>, qv: Seq<u32>, qv2: Seq<u32>, c: Seq<u32>)
    requires
        ready(pats, qv, facts),
        ready(pats, qv2, facts),
        forall|j: int| 0 <= j < c.len() ==> qv.contains(#[trigger] c[j]) && qv2.contains(c[j]),
    ensures
        rekeyed(answers(pats, facts, qv), qv, c) == rekeyed(answers(pats, facts, qv2), qv2, c),
{
    assert forall|k: Seq<u8>| rekeyed(answers(pats, facts, qv), qv, c).contains(k)
        <==> rekeyed(answers(pats, facts, qv2), qv2, c).contains(k) by {
        lemma_rekey_answers(pats, facts, qv, c, k);
        lemma_rekey_answers(pats, facts, qv2, c, k);
    }
    assert(rekeyed(answers(pats, facts, qv), qv, c) =~= rekeyed(answers(pats, facts, qv2), qv2, c));
}

/// The same law for two result sets that hold exactly the keys of those answers (what the
/// leapfrog unification join returns on inputs that meet `agree_ready`).
pub proof fn law_join_elimination_order(
    pats: Seq<TermV>,
    facts: Seq<TermV>,
    qv: Seq<u32>,
    qv2: Seq<u32>,
    c: Seq<u32>,
    r1: Set<Vec<u8>>,
    r2: Set<Vec<u8>>,
)
    requires
        ready(pats, qv, facts),
        ready(pats, qv2, facts),
        forall|j: int| 0 <= j < c.len() ==> qv.contains(#[trigger] c[j]) && qv2.contains(c[j]),
        same_keys(r1, answers(pats, facts, qv)),
        same_keys(r2, answers(pats, facts, qv2)),
    ensures
        rekeyed_vecs(r1, qv, c) == rekeyed_vecs(r2, qv2, c),
{
    law_elimination_order(pats, facts, qv, qv2, c);
    let a1 = rekeyed(answers(pats, facts, qv), qv, c);
    let a2 = rekeyed(answers(pats, facts, qv2), qv2, c);
    assert forall|k: Seq<u8>| rekeyed_vecs(r1, qv, c).contains(k) <==> a1.contains(k) by {
        if rekeyed_vecs(r1, qv, c).contains(k) {
            let x = choose|x: Vec<u8>| #[trigger] r1.contains(x) && rekey(x@, qv, c) == k;
            let xv = x@;
            assert(exists|y: Vec<u8>| #[trigger] r1.contains(y) && y@ == xv);
            lemma_same_keys_at(r1, answers(pats, facts, qv), xv);
            assert(a1.contains(k));
        }
        if a1.contains(k) {
            let k1 = choose|k1: Seq<u8>| #[trigger] answers(pats, facts, qv).contains(k1) && rekey(k1, qv, c) == k;
            lemma_same_keys_at(r1, answers(pats, facts, qv), k1);
            let y = choose|y: Vec<u8>| #[trigger] r1.contains(y) && y@ == k1;
            assert(rekeyed_vecs(r1, qv, c).contains(k));
        }
    }
    assert forall|k: Seq<u8>| rekeyed_vecs(r2, qv2, c).contains(k) <==> a2.contains(k) by {
        if rekeyed_vecs(r2, qv2, c).contains(k) {
            let x = choose|x: Vec<u8>| #[trigger] r2.contains(x) && rekey(x@, qv2, c) == k;
            let xv = x@;
            assert(exists|y: Vec<u8>| #[trigger] r2.contains(y) && y@ == xv);
            lemma_same_keys_at(r2, answers(pats, facts, qv2), xv);
            assert(a2.contains(k));
        }
        if a2.contains(k) {
            let k2 = choose|k2: Seq<u8>| #[trigger] answers(pats, facts, qv2).contains(k2) && rekey(k2, qv2, c) == k;
            lemma_same_keys_at(r2, answers(pats, facts, qv2), k2);
            let y = choose|y: Vec<u8>| #[trigger] r2.contains(y) && y@ == k2;
            assert(rekeyed_vecs(r2, qv2, c).contains(k));
        }
    }
    assert forall|k: Seq<u8>| rekeyed_vecs(r1, qv, c).contains(k) == rekeyed_vecs(r2, qv2, c).contains(k) by {
        assert(a1.contains(k) == a2.contains(k));
    }
    assert(rekeyed_vecs(r1, qv, c) =~= rekeyed_vecs(r2, qv2, c));
}


// --- the factor order ---

/// `p2` lists the patterns of `p` in the order `perm`: `p2[k]` is `p[perm[k]]`, and `perm`
/// takes every position exactly once.
pub open spec fn permutes(p: Seq<TermV>, p2: Seq<TermV>, perm: Seq<int>) -> bool {
    &&& perm.len() == p.len()
    &&& p2.len() == p.len()
    &&& forall|k: int| 0 <= k < perm.len() ==> 0 <= #[trigger] perm[k] < p.len() && p2[k] == p[perm[k]]
    &&& forall|k: int, l: int| 0 <= k < perm.len() && 0 <= l < perm.len() && k != l ==> #[trigger] perm[k] != #[trigger] perm[l]
    &&& forall|j: int| 0 <= j < p.len() ==> #[trigger] hits(perm, j)
}

/// Some position of `perm` holds `j`.
pub open spec fn hits(perm: Seq<int>, j: int) -> bool {
    exists|k: int| 0 <= k < perm.len() && #[trigger] perm[k] == j
}

/// Where `perm` sends position `j` back from.
pub open spec fn back_of(perm: Seq<int>, j: int) -> int {
    choose|k: int| 0 <= k < perm.len() && #[trigger] perm[k] == j
}

/// A choice for the patterns in the order `perm`, read off a choice `c` for the original order.
pub open spec fn permuted_choice(c: Seq<int>, perm: Seq<int>) -> Seq<int> {
    Seq::new(perm.len(), |k: int| c[perm[k]])
}

/// Two most general unifiers of problems with the same answer tuples give the same key.
proof fn lemma_key_from_eqs(t1: Map<u32, TermV>, ps1: Seq<(TermV, TermV)>, t2: Map<u32, TermV>, ps2: Seq<(TermV, TermV)>, qv: Seq<u32>)
    requires
        is_mgu(t1, ps1),
        is_mgu(t2, ps2),
        sols_eqs(ps1, qv) == sols_eqs(ps2, qv),
    ensures
        key_of(t1, qv) == key_of(t2, qv),
{
    let g1 = tuple_of(t1, qv);
    let g2 = tuple_of(t2, qv);
    assert(sols_eqs(ps1, qv).contains(g1));
    assert(sols_eqs(ps2, qv).contains(g2));
    let s1 = choose|s: Map<u32, TermV>| unifies(s, ps2) && g1 == #[trigger] tuple_of(s, qv);
    let s2 = choose|s: Map<u32, TermV>| unifies(s, ps1) && g2 == #[trigger] tuple_of(s, qv);
    assert(instance_of(s1, t2));
    assert(instance_of(s2, t1));
    lemma_tuple_instance(s1, t2, qv);
    lemma_tuple_instance(s2, t1, qv);
    lemma_mutual_instances(g2, g1, s1, s2);
}

/// A problem has a most general unifier when its answer tuples are those of one that has.
proof fn lemma_matched_from_eqs(ps1: Seq<(TermV, TermV)>, ps2: Seq<(TermV, TermV)>, qv: Seq<u32>)
    requires
        exists|th: Map<u32, TermV>| is_mgu(th, ps1),
        sols_eqs(ps1, qv) == sols_eqs(ps2, qv),
    ensures
        exists|th: Map<u32, TermV>| is_mgu(th, ps2),
{
    let t1 = choose|th: Map<u32, TermV>| is_mgu(th, ps1);
    assert(sols_eqs(ps1, qv).contains(tuple_of(t1, qv)));
    let s = choose|s: Map<u32, TermV>| unifies(s, ps2) && tuple_of(t1, qv) == #[trigger] tuple_of(s, qv);
    let t2 = lemma_mgu_exists(ps2, s);
}

/// Reordering the patterns (with the choice of facts reordered alike) keeps the answer tuples
/// of the renamed-apart problem.
proof fn lemma_sols_permuted(pats: Seq<TermV>, p2: Seq<TermV>, perm: Seq<int>, facts: Seq<TermV>, qv: Seq<u32>, c: Seq<int>)
    requires
        agree_ready(pats, facts, qv),
        agree_ready(p2, facts, qv),
        permutes(pats, p2, perm),
        is_choice(c, pats.len(), facts.len()),
    ensures
        is_choice(permuted_choice(c, perm), p2.len(), facts.len()),
        sols_eqs(choice_pairs(pats, facts, c), qv) == sols_eqs(choice_pairs(p2, facts, permuted_choice(c, perm)), qv),
{
    let n = pats.len();
    let c2 = permuted_choice(c, perm);
    assert(is_choice(c2, p2.len(), facts.len())) by {
        assert forall|k: int| 0 <= k < n implies 0 <= #[trigger] c2[k] < facts.len() by {
            assert(0 <= perm[k] < n);
        }
    }
    lemma_search_offs_ok(pats, facts, qv, c);
    lemma_search_offs_ok(p2, facts, qv, c2);
    let fs = chosen(facts, c);
    let fs2 = chosen(facts, c2);
    let o2 = search_offs(c2);
    let b = Seq::new(n, |j: int| o2[back_of(perm, j)]);
    assert forall|j: int| 0 <= j < n implies 0 <= #[trigger] back_of(perm, j) < n && perm[back_of(perm, j)] == j by {
        assert(hits(perm, j));
    }
    // The reordered problem is the original one, renamed by `b`, listed in another order.
    let e1 = off_eqs(pats, fs, b);
    let e2 = off_eqs(p2, fs2, o2);
    assert forall|j: int| 0 <= j < n implies #[trigger] e1[j] == e2[back_of(perm, j)] by {
        let k = back_of(perm, j);
        assert(p2[k] == pats[j]);
        assert(fs2[k] == facts[c2[k]]);
        assert(c2[k] == c[j]);
    }
    assert forall|k: int| 0 <= k < n implies #[trigger] e2[k] == e1[perm[k]] by {
        let j = perm[k];
        let k2 = back_of(perm, j);
        assert(perm[k2] == j);
        if k2 != k {
            assert(perm[k2] != perm[k]);
        }
    }
    assert forall|s2: Map<u32, TermV>| unifies(s2, e1) <==> unifies(s2, e2) by {
        if unifies(s2, e1) {
            assert forall|k: int| 0 <= k < e2.len() implies #[trigger] subst(s2, e2[k].0) == subst(s2, e2[k].1) by {
                assert(e2[k] == e1[perm[k]]);
            }
        }
        if unifies(s2, e2) {
            assert forall|j: int| 0 <= j < e1.len() implies #[trigger] subst(s2, e1[j].0) == subst(s2, e1[j].1) by {
                assert(e1[j] == e2[back_of(perm, j)]);
            }
        }
    }
    assert(sols_eqs(e1, qv) =~= sols_eqs(e2, qv));
    // `b` renames the original facts into disjoint blocks too.
    assert(offs_ok(fs, b)) by {
        assert forall|j: int| 0 <= j < b.len() implies DATA_VAR_BASE <= #[trigger] b[j] by {
            assert(DATA_VAR_BASE <= o2[back_of(perm, j)]);
        }
        assert forall|i: int, j: int| 0 <= i < b.len() && 0 <= j < b.len() && i != j
            implies #[trigger] b[i] + DATA_VAR_STRIDE <= #[trigger] b[j] || b[j] + DATA_VAR_STRIDE <= b[i] by {
            let ki = back_of(perm, i);
            let kj = back_of(perm, j);
            assert(ki != kj);
            assert(o2[ki] + DATA_VAR_STRIDE <= o2[kj] || o2[kj] + DATA_VAR_STRIDE <= o2[ki]);
        }
        assert forall|j: int, u: u32| 0 <= j < fs.len() && #[trigger] fv(fs[j]).contains(u)
            implies u < DATA_VAR_STRIDE && u + b[j] <= u32::MAX by {
            let k = back_of(perm, j);
            assert(fs2[k] == fs[j]);
            assert(fv(fs2[k]).contains(u));
        }
    }
    lemma_sols_moved(pats, fs, search_offs(c), b, qv);
    lemma_sols_moved(pats, fs, b, search_offs(c), qv);
    assert(sols_eqs(off_eqs(pats, fs, search_offs(c)), qv) =~= sols_eqs(e1, qv));
}

/// Every choice for the reordered patterns is the reordering of a choice for the original ones.
proof fn lemma_choice_unpermuted(pats: Seq<TermV>, p2: Seq<TermV>, perm: Seq<int>, facts: Seq<TermV>, c2: Seq<int>) -> (c: Seq<int>)
    requires
        permutes(pats, p2, perm),
        is_choice(c2, p2.len(), facts.len()),
    ensures
        is_choice(c, pats.len(), facts.len()),
        permuted_choice(c, perm) == c2,
{
    let n = pats.len();
    assert forall|j: int| 0 <= j < n implies 0 <= #[trigger] back_of(perm, j) < n && perm[back_of(perm, j)] == j by {
        assert(hits(perm, j));
    }
    let c = Seq::new(n, |j: int| c2[back_of(perm, j)]);
    assert forall|k: int| 0 <= k < n implies #[trigger] permuted_choice(c, perm)[k] == c2[k] by {
        let j = perm[k];
        let k2 = back_of(perm, j);
        if k2 != k {
            assert(perm[k2] != perm[k]);
        }
    }
    assert(permuted_choice(c, perm) =~= c2);
    c
}

/// The factor order does not change the answers: listing the patterns in another order gives
/// the same answer keys.
pub proof fn law_factor_order(pats: Seq<TermV>, p2: Seq<TermV>, perm: Seq<int>, facts: Seq<TermV>, qv: Seq<u32>)
    requires
        agree_ready(pats, facts, qv),
        agree_ready(p2, facts, qv),
        permutes(pats, p2, perm),
    ensures
        answers(pats, facts, qv) == answers(p2, facts, qv),
{
    assert forall|k: Seq<u8>| answers(pats, facts, qv).contains(k) implies answers(p2, facts, qv).contains(k) by {
        let c = choose|c: Seq<int>| #[trigger] is_choice(c, pats.len(), facts.len()) && matched(pats, facts, c)
            && k == answer_of(pats, facts, qv, c);
        let c2 = permuted_choice(c, perm);
        lemma_sols_permuted(pats, p2, perm, facts, qv, c);
        let ps1 = choice_pairs(pats, facts, c);
        let ps2 = choice_pairs(p2, facts, c2);
        lemma_matched_from_eqs(ps1, ps2, qv);
        assert(matched(p2, facts, c2));
        lemma_key_from_eqs(mgu(ps1), ps1, mgu(ps2), ps2, qv);
        assert(answer_of(p2, facts, qv, c2) == k);
    }
    assert forall|k: Seq<u8>| answers(p2, facts, qv).contains(k) implies answers(pats, facts, qv).contains(k) by {
        let c2 = choose|c2: Seq<int>| #[trigger] is_choice(c2, p2.len(), facts.len()) && matched(p2, facts, c2)
            && k == answer_of(p2, facts, qv, c2);
        let c = lemma_choice_unpermuted(pats, p2, perm, facts, c2);
        lemma_sols_permuted(pats, p2, perm, facts, qv, c);
        let ps1 = choice_pairs(pats, facts, c);
        let ps2 = choice_pairs(p2, facts, c2);
        lemma_matched_from_eqs(ps2, ps1, qv);
        assert(matched(pats, facts, c));
        lemma_key_from_eqs(mgu(ps2), ps2, mgu(ps1), ps1, qv);
        assert(answer_of(pats, facts, qv, c) == k);
    }
    assert(answers(pats, facts, qv) =~= answers(p2, facts, qv));
}

/// Neither the factor order nor the elimination order changes the answer set: two result sets
/// holding exactly the answer keys of the patterns in two orders, each laid out in its own order
/// of the query variables (what the leapfrog unification join returns on inputs that meet
/// `agree_ready`), re-keyed onto one variable order `c`, are the same.
pub proof fn law_join_order_independence(
    pats: Seq<TermV>,
    p2: Seq<TermV>,
    perm: Seq<int>,
    facts: Seq<TermV>,
    qv: Seq<u32>,
    qv2: Seq<u32>,
    c: Seq<u32>,
    r1: Set<Vec<u8>>,
    r2: Set<Vec<u8>>,
)
    requires
        agree_ready(pats, facts, qv),
        agree_ready(p2, facts, qv),
        agree_ready(p2, facts, qv2),
        permutes(pats, p2, perm),
        forall|j: int| 0 <= j < c.len() ==> qv.contains(#[trigger] c[j]) && qv2.contains(c[j]),
        same_keys(r1, answers(pats, facts, qv)),
        same_keys(r2, answers(p2, facts, qv2)),
    ensures
        rekeyed_vecs(r1, qv, c) == rekeyed_vecs(r2, qv2, c),
{
    law_factor_order(pats, p2, perm, facts, qv);
    law_join_elimination_order(p2, facts, qv, qv2, c, r1, r2);
}

} // verus!
