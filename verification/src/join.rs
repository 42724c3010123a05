//! The unification-aware conjunctive join, routed on a precise condition.
//!
//! Unification is free for the worst-case-optimal leapfrog as long as it resolves every
//! JOIN-position variable to a GROUND value. Then the join key is a ground term and the
//! leapfrog's equality intersection is exact, so even a query needing real unification runs
//! on the fast path. The equality leapfrog only fails when a schematic stored fact binds a join
//! variable to a NON-ground term: then the column-wise intersection would alias a free data
//! column to a value fixed by another relation. That case routes to the unification leapfrog.

use vstd::prelude::*;
use std::collections::{BTreeMap, BTreeSet};
use crate::term::{Term, TermV, ground, vars_of, views, vec_contains};
use crate::subst::subst;
use crate::oracle::{Conj, is_mgu, to_key_set, has_key};
use crate::wcojoin::{wco_join, Relation, supported, all_constrained, agrees, covers};
use crate::unijoin::{
    leapfrog_unify_join, materialize, mat_ready, mat_offset, pair_of, unmatched, tuple_from, tuple_ok, materialized, join_answers,
};

verus! {

broadcast use vstd::laws_cmp::group_laws_cmp, vstd::std_specs::btree::group_btree_axioms;

/// Which path answered the query.
#[derive(Debug, Clone, Copy, PartialEq, Eq, Structural)]
pub enum Path {
    /// The worst-case-optimal leapfrog (ground at every join position).
    Leapfrog,
    /// The unification leapfrog (a data variable reached a join position).
    Coupled,
}

/// What a join reports besides its answers.
#[derive(Debug, Clone, Copy)]
pub struct Stats {
    pub path: Path,
    /// Leapfrog node visits (the worst-case-optimal work measure); 0 on the coupled path.
    pub leapfrog_visits: u64,
}

/// In how many of the patterns variable `v` occurs.
pub open spec fn occurrences(pats: Seq<TermV>, v: u32) -> nat
    decreases pats.len(),
{
    if pats.len() == 0 {
        0
    } else {
        occurrences(pats.drop_last(), v) + if vars_of(pats.last()).contains(v) { 1nat } else { 0nat }
    }
}

/// A join variable: a query variable shared by two or more patterns.
pub open spec fn is_join_var(pats: Seq<TermV>, qv: Seq<u32>, v: u32) -> bool {
    qv.contains(v) && occurrences(pats, v) >= 2
}

/// Some pattern/fact match binds a join variable of the pattern to a non-ground value.
pub open spec fn schematic_at_join(pats: Seq<TermV>, facts: Seq<TermV>, qv: Seq<u32>) -> bool {
    exists|j: int, k: int, th: Map<u32, TermV>, v: u32| 0 <= j < pats.len() && 0 <= k < facts.len()
        && #[trigger] is_mgu(th, pair_of(pats[j], facts[k], mat_offset(j, k, facts.len() as int)))
        && #[trigger] vars_of(pats[j]).contains(v) && is_join_var(pats, qv, v)
        && !ground(subst(th, TermV::Var(v)))
}

/// Every join variable a tuple binds is bound to a ground value.
pub open spec fn ground_at_join(pats: Seq<TermV>, qv: Seq<u32>, t: Map<u32, Term>) -> bool {
    forall|v: u32| #[trigger] t.contains_key(v) && is_join_var(pats, qv, v) ==> ground(t[v]@)
}

/// Two tuples of values with one encoding are ground at the same positions.
proof fn lemma_same_key_ground(xs: Seq<TermV>, ys: Seq<TermV>, i: int)
    requires
        crate::term::encodable(TermV::App(xs)),
        crate::term::encodable(TermV::App(ys)),
        crate::term::encoding(TermV::App(xs)) == crate::term::encoding(TermV::App(ys)),
        0 <= i < xs.len(),
    ensures
        i < ys.len(),
        ground(xs[i]) == ground(ys[i]),
{
    let a = TermV::App(xs);
    let b = TermV::App(ys);
    crate::term::lemma_encoding_canon(a, b);
    let fa = crate::term::lab(vars_of(a));
    let fb = crate::term::lab(vars_of(b));
    crate::term::lemma_map_vars_app(xs, fa);
    crate::term::lemma_map_vars_app(ys, fb);
    assert(crate::term::canon(a)->App_0.len() == xs.len());
    assert(crate::term::canon(b)->App_0.len() == ys.len());
    assert(crate::term::canon(a)->App_0[i] == crate::term::map_vars(xs[i], fa));
    assert(crate::term::canon(b)->App_0[i] == crate::term::map_vars(ys[i], fb));
    crate::term::lemma_ground_map(xs[i], fa);
    crate::term::lemma_ground_map(ys[i], fb);
}

/// When every materialized tuple is ground at the join variables, no match binds a join
/// variable to a non-ground value: each match is represented by a tuple with its key.
proof fn lemma_not_schematic(pats: Seq<TermV>, facts: Seq<TermV>, qv: Seq<u32>, rels: Seq<Relation>)
    requires
        mat_ready(pats, facts),
        materialized(pats, facts, rels),
        forall|j: int, t: int| 0 <= j < rels.len() && 0 <= t < rels[j].tuples@.len()
            ==> ground_at_join(pats, qv, #[trigger] rels[j].tuples@[t]@),
    ensures
        !schematic_at_join(pats, facts, qv),
{
    if schematic_at_join(pats, facts, qv) {
        let (j, k, th, v) = choose|j: int, k: int, th: Map<u32, TermV>, v: u32| 0 <= j < pats.len() && 0 <= k < facts.len()
            && #[trigger] is_mgu(th, pair_of(pats[j], facts[k], mat_offset(j, k, facts.len() as int)))
            && #[trigger] vars_of(pats[j]).contains(v) && is_join_var(pats, qv, v)
            && !ground(subst(th, TermV::Var(v)));
        let vars = vars_of(pats[j]);
        assert(crate::unijoin::rel_complete(pats, facts, j, rels[j]));
        reveal(crate::unijoin::tuples_complete);
        let t = choose|t: int| 0 <= t < rels[j].tuples@.len()
            && #[trigger] crate::unijoin::tkey(rels[j].tuples@[t]@, vars) == crate::oracle::key_of(th, vars);
        let tup = rels[j].tuples@[t]@;
        assert(tuple_from(pats, facts, j, tup));
        let (k2, th2) = choose|k2: int, th2: Map<u32, TermV>| 0 <= k2 < facts.len()
            && #[trigger] is_mgu(th2, pair_of(pats[j], facts[k2], mat_offset(j, k2, facts.len() as int)))
            && tuple_ok(tup, vars, th2);
        let xs = Seq::new(vars.len(), |d: int| tup[vars[d]]@);
        let ys = crate::oracle::tuple_of(th, vars)->App_0;
        assert forall|d: int| 0 <= d < vars.len() implies xs[d] == crate::oracle::tuple_of(th2, vars)->App_0[d] by {
            assert(vars.contains(vars[d]));
            assert(tup.contains_key(vars[d]));
        }
        assert(TermV::App(xs) == crate::oracle::tuple_of(th2, vars)) by {
            assert(xs =~= crate::oracle::tuple_of(th2, vars)->App_0);
        }
        let d = vars.index_of(v);
        assert(0 <= d < vars.len() && vars[d] == v);
        lemma_same_key_ground(xs, ys, d);
        assert(tup.contains_key(v));
        assert(ground_at_join(pats, qv, tup));
        assert(ground(tup[v]@));
        assert(false);
    }
}

/// The query variables shared by two or more patterns, in query order.
fn join_vars(q: &Conj) -> (jv: Vec<u32>)
    ensures
        forall|v: u32| jv@.contains(v) <==> is_join_var(views(q.patterns@), q.query_vars@, v),
{
    let ghost pats = views(q.patterns@);
    let mut jv: Vec<u32> = Vec::new();
    let mut i: usize = 0;
    while i < q.query_vars.len()
        invariant
            pats == views(q.patterns@),
            i <= q.query_vars@.len(),
            forall|v: u32| jv@.contains(v) <==> (q.query_vars@.take(i as int).contains(v) && occurrences(pats, v) >= 2),
        decreases q.query_vars.len() - i,
    {
        let v = q.query_vars[i];
        let mut count: usize = 0;
        let mut p: usize = 0;
        while p < q.patterns.len()
            invariant
                pats == views(q.patterns@),
                p <= q.patterns@.len(),
                count <= p,
                count == occurrences(pats.take(p as int), v),
            decreases q.patterns.len() - p,
        {
            let ids = q.patterns[p].var_ids();
            proof {
                assert(pats.take(p + 1).drop_last() =~= pats.take(p as int));
                assert(pats.take(p + 1).last() == q.patterns@[p as int]@);
            }
            if vec_contains(&ids, v) {
                count += 1;
            }
            p += 1;
        }
        proof {
            assert(pats.take(pats.len() as int) =~= pats);
            assert(q.query_vars@.take(i + 1) =~= q.query_vars@.take(i as int).push(v));
        }
        let ghost j0 = jv@;
        if count >= 2 {
            jv.push(v);
        }
        proof {
            assert forall|u: u32| jv@.contains(u) <==> (q.query_vars@.take(i + 1).contains(u) && occurrences(pats, u) >= 2) by {
                if jv@.contains(u) && !j0.contains(u) {
                    let x = choose|x: int| 0 <= x < jv@.len() && jv@[x] == u;
                    assert(x == j0.len());
                    assert(q.query_vars@.take(i + 1)[i as int] == u);
                }
                if j0.contains(u) {
                    let x = choose|x: int| 0 <= x < j0.len() && j0[x] == u;
                    assert(jv@[x] == u);
                }
                if q.query_vars@.take(i + 1).contains(u) && occurrences(pats, u) >= 2 {
                    let x = choose|x: int| 0 <= x < i + 1 && #[trigger] q.query_vars@.take(i + 1)[x] == u;
                    if x < i {
                        assert(q.query_vars@.take(i as int)[x] == u);
                    } else {
                        assert(jv@[jv@.len() - 1] == u);
                    }
                }
            }
        }
        i += 1;
    }
    proof {
        assert(q.query_vars@.take(q.query_vars@.len() as int) =~= q.query_vars@);
    }
    jv
}

/// The tuple of the query variables' values in the assignment `s` (a variable it leaves
/// unassigned stands for itself).
pub open spec fn sol_tuple(s: Map<u32, Term>, qv: Seq<u32>) -> TermV {
    TermV::App(Seq::new(qv.len(), |i: int| if s.contains_key(qv[i]) { s[qv[i]]@ } else { TermV::Var(qv[i]) }))
}

/// What the equality leapfrog answers over the relations `rels`: every answer is the encoded
/// tuple of an assignment the relations support; and, when every query variable is constrained,
/// every supported assignment is matched (value by value, by encoding) by one whose encoded
/// tuple is an answer, unless the encoder refuses that tuple.
pub open spec fn leapfrog_answers(rels: Seq<Relation>, qv: Seq<u32>, res: Set<Vec<u8>>) -> bool {
    &&& forall|x: Vec<u8>| #[trigger] res.contains(x) ==> exists|s: Map<u32, Term>| #[trigger] supported(rels, qv, s)
        && x@ == crate::term::encoding(sol_tuple(s, qv))
    &&& all_constrained(rels, qv) ==> forall|s: Map<u32, Term>| s.dom() == qv.to_set() && #[trigger] supported(rels, qv, s)
        ==> exists|o: Map<u32, Term>| #[trigger] agrees(o, s, qv) && supported(rels, qv, o)
            && (crate::term::encodable(sol_tuple(o, qv)) ==> exists|x: Vec<u8>| #[trigger] res.contains(x)
                && x@ == crate::term::encoding(sol_tuple(o, qv)))
}

/// Every key is the encoded tuple of one of the assignments, one the encoder accepts.
pub open spec fn keys_from(sols: Seq<BTreeMap<u32, Term>>, qv: Seq<u32>, kv: Seq<Vec<u8>>) -> bool {
    forall|y: int| 0 <= y < kv.len() ==> exists|x: int| #![trigger sols[x]] 0 <= x < sols.len()
        && #[trigger] kv[y]@ == crate::term::encoding(sol_tuple(sols[x]@, qv))
        && crate::term::encodable(sol_tuple(sols[x]@, qv))
}

/// Every encoded tuple of an assignment the encoder accepts is a key.
pub open spec fn keys_cover(sols: Seq<BTreeMap<u32, Term>>, qv: Seq<u32>, kv: Seq<Vec<u8>>) -> bool {
    forall|x: int| 0 <= x < sols.len() && crate::term::encodable(sol_tuple(#[trigger] sols[x]@, qv))
        ==> has_key(kv, crate::term::encoding(sol_tuple(sols[x]@, qv)))
}

/// The encoded tuples of the query variables' values in each assignment, leaving out a tuple
/// the encoder refuses.
fn sol_keys(sols: &Vec<BTreeMap<u32, Term>>, query_vars: &Vec<u32>) -> (keys: Vec<Vec<u8>>)
    ensures
        keys_from(sols@, query_vars@, keys@),
        keys_cover(sols@, query_vars@, keys@),
{
    let ghost qv = query_vars@;
    let mut keys: Vec<Vec<u8>> = Vec::new();
    let mut s: usize = 0;
    while s < sols.len()
        invariant
            s <= sols@.len(),
            qv == query_vars@,
            keys_from(sols@.take(s as int), qv, keys@),
            keys_cover(sols@.take(s as int), qv, keys@),
        decreases sols.len() - s,
    {
        let sol = &sols[s];
        let mut vals: Vec<Term> = Vec::new();
        let mut i: usize = 0;
        while i < query_vars.len()
            invariant
                i <= query_vars@.len(),
                *sol == sols@[s as int],
                vals@.len() == i,
                forall|x: int| 0 <= x < i ==> #[trigger] vals@[x]@ == sol_tuple(sol@, query_vars@)->App_0[x],
            decreases query_vars.len() - i,
        {
            let v = query_vars[i];
            match sol.get(&v) {
                Some(val) => vals.push(val.clone()),
                None => vals.push(Term::Var(v)),
            }
            i += 1;
        }
        let tuple = Term::App(vals);
        proof {
            crate::term::lemma_view_app(vals);
            assert(tuple@ =~= sol_tuple(sol@, qv)) by {
                assert(views(vals@) =~= sol_tuple(sol@, qv)->App_0);
            }
        }
        let ghost k0 = keys@;
        let ghost cur = sols@[s as int]@;
        if tuple.is_encodable() {
            keys.push(tuple.encode());
            proof {
                assert(crate::term::encodable(sol_tuple(cur, qv)));
                assert(keys@[k0.len() as int]@ == crate::term::encoding(sol_tuple(cur, qv)));
            }
        }
        proof {
            let p0 = sols@.take(s as int);
            let p1 = sols@.take(s + 1);
            assert forall|x: int| 0 <= x < p1.len() && crate::term::encodable(sol_tuple(#[trigger] p1[x]@, qv))
                implies has_key(keys@, crate::term::encoding(sol_tuple(p1[x]@, qv))) by {
                if x < s {
                    assert(p1[x] == p0[x]);
                    let y = choose|y: int| 0 <= y < k0.len() && #[trigger] k0[y]@ == crate::term::encoding(sol_tuple(p0[x]@, qv));
                    assert(keys@[y] == k0[y]);
                } else {
                    assert(p1[x] == sols@[s as int]);
                    assert(keys@[k0.len() as int]@ == crate::term::encoding(sol_tuple(p1[x]@, qv)));
                }
            }
            assert forall|y: int| 0 <= y < keys@.len() implies exists|x: int| #![trigger p1[x]] 0 <= x < p1.len()
                && #[trigger] keys@[y]@ == crate::term::encoding(sol_tuple(p1[x]@, qv))
                && crate::term::encodable(sol_tuple(p1[x]@, qv)) by {
                if y < k0.len() {
                    assert(keys@[y] == k0[y]);
                    let x = choose|x: int| #![trigger p0[x]] 0 <= x < p0.len() && #[trigger] k0[y]@ == crate::term::encoding(sol_tuple(p0[x]@, qv))
                        && crate::term::encodable(sol_tuple(p0[x]@, qv));
                    assert(p1[x] == p0[x]);
                } else {
                    assert(keys@.len() == k0.len() + 1);
                    assert(p1[s as int] == sols@[s as int]);
                    assert(keys@[y]@ == crate::term::encoding(sol_tuple(p1[s as int]@, qv)));
                }
            }
        }
        s += 1;
    }
    proof {
        assert(sols@.take(sols@.len() as int) =~= sols@);
    }
    keys
}

/// What the equality leapfrog's keys are: the encoded tuples of supported assignments, every
/// supported assignment matched (when every query variable is constrained), and, on ground
/// matches, exactly the matcher's answers.
proof fn lemma_leapfrog_result(pats: Seq<TermV>, facts: Seq<TermV>, qv: Seq<u32>, rs: Seq<Relation>,
    sols: Seq<BTreeMap<u32, Term>>, kv: Seq<Vec<u8>>, r: Set<Vec<u8>>)
    requires
        materialized(pats, facts, rs),
        qv.no_duplicates() ==> forall|s: int| 0 <= s < sols.len() ==> #[trigger] sols[s]@.dom() == qv.to_set(),
        qv.no_duplicates() ==> forall|s: int| 0 <= s < sols.len() ==> supported(rs, qv, #[trigger] sols[s]@),
        qv.no_duplicates() && all_constrained(rs, qv) ==> forall|s: Map<u32, Term>|
            s.dom() == qv.to_set() && #[trigger] supported(rs, qv, s) ==> covers(sols, qv, s),
        forall|s: int, v: u32| 0 <= s < sols.len() && #[trigger] sols[s]@.contains_key(v) ==> crate::term::encodable(sols[s]@[v]@),
        keys_from(sols, qv, kv),
        keys_cover(sols, qv, kv),
        forall|k: Seq<u8>| (exists|x: Vec<u8>| #[trigger] r.contains(x) && x@ == k) <==> has_key(kv, k),
    ensures
        qv.no_duplicates() ==> leapfrog_answers(rs, qv, r),
        crate::agreement::leap_ready(pats, facts, qv) ==> crate::agreement::same_keys(r, crate::oracle::answers(pats, facts, qv)),
{
    if qv.no_duplicates() {
        assert forall|x: Vec<u8>| #[trigger] r.contains(x) implies exists|s: Map<u32, Term>| #[trigger] supported(rs, qv, s)
            && x@ == crate::term::encoding(sol_tuple(s, qv)) by {
            assert(has_key(kv, x@));
            let y = choose|y: int| 0 <= y < kv.len() && #[trigger] kv[y]@ == x@;
            assert(exists|z: int| #![trigger sols[z]] 0 <= z < sols.len() && kv[y]@ == crate::term::encoding(sol_tuple(sols[z]@, qv))
                && crate::term::encodable(sol_tuple(sols[z]@, qv)));
            let z = choose|z: int| #![trigger sols[z]] 0 <= z < sols.len() && kv[y]@ == crate::term::encoding(sol_tuple(sols[z]@, qv))
                && crate::term::encodable(sol_tuple(sols[z]@, qv));
            assert(supported(rs, qv, sols[z]@));
        }
        if all_constrained(rs, qv) {
            assert forall|s: Map<u32, Term>| s.dom() == qv.to_set() && #[trigger] supported(rs, qv, s)
                implies exists|o: Map<u32, Term>| #[trigger] agrees(o, s, qv) && supported(rs, qv, o)
                    && (crate::term::encodable(sol_tuple(o, qv)) ==> exists|x: Vec<u8>| #[trigger] r.contains(x)
                        && x@ == crate::term::encoding(sol_tuple(o, qv))) by {
                assert(covers(sols, qv, s));
                let z = choose|z: int| 0 <= z < sols.len() && #[trigger] agrees(sols[z]@, s, qv);
                let o = sols[z]@;
                assert(supported(rs, qv, o));
                if crate::term::encodable(sol_tuple(o, qv)) {
                    assert(has_key(kv, crate::term::encoding(sol_tuple(o, qv))));
                }
            }
        }
        assert(leapfrog_answers(rs, qv, r));
    }
    if crate::agreement::leap_ready(pats, facts, qv) {
        crate::agreement::lemma_leapfrog_keys(pats, facts, qv, rs, sols, kv);
        reveal(crate::agreement::same_keys);
        assert forall|k: Seq<u8>| (exists|x: Vec<u8>| #[trigger] r.contains(x) && x@ == k)
            <==> #[trigger] crate::oracle::answers(pats, facts, qv).contains(k) by {
            if crate::oracle::answers(pats, facts, qv).contains(k) {
                assert(has_key(kv, k));
            }
        }
    }
}

/// Answer `q` against `space`, choosing the path by the join-position condition: if some
/// pattern matches no fact the answer is empty; if a data variable reaches a join position
/// the unification leapfrog answers; otherwise the equality leapfrog does. An answer tuple the
/// encoder refuses is left out.
pub fn uni_join(q: &Conj, space: &[Term]) -> (res: (BTreeSet<Vec<u8>>, Stats))
    requires
        mat_ready(views(q.patterns@), views(space@)),
    ensures
        (exists|j: int| 0 <= j < q.patterns@.len() && #[trigger] unmatched(views(q.patterns@), views(space@), j)) ==> {
            &&& forall|x: Vec<u8>| !res.0@.contains(x)
            &&& res.1.path == Path::Leapfrog
            &&& res.1.leapfrog_visits == 0
        },
        res.1.path == Path::Coupled ==> res.1.leapfrog_visits == 0
            && schematic_at_join(views(q.patterns@), views(space@), q.query_vars@),
        !(exists|j: int| 0 <= j < q.patterns@.len() && #[trigger] unmatched(views(q.patterns@), views(space@), j))
            && schematic_at_join(views(q.patterns@), views(space@), q.query_vars@) ==> res.1.path == Path::Coupled,
        res.1.path == Path::Coupled ==> exists|rels: Seq<Relation>| #[trigger] materialized(views(q.patterns@), views(space@), rels)
            && forall|k: Seq<u8>| (exists|x: Vec<u8>| #[trigger] res.0@.contains(x) && x@ == k)
                <==> join_answers(rels, q.query_vars@, q.query_vars@).contains(k),
        res.1.path == Path::Leapfrog && q.query_vars@.no_duplicates()
            && !(exists|j: int| 0 <= j < q.patterns@.len() && #[trigger] unmatched(views(q.patterns@), views(space@), j))
            ==> exists|rels: Seq<Relation>| #[trigger] materialized(views(q.patterns@), views(space@), rels)
                && leapfrog_answers(rels, q.query_vars@, res.0@),
        res.1.path == Path::Leapfrog && crate::agreement::leap_ready(views(q.patterns@), views(space@), q.query_vars@)
            ==> crate::agreement::same_keys(res.0@, crate::oracle::answers(views(q.patterns@), views(space@), q.query_vars@)),
        crate::agreement::agree_ready(views(q.patterns@), views(space@), q.query_vars@)
            && (res.1.path == Path::Coupled
                || exists|j: int| 0 <= j < q.patterns@.len() && #[trigger] unmatched(views(q.patterns@), views(space@), j))
            ==> crate::agreement::same_keys(res.0@, crate::oracle::answers(views(q.patterns@), views(space@), q.query_vars@)),
{
    let ghost pats = views(q.patterns@);
    let ghost facts = views(space@);
    let jv = join_vars(q);
    let rels = match materialize(q, space) {
        Some(r) => r,
        None => {
            let r = to_key_set(Vec::new());
            proof {
                assert forall|x: Vec<u8>| !r@.contains(x) by {
                    assert(!has_key(Seq::<Vec<u8>>::empty(), x@));
                }
                if crate::agreement::agree_ready(pats, facts, q.query_vars@) {
                    let j = choose|j: int| 0 <= j < q.patterns@.len() && #[trigger] unmatched(pats, facts, j);
                    crate::agreement::lemma_unmatched_no_answers(pats, facts, q.query_vars@, j);
                    reveal(crate::agreement::same_keys);
                }
            }
            return (r, Stats { path: Path::Leapfrog, leapfrog_visits: 0 });
        },
    };
    // Detect a non-ground binding at a join position, the one case the equality leapfrog
    // cannot answer.
    let mut safe = true;
    let mut j: usize = 0;
    while j < rels.len()
        invariant
            pats == views(q.patterns@),
            facts == views(space@),
            j <= rels@.len(),
            rels@.len() == q.patterns@.len(),
            forall|x: int| 0 <= x < rels@.len() ==> (#[trigger] rels@[x]).vars@ == vars_of(q.patterns@[x]@),
            forall|x: int, t: int| 0 <= x < rels@.len() && 0 <= t < rels@[x].tuples@.len()
                ==> tuple_from(pats, facts, x, #[trigger] rels@[x].tuples@[t]@),
            forall|v: u32| jv@.contains(v) <==> is_join_var(pats, q.query_vars@, v),
            !safe ==> schematic_at_join(pats, facts, q.query_vars@),
            safe ==> forall|x: int, t: int| 0 <= x < j && 0 <= t < rels@[x].tuples@.len()
                ==> ground_at_join(pats, q.query_vars@, #[trigger] rels@[x].tuples@[t]@),
        decreases rels.len() - j,
    {
        let rel = &rels[j];
        let mut t: usize = 0;
        while t < rel.tuples.len()
            invariant
                pats == views(q.patterns@),
                facts == views(space@),
                j < rels@.len(),
                *rel == rels@[j as int],
                rels@.len() == q.patterns@.len(),
                rel.vars@ == vars_of(q.patterns@[j as int]@),
                forall|x: int| 0 <= x < rel.tuples@.len() ==> tuple_from(pats, facts, j as int, #[trigger] rel.tuples@[x]@),
                forall|v: u32| jv@.contains(v) <==> is_join_var(pats, q.query_vars@, v),
                t <= rel.tuples@.len(),
                !safe ==> schematic_at_join(pats, facts, q.query_vars@),
                safe ==> forall|x: int, t: int| 0 <= x < j && 0 <= t < rels@[x].tuples@.len()
                    ==> ground_at_join(pats, q.query_vars@, #[trigger] rels@[x].tuples@[t]@),
                safe ==> forall|u: int| 0 <= u < t ==> ground_at_join(pats, q.query_vars@, #[trigger] rel.tuples@[u]@),
            decreases rel.tuples.len() - t,
        {
            let tup = &rel.tuples[t];
            let mut x: usize = 0;
            while x < rel.vars.len()
                invariant
                    pats == views(q.patterns@),
                    facts == views(space@),
                    j < q.patterns@.len(),
                    rel.vars@ == vars_of(q.patterns@[j as int]@),
                    t < rel.tuples@.len(),
                    *tup == rel.tuples@[t as int],
                    tuple_from(pats, facts, j as int, tup@),
                    forall|v: u32| jv@.contains(v) <==> is_join_var(pats, q.query_vars@, v),
                    x <= rel.vars@.len(),
                    !safe ==> schematic_at_join(pats, facts, q.query_vars@),
                    safe ==> forall|x: int, t: int| 0 <= x < j && 0 <= t < rels@[x].tuples@.len()
                        ==> ground_at_join(pats, q.query_vars@, #[trigger] rels@[x].tuples@[t]@),
                    safe ==> forall|u: int| 0 <= u < t ==> ground_at_join(pats, q.query_vars@, #[trigger] rel.tuples@[u]@),
                    safe ==> forall|y: int| 0 <= y < x && #[trigger] tup@.contains_key(rel.vars@[y])
                        && is_join_var(pats, q.query_vars@, rel.vars@[y]) ==> ground(tup@[rel.vars@[y]]@),
                decreases rel.vars.len() - x,
            {
                let v = rel.vars[x];
                if vec_contains(&jv, v) {
                    match tup.get(&v) {
                        Some(val) => {
                            if !val.is_ground() {
                                proof {
                                    let (k, th) = choose|k: int, th: Map<u32, TermV>| 0 <= k < facts.len()
                                        && #[trigger] is_mgu(th, pair_of(pats[j as int], facts[k], mat_offset(j as int, k, facts.len() as int)))
                                        && tuple_ok(tup@, vars_of(pats[j as int]), th);
                                    assert(pats[j as int] == q.patterns@[j as int]@);
                                    assert(rel.vars@[x as int] == v);
                                    assert(vars_of(pats[j as int]).contains(v));
                                    assert(tup@.contains_key(v));
                                    assert(schematic_at_join(pats, facts, q.query_vars@));
                                }
                                safe = false;
                            }
                        },
                        None => {},
                    }
                }
                x += 1;
            }
            proof {
                if safe {
                    assert forall|v: u32| #[trigger] tup@.contains_key(v) && is_join_var(pats, q.query_vars@, v)
                        implies ground(tup@[v]@) by {
                        let (k, th) = choose|k: int, th: Map<u32, TermV>| 0 <= k < facts.len()
                            && #[trigger] is_mgu(th, pair_of(pats[j as int], facts[k], mat_offset(j as int, k, facts.len() as int)))
                            && tuple_ok(tup@, vars_of(pats[j as int]), th);
                        assert(pats[j as int] == q.patterns@[j as int]@);
                        assert(rel.vars@.contains(v));
                        let y = choose|y: int| 0 <= y < rel.vars@.len() && rel.vars@[y] == v;
                        assert(tup@.contains_key(rel.vars@[y]));
                    }
                    assert forall|u: int| 0 <= u < t + 1 implies ground_at_join(pats, q.query_vars@, #[trigger] rel.tuples@[u]@) by {
                        if u == t {
                            assert(rel.tuples@[u] == *tup);
                        }
                    }
                }
            }
            t += 1;
        }
        proof {
            if safe {
                assert forall|x: int, t: int| 0 <= x < j + 1 && 0 <= t < rels@[x].tuples@.len()
                    implies ground_at_join(pats, q.query_vars@, #[trigger] rels@[x].tuples@[t]@) by {
                    if x == j {
                        assert(rels@[x] == *rel);
                        assert(ground_at_join(pats, q.query_vars@, rel.tuples@[t]@));
                    }
                }
            }
        }
        j += 1;
    }
    if !safe {
        // A data variable reached a join position: make the per-variable intersection a
        // unification step.
        let r = leapfrog_unify_join(q, space);
        proof {
            assert(!(exists|j: int| 0 <= j < q.patterns@.len() && #[trigger] unmatched(pats, facts, j)));
        }
        return (r, Stats { path: Path::Coupled, leapfrog_visits: 0 });
    }
    // Ground at every join position: the worst-case-optimal equality leapfrog is exact.
    proof {
        lemma_not_schematic(pats, facts, q.query_vars@, rels@);
        assert(rels@.len() >= 1 ==> space@.len() < usize::MAX) by {
            if rels@.len() >= 1 {
                let n = q.patterns@.len() as int;
                let m = space@.len() as int;
                assert(m <= n * m) by (nonlinear_arith)
                    requires
                        n >= 1,
                        m >= 0,
                ;
            }
        }
    }
    let ghost rs = rels@;
    let ghost qv = q.query_vars@;
    let mut visits: u64 = 0;
    let sols = wco_join(&rels, &q.query_vars, &mut visits);
    let keys = sol_keys(&sols, &q.query_vars);
    let ghost kv = keys@;
    let r = to_key_set(keys);
    proof {
        lemma_leapfrog_result(pats, facts, qv, rs, sols@, kv, r@);
    }
    (r, Stats { path: Path::Leapfrog, leapfrog_visits: visits })
}

} // verus!
