//! Leapfrog triejoin extended with unification.
//!
//! The ground leapfrog triejoin is variable-at-a-time: it indexes each relation as a trie over
//! a shared variable order and, for each variable, intersects the participating relations'
//! domains by seeking in sorted tries (lead with the smallest domain, seek the rest), recursing
//! with no intermediate results. The intersection is by equality of the ground key.
//!
//! This module keeps that structure and makes the per-variable intersection a unification step
//! threaded through the trail in [`crate::unify::Env`]. A trie edge may carry a non-ground term
//! (a variable in the stored data). The leapfrog still leads with the smallest domain and seeks
//! the followers: when the lead pins the variable to a ground term, a follower finds the match
//! by binary search over its sorted ground children, and its non-ground children (wildcards)
//! are merged in by unification.

use vstd::prelude::*;
use std::collections::{BTreeMap, BTreeSet};
use crate::term::{Term, TermV, fv, ground, encodable, encoding, shift, vars_of, vec_contains};
use crate::subst::{subst, idem, instance_of};
use crate::unify::Env;
use crate::oracle::{Conj, DATA_VAR_BASE, DATA_VAR_STRIDE, tuple_of, key_of, unifies, is_mgu, answer_tuple, to_key_set, has_key};
use crate::wcojoin::{Relation, rel_encodable, bytes_less};
use crate::text::bytes_eq;

verus! {

broadcast use vstd::laws_cmp::group_laws_cmp, vstd::std_specs::btree::group_btree_axioms;

/// The id offset fact `k` (of `m`) gets when matched against pattern `j`.
pub open spec fn mat_offset(j: int, k: int, m: int) -> int {
    DATA_VAR_BASE + DATA_VAR_STRIDE * (j * m + k)
}

/// The one-pair problem of pattern `p` against fact `f` renamed by `off`.
pub open spec fn pair_of(p: TermV, f: TermV, off: int) -> Seq<(TermV, TermV)> {
    seq![(p, shift(f, off as u32))]
}

/// Pattern `j` unifies with fact `k`, the fact renamed apart.
pub open spec fn pair_matches(pats: Seq<TermV>, facts: Seq<TermV>, j: int, k: int) -> bool {
    exists|th: Map<u32, TermV>| is_mgu(th, pair_of(pats[j], facts[k], mat_offset(j, k, facts.len() as int)))
}

/// Pattern `j` matches none of the facts.
pub open spec fn unmatched(pats: Seq<TermV>, facts: Seq<TermV>, j: int) -> bool {
    forall|k: int| 0 <= k < facts.len() ==> !#[trigger] pair_matches(pats, facts, j, k)
}

/// What materializing needs of its inputs: the renamed ids fit in a `u32`, and every binding a
/// pattern/fact match produces can be encoded, alone and as the pattern's tuple.
pub open spec fn mat_ready(pats: Seq<TermV>, facts: Seq<TermV>) -> bool {
    &&& DATA_VAR_BASE + DATA_VAR_STRIDE * (pats.len() * facts.len() + 1) <= u32::MAX
    &&& forall|k: int, v: u32| 0 <= k < facts.len() && #[trigger] fv(facts[k]).contains(v)
        ==> v + DATA_VAR_BASE + DATA_VAR_STRIDE * (pats.len() * facts.len()) <= u32::MAX
    &&& forall|j: int, k: int, th: Map<u32, TermV>| 0 <= j < pats.len() && 0 <= k < facts.len()
        && #[trigger] is_mgu(th, pair_of(pats[j], facts[k], mat_offset(j, k, facts.len() as int)))
        ==> encodable(tuple_of(th, vars_of(pats[j])))
            && forall|v: u32| #[trigger] vars_of(pats[j]).contains(v) ==> encodable(subst(th, TermV::Var(v)))
}

/// `t` binds exactly `vars`, each to its value under `th`.
pub open spec fn tuple_ok(t: Map<u32, Term>, vars: Seq<u32>, th: Map<u32, TermV>) -> bool {
    &&& forall|v: u32| #[trigger] t.contains_key(v) <==> vars.contains(v)
    &&& forall|v: u32| #[trigger] t.contains_key(v) ==> t[v]@ == subst(th, TermV::Var(v))
}

/// `t` is the binding tuple of pattern `j` matched against some fact.
pub open spec fn tuple_from(pats: Seq<TermV>, facts: Seq<TermV>, j: int, t: Map<u32, Term>) -> bool {
    exists|k: int, th: Map<u32, TermV>| 0 <= k < facts.len()
        && #[trigger] is_mgu(th, pair_of(pats[j], facts[k], mat_offset(j, k, facts.len() as int)))
        && tuple_ok(t, vars_of(pats[j]), th)
}

/// The canonical key of a tuple over `vars`: the encoding of its values in that order.
pub open spec fn tkey(t: Map<u32, Term>, vars: Seq<u32>) -> Seq<u8> {
    encoding(TermV::App(Seq::new(vars.len(), |d: int| t[vars[d]]@)))
}

/// Every fact pattern `j` matches is represented among `tuples` by one with the same key.
#[verifier::opaque]
pub open spec fn tuples_complete(pats: Seq<TermV>, facts: Seq<TermV>, j: int, tuples: Seq<BTreeMap<u32, Term>>) -> bool {
    forall|k: int, th: Map<u32, TermV>| 0 <= k < facts.len()
        && #[trigger] is_mgu(th, pair_of(pats[j], facts[k], mat_offset(j, k, facts.len() as int)))
        ==> exists|t: int| 0 <= t < tuples.len()
            && #[trigger] tkey(tuples[t]@, vars_of(pats[j])) == key_of(th, vars_of(pats[j]))
}

/// Every fact pattern `j` matches is represented in `rel` by a tuple with the same key.
pub open spec fn rel_complete(pats: Seq<TermV>, facts: Seq<TermV>, j: int, rel: Relation) -> bool {
    tuples_complete(pats, facts, j, rel.tuples@)
}

proof fn lemma_offset_room(j: int, k: int, n: int, m: int)
    requires
        0 <= j < n,
        0 <= k < m,
    ensures
        j * m + k < n * m,
        j * m + k + 1 <= n * m,
        0 <= j * m + k,
{
    assert(j * m + k < n * m) by (nonlinear_arith)
        requires
            0 <= j < n,
            0 <= k < m,
    ;
    assert(0 <= j * m) by (nonlinear_arith)
        requires
            0 <= j,
            0 <= m,
    ;
}

/// The bindings of `vars` under the environment: as a map, and as a list in the order of `vars`.
fn binding_tuple(env: &Env, vars: &Vec<u32>) -> (res: (BTreeMap<u32, Term>, Vec<Term>))
    requires
        env.wf(),
    ensures
        tuple_ok(res.0@, vars@, env.sub()),
        crate::term::views(res.1@) == tuple_of(env.sub(), vars@)->App_0,
        TermV::App(Seq::new(vars@.len(), |d: int| res.0@[vars@[d]]@)) == tuple_of(env.sub(), vars@),
{
    let ghost th = env.sub();
    let mut tup: BTreeMap<u32, Term> = BTreeMap::new();
    let mut vals: Vec<Term> = Vec::new();
    let mut i: usize = 0;
    while i < vars.len()
        invariant
            env.wf(),
            env.sub() == th,
            i <= vars@.len(),
            vals@.len() == i,
            forall|x: int| 0 <= x < i ==> #[trigger] vals@[x]@ == subst(th, TermV::Var(vars@[x])),
            forall|v: u32| #[trigger] tup@.contains_key(v) <==> vars@.take(i as int).contains(v),
            forall|v: u32| #[trigger] tup@.contains_key(v) ==> tup@[v]@ == subst(th, TermV::Var(v)),
        decreases vars.len() - i,
    {
        let v = vars[i];
        let val = env.resolve(&Term::Var(v));
        vals.push(val.clone());
        tup.insert(v, val);
        proof {
            assert(vars@.take(i + 1) =~= vars@.take(i as int).push(v));
            assert forall|u: u32| #[trigger] tup@.contains_key(u) <==> vars@.take(i + 1).contains(u) by {
                if u == v {
                    assert(vars@.take(i + 1)[i as int] == v);
                }
            }
        }
        i += 1;
    }
    proof {
        assert(vars@.take(vars@.len() as int) =~= vars@);
        assert(crate::term::views(vals@) =~= tuple_of(th, vars@)->App_0);
        assert forall|d: int| 0 <= d < vars@.len() implies #[trigger] tup@[vars@[d]]@ == subst(th, TermV::Var(vars@[d])) by {
            assert(vars@.contains(vars@[d]));
            assert(tup@.contains_key(vars@[d]));
        }
        assert(Seq::new(vars@.len(), |d: int| tup@[vars@[d]]@) =~= tuple_of(th, vars@)->App_0);
    }
    (tup, vals)
}

/// Keep `tup` unless a tuple with its key is already kept.
fn push_unique(seen: &mut Vec<Vec<u8>>, tuples: &mut Vec<BTreeMap<u32, Term>>, tup: BTreeMap<u32, Term>, key: Vec<u8>,
    Ghost(vars): Ghost<Seq<u32>>)
    requires
        key@ == tkey(tup@, vars),
        old(seen)@.len() == old(tuples)@.len(),
        forall|t: int| 0 <= t < old(seen)@.len() ==> #[trigger] old(seen)@[t]@ == tkey(old(tuples)@[t]@, vars),
    ensures
        final(seen)@.len() == final(tuples)@.len(),
        forall|t: int| 0 <= t < final(seen)@.len() ==> #[trigger] final(seen)@[t]@ == tkey(final(tuples)@[t]@, vars),
        final(tuples)@ == old(tuples)@ || final(tuples)@ == old(tuples)@.push(tup),
        exists|t: int| 0 <= t < final(tuples)@.len() && #[trigger] tkey(final(tuples)@[t]@, vars) == key@,
{
    let mut dup = false;
    let mut s: usize = 0;
    while s < seen.len()
        invariant
            s <= seen@.len(),
            dup ==> exists|t: int| 0 <= t < seen@.len() && #[trigger] seen@[t]@ == key@,
        decreases seen.len() - s,
    {
        if bytes_eq(&seen[s], &key) {
            dup = true;
        }
        s += 1;
    }
    let ghost t0 = tuples@;
    let ghost sn0 = seen@;
    if dup {
        proof {
            let t = choose|t: int| 0 <= t < sn0.len() && #[trigger] sn0[t]@ == key@;
            assert(tkey(tuples@[t]@, vars) == key@);
        }
    } else {
        seen.push(key);
        tuples.push(tup);
        proof {
            assert forall|t: int| 0 <= t < seen@.len() implies #[trigger] seen@[t]@ == tkey(tuples@[t]@, vars) by {
                if t < sn0.len() {
                    assert(seen@[t] == sn0[t]);
                    assert(tuples@[t] == t0[t]);
                }
            }
            assert(tkey(tuples@[t0.len() as int]@, vars) == key@);
        }
    }
}

/// Match pattern `j` against every fact, renamed apart, into its relation of bindings: one tuple
/// per distinct key.
fn match_pattern(p: &Term, vars: &Vec<u32>, space: &[Term], fresh: &mut u32,
    Ghost(pats): Ghost<Seq<TermV>>, Ghost(j): Ghost<int>) -> (tuples: Vec<BTreeMap<u32, Term>>)
    requires
        mat_ready(pats, crate::term::views(space@)),
        0 <= j < pats.len(),
        pats[j] == p@,
        vars@ == vars_of(p@),
        *old(fresh) == DATA_VAR_BASE + DATA_VAR_STRIDE * (j * space@.len()),
    ensures
        *final(fresh) == DATA_VAR_BASE + DATA_VAR_STRIDE * (j * space@.len() + space@.len()),
        tuples@.len() <= space@.len(),
        forall|t: int| 0 <= t < tuples@.len() ==> tuple_from(pats, crate::term::views(space@), j, #[trigger] tuples@[t]@),
        forall|t: int, v: u32| 0 <= t < tuples@.len() && #[trigger] tuples@[t]@.contains_key(v)
            ==> encodable(tuples@[t]@[v]@),
        tuples@.len() > 0 <==> exists|x: int| 0 <= x < space@.len() && #[trigger] pair_matches(pats, crate::term::views(space@), j, x),
        tuples_complete(pats, crate::term::views(space@), j, tuples@),
{
    let ghost facts = crate::term::views(space@);
    let ghost n = pats.len() as int;
    let ghost m = facts.len() as int;
        let mut tuples: Vec<BTreeMap<u32, Term>> = Vec::new();
        let mut seen: Vec<Vec<u8>> = Vec::new();
        let mut k: usize = 0;
        while k < space.len()
            invariant
                facts == crate::term::views(space@),
                n == pats.len(),
                m == space@.len(),
                mat_ready(pats, facts),
                0 <= j < n,
                k <= m,
                pats[j] == p@,
                vars@ == vars_of(p@),
                *fresh == DATA_VAR_BASE + DATA_VAR_STRIDE * (j * m + k),
                tuples@.len() <= k,
                seen@.len() == tuples@.len(),
                forall|t: int| 0 <= t < tuples@.len() ==> tuple_from(pats, facts, j, #[trigger] tuples@[t]@),
                forall|t: int, v: u32| 0 <= t < tuples@.len() && #[trigger] tuples@[t]@.contains_key(v)
                    ==> encodable(tuples@[t]@[v]@),
                tuples@.len() > 0 <==> exists|x: int| 0 <= x < k && #[trigger] pair_matches(pats, facts, j, x),
                forall|t: int| 0 <= t < seen@.len() ==> #[trigger] seen@[t]@ == tkey(tuples@[t]@, vars@),
                forall|x: int, th: Map<u32, TermV>| 0 <= x < k
                    && #[trigger] is_mgu(th, pair_of(pats[j], facts[x], mat_offset(j, x, m)))
                    ==> exists|t: int| 0 <= t < tuples@.len() && #[trigger] tkey(tuples@[t]@, vars@) == key_of(th, vars@),
            decreases space.len() - k,
        {
            proof {
                lemma_offset_room(j, k as int, n, m);
                assert(DATA_VAR_STRIDE * (j * m + k) <= DATA_VAR_STRIDE * (n * m));
                assert forall|v: u32| fv(space@[k as int]@).contains(v) implies v + *fresh <= u32::MAX by {
                    assert(facts[k as int] == space@[k as int]@);
                }
            }
            let f = space[k].rename_apart(*fresh);
            let ghost off = *fresh as int;
            *fresh = *fresh + DATA_VAR_STRIDE;
            let mut env = Env::new();
            let ok = env.unify(p, &f);
            let ghost th = env.sub();
            let ghost ps = pair_of(pats[j], facts[k as int], mat_offset(j, k as int, m));
            proof {
                assert(off == mat_offset(j, k as int, m));
                assert(ps[0] == (p@, f@));
                if ok {
                    env.lemma_wf();
                    assert(unifies(th, ps));
                    assert forall|th2: Map<u32, TermV>| #[trigger] unifies(th2, ps) implies instance_of(th2, th) by {
                        assert(subst(th2, ps[0].0) == subst(th2, ps[0].1));
                        assert(instance_of(th2, Map::<u32, TermV>::empty()));
                    }
                    assert(is_mgu(th, ps));
                    assert(pair_matches(pats, facts, j, k as int));
                } else {
                    assert(!pair_matches(pats, facts, j, k as int)) by {
                        if pair_matches(pats, facts, j, k as int) {
                            let th2 = choose|th2: Map<u32, TermV>| is_mgu(th2, ps);
                            assert(instance_of(th2, Map::<u32, TermV>::empty()));
                            assert(unifies(th2, ps));
                            assert(subst(th2, ps[0].0) == subst(th2, ps[0].1));
                        }
                    }
                }
            }
            if ok {
                let (tup, vals) = binding_tuple(&env, &vars);
                proof {
                    assert(tuple_ok(tup@, vars_of(pats[j]), th));
                    assert(tuple_from(pats, facts, j, tup@));
                    crate::term::lemma_view_app(vals);
                    assert(encodable(tuple_of(th, vars_of(pats[j]))));
                    assert forall|v: u32| #[trigger] tup@.contains_key(v) implies encodable(tup@[v]@) by {
                        assert(vars_of(pats[j]).contains(v));
                    }
                }
                let key = Term::App(vals).encode();
                let ghost t0 = tuples@;
                push_unique(&mut seen, &mut tuples, tup, key, Ghost(vars@));
                proof {
                    assert forall|t: int| 0 <= t < tuples@.len() implies tuple_from(pats, facts, j, #[trigger] tuples@[t]@) by {
                        if t < t0.len() {
                            assert(tuples@[t] == t0[t]);
                        }
                    }
                    assert forall|t: int, v: u32| 0 <= t < tuples@.len() && #[trigger] tuples@[t]@.contains_key(v)
                        implies encodable(tuples@[t]@[v]@) by {
                        if t < t0.len() {
                            assert(tuples@[t] == t0[t]);
                        }
                    }
                    assert forall|x: int, th2: Map<u32, TermV>| 0 <= x < k
                        && #[trigger] is_mgu(th2, pair_of(pats[j], facts[x], mat_offset(j, x, m)))
                        implies exists|t: int| 0 <= t < tuples@.len() && #[trigger] tkey(tuples@[t]@, vars@) == key_of(th2, vars@) by {
                        let t = choose|t: int| 0 <= t < t0.len() && #[trigger] tkey(t0[t]@, vars@) == key_of(th2, vars@);
                        assert(tuples@[t] == t0[t]);
                    }
                }
            }
            proof {
                assert forall|x: int, th2: Map<u32, TermV>| 0 <= x < k + 1
                    && #[trigger] is_mgu(th2, pair_of(pats[j], facts[x], mat_offset(j, x, m)))
                    implies exists|t: int| 0 <= t < tuples@.len() && #[trigger] tkey(tuples@[t]@, vars@) == key_of(th2, vars@) by {
                    if x == k {
                        if ok {
                            crate::oracle::lemma_mgu_key(th, th2, ps, vars@);
                            assert(exists|t: int| 0 <= t < tuples@.len() && #[trigger] tkey(tuples@[t]@, vars@) == key_of(th, vars@));
                        } else {
                            assert(pair_matches(pats, facts, j, k as int));
                        }
                    }
                }
                assert forall|x: int| 0 <= x < k + 1 && pair_matches(pats, facts, j, x) implies tuples@.len() > 0 by {
                    if x < k {
                        assert(exists|y: int| 0 <= y < k && #[trigger] pair_matches(pats, facts, j, y));
                    }
                }
                if tuples@.len() > 0 {
                    if !ok {
                        let y = choose|y: int| 0 <= y < k && #[trigger] pair_matches(pats, facts, j, y);
                        assert(0 <= y < k + 1);
                    } else {
                        assert(0 <= k < k + 1 && pair_matches(pats, facts, j, k as int));
                    }
                }
                assert(DATA_VAR_STRIDE * (j * m + k) + DATA_VAR_STRIDE == DATA_VAR_STRIDE * (j * m + (k + 1)));
            }
            k += 1;
        }
    proof {
        reveal(tuples_complete);
    }
    tuples
}

/// Materialize each pattern into a relation of bindings (query variable to term) by unifying
/// the pattern against every fact. Each fact is renamed apart to its own variable range, so the
/// data variables of all tuples are distinct. Tuples with the same canonical key are kept once.
/// `None` when some pattern matches no fact (then the conjunction has no answer).
pub(crate) fn materialize(q: &Conj, space: &[Term]) -> (r: Option<Vec<Relation>>)
    requires
        mat_ready(crate::term::views(q.patterns@), crate::term::views(space@)),
    ensures
        r is None <==> exists|j: int| 0 <= j < q.patterns@.len()
            && #[trigger] unmatched(crate::term::views(q.patterns@), crate::term::views(space@), j),
        r matches Some(rels) ==> materialized(crate::term::views(q.patterns@), crate::term::views(space@), rels@),
{
    let ghost pats = crate::term::views(q.patterns@);
    let ghost facts = crate::term::views(space@);
    let ghost n = pats.len() as int;
    let ghost m = facts.len() as int;
    let mut fresh: u32 = DATA_VAR_BASE;
    let mut rels: Vec<Relation> = Vec::new();
    let mut j: usize = 0;
    while j < q.patterns.len()
        invariant
            pats == crate::term::views(q.patterns@),
            facts == crate::term::views(space@),
            n == q.patterns@.len(),
            m == space@.len(),
            mat_ready(pats, facts),
            j <= n,
            fresh == DATA_VAR_BASE + DATA_VAR_STRIDE * (j * m),
            rels@.len() == j,
            forall|x: int| 0 <= x < j ==> (#[trigger] rels@[x]).vars@ == vars_of(pats[x]),
            forall|x: int| 0 <= x < j ==> (#[trigger] rels@[x]).tuples@.len() > 0,
            forall|x: int| 0 <= x < j ==> rel_encodable(#[trigger] rels@[x]),
            forall|x: int| 0 <= x < j ==> (#[trigger] rels@[x]).tuples@.len() <= m,
            forall|x: int, t: int| 0 <= x < j && 0 <= t < rels@[x].tuples@.len()
                ==> tuple_from(pats, facts, x, #[trigger] rels@[x].tuples@[t]@),
            forall|x: int| 0 <= x < j ==> !#[trigger] unmatched(pats, facts, x),
            forall|x: int| 0 <= x < j ==> rel_complete(pats, facts, x, #[trigger] rels@[x]),
        decreases q.patterns.len() - j,
    {
        let p = &q.patterns[j];
        let vars = p.var_ids();
        proof {
            assert(pats[j as int] == p@);
        }
        let tuples = match_pattern(p, &vars, space, &mut fresh, Ghost(pats), Ghost(j as int));
        if tuples.len() == 0 {
            proof {
                assert forall|k: int| 0 <= k < m implies !#[trigger] pair_matches(pats, facts, j as int, k) by {
                    if pair_matches(pats, facts, j as int, k) {
                        assert(exists|x: int| 0 <= x < m && #[trigger] pair_matches(pats, facts, j as int, x));
                    }
                }
                assert(unmatched(pats, facts, j as int));
            }
            return None;
        }
        let ghost old_rels = rels@;
        let ghost tv = tuples@;
        rels.push(Relation { vars, tuples });
        proof {
            assert(j * m + m == (j + 1) * m) by (nonlinear_arith);
            assert(rels@[j as int].tuples@ == tv);
            assert forall|x: int| 0 <= x < j + 1 implies rel_encodable(#[trigger] rels@[x]) by {
                if x < j {
                    assert(rels@[x] == old_rels[x]);
                }
            }
            assert forall|x: int, t: int| 0 <= x < j + 1 && 0 <= t < rels@[x].tuples@.len()
                implies tuple_from(pats, facts, x, #[trigger] rels@[x].tuples@[t]@) by {
                if x < j {
                    assert(rels@[x] == old_rels[x]);
                }
            }
            assert(!unmatched(pats, facts, j as int)) by {
                let y = choose|y: int| 0 <= y < m && #[trigger] pair_matches(pats, facts, j as int, y);
            }
            assert forall|x: int| 0 <= x < j + 1 implies rel_complete(pats, facts, x, #[trigger] rels@[x]) by {
                if x < j {
                    assert(rels@[x] == old_rels[x]);
                } else {
                    assert(rels@[x].vars@ == vars_of(pats[x]));
                }
            }
        }
        j += 1;
    }
    proof {
        assert(!exists|x: int| 0 <= x < n && #[trigger] unmatched(pats, facts, x)) by {
            if exists|x: int| 0 <= x < n && #[trigger] unmatched(pats, facts, x) {
                let x = choose|x: int| 0 <= x < n && #[trigger] unmatched(pats, facts, x);
                assert(!unmatched(pats, facts, x));
            }
        }
    }
    Some(rels)
}


/// One trie edge of a relation's index: the variable's value, its canonical key (for sorted
/// seeking), and the edges below it (indices into the trie's node list). After `finalize`, the
/// first `n_ground` children are the ground values, ordered by key; the rest carry variables
/// (wildcards), matched by unification. Sibling values are distinct: a tuple value equal to an
/// existing child's value shares that child.
struct UNode {
    key: Vec<u8>,
    val: Term,
    children: Vec<usize>,
    n_ground: usize,
    /// The values on the path from the root down to this node.
    path: Ghost<Seq<TermV>>,
}

/// One relation's trie (node 0 is the root) plus the subsequence of the variable order it
/// constrains.
struct UTrie {
    rel_vars: Vec<u32>,
    nodes: Vec<UNode>,
}

/// `q` is a prefix of `p`.
pub open spec fn prefix_of(q: Seq<TermV>, p: Seq<TermV>) -> bool {
    q.len() <= p.len() && p.take(q.len() as int) == q
}

/// Node `n` has a child whose value is `t`.
spec fn has_child_val(ns: Seq<UNode>, n: int, t: TermV) -> bool {
    exists|a: int| 0 <= a < ns[n].children@.len() && ns[#[trigger] ns[n].children@[a] as int].val@ == t
}

/// The path of node `n` starts one of the projections.
spec fn covered(ns: Seq<UNode>, projs: Seq<Seq<TermV>>, n: int) -> bool {
    exists|x: int| 0 <= x < projs.len() && #[trigger] prefix_of(ns[n].path@, projs[x])
}

/// Child `c` of `n` extends its parent's path by its value, and its key encodes that value.
spec fn child_ok(ns: Seq<UNode>, n: int, c: int) -> bool {
    &&& 0 <= c < ns.len()
    &&& ns[c].path@ == ns[n].path@.push(ns[c].val@)
    &&& ns[c].key@ == encoding(ns[c].val@)
    &&& encodable(ns[c].val@)
}

/// The structure of a trie: children name nodes and extend their parent's path, siblings carry
/// distinct values, and no two nodes have the same path.
spec fn nodes_shape(ns: Seq<UNode>) -> bool {
    &&& ns.len() >= 1
    &&& ns[0].path@ == Seq::<TermV>::empty()
    &&& forall|n: int, a: int| 0 <= n < ns.len() && 0 <= a < ns[n].children@.len()
        ==> child_ok(ns, n, #[trigger] ns[n].children@[a] as int)
    &&& forall|n: int, a: int, b: int| #![trigger ns[n].children@[a], ns[n].children@[b]]
        0 <= n < ns.len() && 0 <= a < ns[n].children@.len() && 0 <= b < ns[n].children@.len() && a != b
        ==> ns[ns[n].children@[a] as int].val@ != ns[ns[n].children@[b] as int].val@
    &&& forall|n1: int, n2: int| #![trigger ns[n1].path@, ns[n2].path@]
        0 <= n1 < ns.len() && 0 <= n2 < ns.len() && ns[n1].path@ == ns[n2].path@ ==> n1 == n2
}

/// The trie holds exactly the projections `projs` (each of length `len`): every node's path
/// starts one of them, and every projection that passes through a node continues into one of
/// its children.
spec fn nodes_hold(ns: Seq<UNode>, projs: Seq<Seq<TermV>>, len: nat) -> bool {
    &&& forall|x: int| 0 <= x < projs.len() ==> (#[trigger] projs[x]).len() == len
    &&& forall|n: int| 0 < n < ns.len() ==> #[trigger] covered(ns, projs, n)
    &&& forall|n: int, x: int| 0 <= n < ns.len() && 0 <= x < projs.len() && #[trigger] prefix_of(ns[n].path@, projs[x])
        && ns[n].path@.len() < len ==> has_child_val(ns, n, projs[x][ns[n].path@.len() as int])
}

/// The children of node `n` are ground first, and the ground ones are strictly ordered by key.
spec fn kids_sorted(ns: Seq<UNode>, n: int) -> bool {
    &&& ns[n].n_ground <= ns[n].children@.len()
    &&& forall|a: int| 0 <= a < ns[n].children@.len() ==> (ground(ns[#[trigger] ns[n].children@[a] as int].val@) <==> a < ns[n].n_ground)
    &&& forall|a: int, b: int| #![trigger ns[n].children@[a], ns[n].children@[b]] 0 <= a < b < ns[n].n_ground
        ==> crate::wcojoin::bytes_lt(ns[ns[n].children@[a] as int].key@, ns[ns[n].children@[b] as int].key@)
}

impl UTrie {
    /// The structure of the trie, with every node's children sorted for seeking.
    spec fn wf(&self) -> bool {
        &&& nodes_shape(self.nodes@)
        &&& forall|n: int| 0 <= n < self.nodes@.len() ==> #[trigger] kids_sorted(self.nodes@, n)
    }

    /// The trie indexes the projections `projs` of its relation's tuples onto `rel_vars`, with
    /// every node's children sorted for seeking.
    spec fn indexes(&self, projs: Seq<Seq<TermV>>) -> bool {
        &&& nodes_shape(self.nodes@)
        &&& nodes_hold(self.nodes@, projs, self.rel_vars@.len() as nat)
        &&& forall|n: int| 0 <= n < self.nodes@.len() ==> #[trigger] kids_sorted(self.nodes@, n)
        &&& projs.len() > 0
    }
}

/// Child `a` sorts before child `b`: ground before non-ground, then by key.
fn child_before(ga: bool, ka: &Vec<u8>, gb: bool, kb: &Vec<u8>) -> (r: bool)
    ensures
        r == ((ga && !gb) || (ga == gb && crate::wcojoin::bytes_lt(ka@, kb@))),
{
    if ga != gb {
        ga
    } else {
        bytes_less(ka, kb)
    }
}

/// What inserting the projection `p` keeps while it walks down at depth `i`: nodes before `n0`
/// are the old ones, covered by the old projections; the nodes made so far lie on `p` and on no
/// old projection; the old projections stay complete, and `p` is complete down to depth `i`.
spec fn ins_inv(ns: Seq<UNode>, p: Seq<TermV>, i: int, projs: Seq<Seq<TermV>>, n0: int, len: nat) -> bool {
    &&& 1 <= n0 <= ns.len()
    &&& p.len() == len
    &&& forall|x: int| 0 <= x < projs.len() ==> (#[trigger] projs[x]).len() == len
    &&& forall|n: int| 0 < n < n0 ==> #[trigger] covered(ns, projs, n)
    &&& forall|n: int| n0 <= n < ns.len() ==> prefix_of(#[trigger] ns[n].path@, p) && ns[n].path@.len() <= i
    &&& forall|n: int, x: int| n0 <= n < ns.len() && 0 <= x < projs.len() ==> !#[trigger] prefix_of(ns[n].path@, projs[x])
    &&& forall|n: int, x: int| 0 <= n < ns.len() && 0 <= x < projs.len() && #[trigger] prefix_of(ns[n].path@, projs[x])
        && ns[n].path@.len() < len ==> has_child_val(ns, n, projs[x][ns[n].path@.len() as int])
    &&& forall|n: int| 0 <= n < ns.len() && #[trigger] prefix_of(ns[n].path@, p) && ns[n].path@.len() < i
        ==> has_child_val(ns, n, p[ns[n].path@.len() as int])
}

/// Following an existing child with the next value of `p` keeps the walk's invariant.
proof fn lemma_follow_child(ns: Seq<UNode>, p: Seq<TermV>, i: int, projs: Seq<Seq<TermV>>, n0: int, len: nat, node: int, a: int)
    requires
        nodes_shape(ns),
        ins_inv(ns, p, i, projs, n0, len),
        0 <= i < len,
        0 <= node < ns.len(),
        ns[node].path@ == p.take(i),
        0 <= a < ns[node].children@.len(),
        ns[ns[node].children@[a] as int].val@ == p[i],
    ensures
        ins_inv(ns, p, i + 1, projs, n0, len),
        ns[ns[node].children@[a] as int].path@ == p.take(i + 1),
{
    assert(child_ok(ns, node, ns[node].children@[a] as int));
    assert(p.take(i + 1) =~= p.take(i).push(p[i]));
    assert forall|n: int| 0 <= n < ns.len() && #[trigger] prefix_of(ns[n].path@, p) && ns[n].path@.len() < i + 1
        implies has_child_val(ns, n, p[ns[n].path@.len() as int]) by {
        if ns[n].path@.len() == i {
            assert(ns[n].path@ =~= p.take(i));
            assert(n == node);
        }
    }
}

/// Adding a fresh child `id` of `node` for the next value of `p` keeps the trie's structure and
/// the walk's invariant.
proof fn lemma_add_child(ns1: Seq<UNode>, ns3: Seq<UNode>, p: Seq<TermV>, i: int, projs: Seq<Seq<TermV>>, n0: int, len: nat, node: int)
    requires
        nodes_shape(ns1),
        ins_inv(ns1, p, i, projs, n0, len),
        0 <= i < len,
        0 <= node < ns1.len(),
        ns1[node].path@ == p.take(i),
        forall|y: int| 0 <= y < ns1[node].children@.len() ==> ns1[#[trigger] ns1[node].children@[y] as int].val@ != p[i],
        ns1.len() <= usize::MAX,
        ns3.len() == ns1.len() + 1,
        forall|n: int| 0 <= n < ns1.len() && n != node ==> #[trigger] ns3[n] == ns1[n],
        ns3[node].children@ == ns1[node].children@.push(ns1.len() as usize),
        ns3[node].path@ == ns1[node].path@,
        ns3[node].val@ == ns1[node].val@,
        ns3[node].key@ == ns1[node].key@,
        ns3[ns1.len() as int].path@ == p.take(i + 1),
        ns3[ns1.len() as int].val@ == p[i],
        ns3[ns1.len() as int].key@ == encoding(p[i]),
        encodable(p[i]),
        ns3[ns1.len() as int].children@.len() == 0,
    ensures
        nodes_shape(ns3),
        ins_inv(ns3, p, i + 1, projs, n0, len),
{
    let id = ns1.len() as int;
    let np = p.take(i + 1);
    assert(np =~= p.take(i).push(p[i]));
    assert forall|n: int| 0 <= n < ns1.len() implies #[trigger] ns3[n].path@ == ns1[n].path@ && ns3[n].val@ == ns1[n].val@
        && ns3[n].key@ == ns1[n].key@ by {
        if n != node {
            assert(ns3[n] == ns1[n]);
        }
    }
    assert forall|n: int| 0 <= n < ns1.len() && n != node implies #[trigger] ns3[n].children@ == ns1[n].children@ by {
        assert(ns3[n] == ns1[n]);
    }
    // no old projection runs through the new path
    assert forall|x: int| 0 <= x < projs.len() implies !prefix_of(np, #[trigger] projs[x]) by {
        if prefix_of(np, projs[x]) {
            assert(projs[x].take(i) =~= np.take(i));
            assert(np.take(i) =~= p.take(i));
            assert(prefix_of(ns1[node].path@, projs[x]));
            assert(has_child_val(ns1, node, projs[x][i]));
            assert(projs[x][i] == np[i]);
            let a = choose|a: int| 0 <= a < ns1[node].children@.len()
                && ns1[#[trigger] ns1[node].children@[a] as int].val@ == projs[x][i];
        }
    }
    assert forall|m: int| 0 <= m < ns1.len() implies ns1[m].path@ != np by {
        if ns1[m].path@ == np {
            if m >= n0 {
            } else {
                assert(m != 0);
                assert(covered(ns1, projs, m));
                let x = choose|x: int| 0 <= x < projs.len() && #[trigger] prefix_of(ns1[m].path@, projs[x]);
            }
        }
    }
    // structure
    assert forall|n: int, a: int| 0 <= n < ns3.len() && 0 <= a < ns3[n].children@.len()
        implies child_ok(ns3, n, #[trigger] ns3[n].children@[a] as int) by {
        if n < ns1.len() {
            if n != node || a < ns1[node].children@.len() {
                assert(ns3[n].children@[a] == ns1[n].children@[a]);
                assert(child_ok(ns1, n, ns1[n].children@[a] as int));
            }
        }
    }
    assert forall|n: int, a: int, b: int| #![trigger ns3[n].children@[a], ns3[n].children@[b]]
        0 <= n < ns3.len() && 0 <= a < ns3[n].children@.len() && 0 <= b < ns3[n].children@.len() && a != b
        implies ns3[ns3[n].children@[a] as int].val@ != ns3[ns3[n].children@[b] as int].val@ by {
        if n < ns1.len() {
            let k = ns1[n].children@.len() as int;
            if a < k {
                assert(ns3[n].children@[a] == ns1[n].children@[a]);
                assert(child_ok(ns1, n, ns1[n].children@[a] as int));
            }
            if b < k {
                assert(ns3[n].children@[b] == ns1[n].children@[b]);
                assert(child_ok(ns1, n, ns1[n].children@[b] as int));
            }
            if a < k && b < k {
                assert(ns1[ns1[n].children@[a] as int].val@ != ns1[ns1[n].children@[b] as int].val@);
            } else if a < k {
                assert(ns1[#[trigger] ns1[node].children@[a] as int].val@ != p[i]);
            } else {
                assert(ns1[#[trigger] ns1[node].children@[b] as int].val@ != p[i]);
            }
        }
    }
    assert forall|n1: int, n2: int| #![trigger ns3[n1].path@, ns3[n2].path@]
        0 <= n1 < ns3.len() && 0 <= n2 < ns3.len() && ns3[n1].path@ == ns3[n2].path@ implies n1 == n2 by {
        if n1 < ns1.len() && n2 < ns1.len() {
            assert(ns1[n1].path@ == ns1[n2].path@);
        } else if n1 < ns1.len() {
            assert(ns1[n1].path@ != np);
        } else if n2 < ns1.len() {
            assert(ns1[n2].path@ != np);
        }
    }
    assert(nodes_shape(ns3));
    // the walk's invariant
    assert forall|n: int, x: int| 0 <= n < ns3.len() && 0 <= x < projs.len() && #[trigger] prefix_of(ns3[n].path@, projs[x])
        && ns3[n].path@.len() < len implies has_child_val(ns3, n, projs[x][ns3[n].path@.len() as int]) by {
        if n < ns1.len() {
            assert(has_child_val(ns1, n, projs[x][ns1[n].path@.len() as int]));
            let a = choose|a: int| 0 <= a < ns1[n].children@.len()
                && ns1[#[trigger] ns1[n].children@[a] as int].val@ == projs[x][ns1[n].path@.len() as int];
            assert(child_ok(ns1, n, ns1[n].children@[a] as int));
            assert(ns3[n].children@[a] == ns1[n].children@[a]);
        }
    }
    assert forall|n: int| 0 <= n < ns3.len() && #[trigger] prefix_of(ns3[n].path@, p) && ns3[n].path@.len() < i + 1
        implies has_child_val(ns3, n, p[ns3[n].path@.len() as int]) by {
        if n < ns1.len() {
            if ns1[n].path@.len() < i {
                assert(has_child_val(ns1, n, p[ns1[n].path@.len() as int]));
                let a = choose|a: int| 0 <= a < ns1[n].children@.len()
                    && ns1[#[trigger] ns1[n].children@[a] as int].val@ == p[ns1[n].path@.len() as int];
                assert(child_ok(ns1, n, ns1[n].children@[a] as int));
                assert(ns3[n].children@[a] == ns1[n].children@[a]);
            } else {
                assert(ns1[n].path@ =~= p.take(i));
                assert(n == node);
                let k = ns1[node].children@.len() as int;
                assert(ns3[n].children@[k] == id);
            }
        }
    }
    assert forall|n: int| 0 < n < n0 implies #[trigger] covered(ns3, projs, n) by {
        assert(covered(ns1, projs, n));
        let x = choose|x: int| 0 <= x < projs.len() && #[trigger] prefix_of(ns1[n].path@, projs[x]);
        assert(prefix_of(ns3[n].path@, projs[x]));
    }
    assert forall|n: int| n0 <= n < ns3.len() implies prefix_of(#[trigger] ns3[n].path@, p) && ns3[n].path@.len() <= i + 1 by {
        if n < ns1.len() {
            assert(prefix_of(ns1[n].path@, p));
        }
    }
    assert forall|n: int, x: int| n0 <= n < ns3.len() && 0 <= x < projs.len() implies !#[trigger] prefix_of(ns3[n].path@, projs[x]) by {
        if n < ns1.len() {
            assert(!prefix_of(ns1[n].path@, projs[x]));
        }
    }
}

/// Insert one tuple's values along a path from the root, sharing a child whose value is equal.
fn insert(nodes: &mut Vec<UNode>, vals: &Vec<Term>, Ghost(projs): Ghost<Seq<Seq<TermV>>>)
    requires
        nodes_shape(old(nodes)@),
        nodes_hold(old(nodes)@, projs, vals@.len() as nat),
        forall|n: int| 0 <= n < old(nodes)@.len() ==> (#[trigger] old(nodes)@[n]).n_ground == 0,
        forall|i: int| 0 <= i < vals@.len() ==> encodable(#[trigger] vals@[i]@),
    ensures
        nodes_shape(final(nodes)@),
        nodes_hold(final(nodes)@, projs.push(crate::term::views(vals@)), vals@.len() as nat),
        forall|n: int| 0 <= n < final(nodes)@.len() ==> (#[trigger] final(nodes)@[n]).n_ground == 0,
{
    let ghost p = crate::term::views(vals@);
    let ghost len = vals@.len() as nat;
    let ghost n0 = nodes@.len() as int;
    let mut node: usize = 0;
    let mut i: usize = 0;
    proof {
        assert(p.take(0) =~= Seq::<TermV>::empty());
        assert(ins_inv(nodes@, p, 0, projs, n0, len));
    }
    while i < vals.len()
        invariant
            p == crate::term::views(vals@),
            len == vals@.len(),
            i <= len,
            node < nodes@.len(),
            nodes@[node as int].path@ == p.take(i as int),
            nodes_shape(nodes@),
            ins_inv(nodes@, p, i as int, projs, n0, len),
            forall|n: int| 0 <= n < nodes@.len() ==> (#[trigger] nodes@[n]).n_ground == 0,
            forall|x: int| 0 <= x < vals@.len() ==> encodable(#[trigger] vals@[x]@),
        decreases vals.len() - i,
    {
        let head = &vals[i];
        let mut found: Option<usize> = None;
        let mut c: usize = 0;
        while c < nodes[node].children.len()
            invariant_except_break
                found is None,
            invariant
                node < nodes@.len(),
                nodes_shape(nodes@),
                c <= nodes@[node as int].children@.len(),
                forall|y: int| 0 <= y < c ==> nodes@[#[trigger] nodes@[node as int].children@[y] as int].val@ != head@,
            ensures
                found matches Some(ch) ==> exists|a: int| 0 <= a < nodes@[node as int].children@.len()
                    && #[trigger] nodes@[node as int].children@[a] == ch && nodes@[ch as int].val@ == head@,
                found is None ==> forall|y: int| 0 <= y < nodes@[node as int].children@.len()
                    ==> nodes@[#[trigger] nodes@[node as int].children@[y] as int].val@ != head@,
            decreases nodes@[node as int].children@.len() - c,
        {
            let ch = nodes[node].children[c];
            proof {
                assert(child_ok(nodes@, node as int, nodes@[node as int].children@[c as int] as int));
            }
            if nodes[ch].val.eq_term(head) {
                found = Some(ch);
                break;
            }
            c += 1;
        }
        let ghost ns1 = nodes@;
        proof {
            assert(p[i as int] == head@);
        }
        match found {
            Some(ch) => {
                proof {
                    let a = choose|a: int| 0 <= a < ns1[node as int].children@.len()
                        && #[trigger] ns1[node as int].children@[a] == ch && ns1[ch as int].val@ == head@;
                    lemma_follow_child(ns1, p, i as int, projs, n0, len, node as int, a);
                    assert(child_ok(ns1, node as int, ns1[node as int].children@[a] as int));
                }
                node = ch;
            }
            None => {
                let id = nodes.len();
                let key = head.encode();
                let ghost np = p.take(i + 1);
                nodes.push(UNode { key, val: head.clone(), children: Vec::new(), n_ground: 0, path: Ghost(np) });
                let mut kids: Vec<usize> = Vec::new();
                std::mem::swap(&mut kids, &mut nodes[node].children);
                kids.push(id);
                std::mem::swap(&mut kids, &mut nodes[node].children);
                proof {
                    lemma_add_child(ns1, nodes@, p, i as int, projs, n0, len, node as int);
                }
                node = id;
            }
        }
        i += 1;
    }
    proof {
        let ns = nodes@;
        let pp = projs.push(p);
        assert(p.take(len as int) =~= p);
        assert forall|x: int| 0 <= x < pp.len() implies (#[trigger] pp[x]).len() == len by {
            if x < projs.len() {
                assert(pp[x] == projs[x]);
            }
        }
        assert forall|n: int| 0 < n < ns.len() implies #[trigger] covered(ns, pp, n) by {
            if n < n0 {
                assert(covered(ns, projs, n));
                let x = choose|x: int| 0 <= x < projs.len() && #[trigger] prefix_of(ns[n].path@, projs[x]);
                assert(pp[x] == projs[x]);
                assert(prefix_of(ns[n].path@, pp[x]));
            } else {
                assert(prefix_of(ns[n].path@, p));
                assert(pp[projs.len() as int] == p);
                assert(prefix_of(ns[n].path@, pp[projs.len() as int]));
            }
        }
        assert forall|n: int, x: int| 0 <= n < ns.len() && 0 <= x < pp.len() && #[trigger] prefix_of(ns[n].path@, pp[x])
            && ns[n].path@.len() < len implies has_child_val(ns, n, pp[x][ns[n].path@.len() as int]) by {
            if x < projs.len() {
                assert(pp[x] == projs[x]);
            } else {
                assert(pp[x] == p);
            }
        }
    }
}

/// Inserting into a sequence shifts the later elements one place right.
proof fn lemma_insert_at(s: Seq<usize>, pos: int, e: usize)
    requires
        0 <= pos <= s.len(),
    ensures
        s.insert(pos, e).len() == s.len() + 1,
        s.insert(pos, e)[pos] == e,
        forall|j: int| 0 <= j < pos ==> #[trigger] s.insert(pos, e)[j] == s[j],
        forall|j: int| pos < j <= s.len() ==> #[trigger] s.insert(pos, e)[j] == s[j - 1],
        forall|c: usize| #[trigger] s.insert(pos, e).contains(c) <==> (s.contains(c) || c == e),
{
    let t = s.insert(pos, e);
    assert forall|j: int| 0 <= j < pos implies #[trigger] t[j] == s[j] by {
        assert(t[j] == s.subrange(0, pos).push(e)[j]);
    }
    assert forall|j: int| pos < j <= s.len() implies #[trigger] t[j] == s[j - 1] by {
        assert(t[j] == s.subrange(pos, s.len() as int)[j - pos - 1]);
    }
    assert(t[pos] == s.subrange(0, pos).push(e)[pos]);
    assert forall|c: usize| #[trigger] t.contains(c) <==> (s.contains(c) || c == e) by {
        if t.contains(c) {
            let j = choose|j: int| 0 <= j < t.len() && t[j] == c;
            if j < pos {
                assert(s[j] == c);
            } else if j > pos {
                assert(s[j - 1] == c);
            }
        }
        if s.contains(c) {
            let j = choose|j: int| 0 <= j < s.len() && s[j] == c;
            if j < pos {
                assert(t[j] == c);
            } else {
                assert(t[j + 1] == c);
            }
        }
        if c == e {
            assert(t[pos] == c);
        }
    }
}

/// Child `c1` sorts before child `c2`: ground before non-ground, then by key.
spec fn before(ns: Seq<UNode>, c1: int, c2: int) -> bool {
    let g1 = ground(ns[c1].val@);
    let g2 = ground(ns[c2].val@);
    (g1 && !g2) || (g1 == g2 && crate::wcojoin::bytes_lt(ns[c1].key@, ns[c2].key@))
}

proof fn lemma_before_asym(ns: Seq<UNode>, a: int, b: int)
    requires
        before(ns, a, b),
    ensures
        !before(ns, b, a),
{
    if ground(ns[a].val@) == ground(ns[b].val@) && crate::wcojoin::bytes_lt(ns[b].key@, ns[a].key@) {
        crate::wcojoin::lemma_bytes_lt_trans(ns[a].key@, ns[b].key@, ns[a].key@);
        crate::wcojoin::lemma_bytes_lt_irrefl(ns[a].key@);
    }
}

proof fn lemma_not_before_trans(ns: Seq<UNode>, a: int, b: int, c: int)
    requires
        !before(ns, a, b),
        !before(ns, b, c),
    ensures
        !before(ns, a, c),
{
    let (ka, kb, kc) = (ns[a].key@, ns[b].key@, ns[c].key@);
    if before(ns, a, c) {
        if ground(ns[a].val@) == ground(ns[b].val@) && ground(ns[b].val@) == ground(ns[c].val@) {
            if ka != kb {
                crate::wcojoin::lemma_bytes_lt_total(ka, kb);
                crate::wcojoin::lemma_bytes_lt_trans(kb, ka, kc);
            }
            if kb != kc && ka == kb {
                crate::wcojoin::lemma_bytes_lt_total(kb, kc);
                crate::wcojoin::lemma_bytes_lt_trans(kc, kb, kc);
                crate::wcojoin::lemma_bytes_lt_irrefl(kc);
            }
            if ka != kb && kb != kc {
                crate::wcojoin::lemma_bytes_lt_total(kb, kc);
                crate::wcojoin::lemma_bytes_lt_trans(kc, kb, ka);
                crate::wcojoin::lemma_bytes_lt_trans(ka, kc, ka);
                crate::wcojoin::lemma_bytes_lt_irrefl(ka);
            }
        }
    }
}

/// The node-level data (path, value, key) of every node is as in `ns0`.
spec fn same_nodes(ns: Seq<UNode>, ns0: Seq<UNode>) -> bool {
    &&& ns.len() == ns0.len()
    &&& forall|n: int| 0 <= n < ns.len() ==> (#[trigger] ns[n]).path@ == ns0[n].path@ && ns[n].val@ == ns0[n].val@
        && ns[n].key@ == ns0[n].key@ && ns[n].val == ns0[n].val
}

proof fn lemma_kids_sorted_frame(ns1: Seq<UNode>, ns2: Seq<UNode>, ns0: Seq<UNode>, n: int)
    requires
        kids_sorted(ns1, n),
        ns1[n].children@ == ns2[n].children@,
        ns1[n].n_ground == ns2[n].n_ground,
        same_nodes(ns1, ns0),
        same_nodes(ns2, ns0),
        forall|a: int| 0 <= a < ns1[n].children@.len() ==> #[trigger] ns1[n].children@[a] < ns1.len(),
    ensures
        kids_sorted(ns2, n),
{
    let ch = ns1[n].children@;
    assert forall|a: int| 0 <= a < ch.len() implies ns1[#[trigger] ch[a] as int].val@ == ns2[ch[a] as int].val@
        && ns1[ch[a] as int].key@ == ns2[ch[a] as int].key@ by {
        assert(ch[a] < ns1.len());
        assert(ns1[ch[a] as int].val@ == ns0[ch[a] as int].val@);
        assert(ns2[ch[a] as int].val@ == ns0[ch[a] as int].val@);
    }
    assert forall|a: int| 0 <= a < ch.len() implies (ground(ns2[#[trigger] ns2[n].children@[a] as int].val@) <==> a < ns2[n].n_ground) by {
        assert(ns1[ch[a] as int].val@ == ns2[ch[a] as int].val@);
    }
    assert forall|a: int, b: int| #![trigger ns2[n].children@[a], ns2[n].children@[b]] 0 <= a < b < ns2[n].n_ground
        implies crate::wcojoin::bytes_lt(ns2[ns2[n].children@[a] as int].key@, ns2[ns2[n].children@[b] as int].key@) by {
        assert(ns1[ch[a] as int].key@ == ns2[ch[a] as int].key@);
        assert(ns1[ch[b] as int].key@ == ns2[ch[b] as int].key@);
        assert(crate::wcojoin::bytes_lt(ns1[ns1[n].children@[a] as int].key@, ns1[ns1[n].children@[b] as int].key@));
    }
}

/// Sort every node's children ground-first by key and record the ground count, so the
/// follower seek can binary-search the ground prefix. The sort is stable. As the children are
/// ground first, the ground count is the length of the ground prefix.
fn finalize(nodes: &mut Vec<UNode>, Ghost(projs): Ghost<Seq<Seq<TermV>>>, Ghost(len): Ghost<nat>)
    requires
        nodes_shape(old(nodes)@),
        nodes_hold(old(nodes)@, projs, len),
    ensures
        nodes_shape(final(nodes)@),
        nodes_hold(final(nodes)@, projs, len),
        same_nodes(final(nodes)@, old(nodes)@),
        forall|n: int| 0 <= n < final(nodes)@.len() ==> #[trigger] kids_sorted(final(nodes)@, n),
{
    let ghost ns0 = nodes@;
    let total = nodes.len();
    let mut x: usize = 0;
    while x < total
        invariant
            total == nodes@.len(),
            x <= total,
            nodes_shape(ns0),
            nodes_hold(ns0, projs, len),
            same_nodes(nodes@, ns0),
            forall|n: int, c: usize| 0 <= n < total ==> (#[trigger] nodes@[n].children@.contains(c) <==> ns0[n].children@.contains(c)),
            forall|n: int| 0 <= n < total ==> (#[trigger] nodes@[n].children@).no_duplicates(),
            forall|n: int, a: int| 0 <= n < total && 0 <= a < nodes@[n].children@.len() ==> #[trigger] nodes@[n].children@[a] < total,
            forall|n: int| 0 <= n < x ==> #[trigger] kids_sorted(nodes@, n),
        decreases total - x,
    {
        let ghost nsx = nodes@;
        let mut kids: Vec<usize> = Vec::new();
        std::mem::swap(&mut kids, &mut nodes[x].children);
        proof {
            assert(kids@ == nsx[x as int].children@);
            assert(forall|n: int| 0 <= n < total && n != x ==> #[trigger] nodes@[n] == nsx[n]);
        }
        let mut sorted: Vec<usize> = Vec::new();
        let mut a: usize = 0;
        while a < kids.len()
            invariant
                total == nodes@.len(),
                x < total,
                same_nodes(nodes@, ns0),
                nodes_shape(ns0),
                kids@ == nsx[x as int].children@,
                kids@.no_duplicates(),
                forall|c: usize| #[trigger] kids@.contains(c) <==> ns0[x as int].children@.contains(c),
                a <= kids@.len(),
                sorted@.no_duplicates(),
                forall|c: usize| #[trigger] sorted@.contains(c) <==> kids@.take(a as int).contains(c),
                forall|i: int, j: int| #![trigger sorted@[i], sorted@[j]] 0 <= i < j < sorted@.len()
                    ==> !before(nodes@, sorted@[j] as int, sorted@[i] as int),
                forall|i: int| 0 <= i < sorted@.len() ==> #[trigger] sorted@[i] < total,
            decreases kids.len() - a,
        {
            let id = kids[a];
            proof {
                assert(kids@.contains(id));
                let a0 = choose|a0: int| 0 <= a0 < ns0[x as int].children@.len() && ns0[x as int].children@[a0] == id;
                assert(child_ok(ns0, x as int, ns0[x as int].children@[a0] as int));
            }
            let g = nodes[id].val.is_ground();
            let mut pos: usize = sorted.len();
            while pos > 0
                invariant
                    pos <= sorted@.len(),
                    total == nodes@.len(),
                    id < total,
                    g == ground(nodes@[id as int].val@),
                    forall|i: int| 0 <= i < sorted@.len() ==> #[trigger] sorted@[i] < total,
                    forall|j: int| pos <= j < sorted@.len() ==> before(nodes@, id as int, #[trigger] sorted@[j] as int),
                ensures
                    pos == 0 || !before(nodes@, id as int, sorted@[pos - 1] as int),
                    forall|j: int| pos <= j < sorted@.len() ==> before(nodes@, id as int, #[trigger] sorted@[j] as int),
                decreases pos,
            {
                let prev = sorted[pos - 1];
                let gp = nodes[prev].val.is_ground();
                if child_before(g, &nodes[id].key, gp, &nodes[prev].key) {
                    pos -= 1;
                } else {
                    break;
                }
            }
            let ghost s0 = sorted@;
            sorted.insert(pos, id);
            proof {
                lemma_insert_at(s0, pos as int, id);
                assert(sorted@ == s0.insert(pos as int, id));
                assert(kids@.take(a + 1) =~= kids@.take(a as int).push(id));
                assert(!kids@.take(a as int).contains(id)) by {
                    if kids@.take(a as int).contains(id) {
                        let j = choose|j: int| 0 <= j < a && kids@.take(a as int)[j] == id;
                        assert(kids@[j] == kids@[a as int]);
                    }
                }
                assert(!s0.contains(id));
                assert forall|c: usize| #[trigger] sorted@.contains(c) <==> kids@.take(a + 1).contains(c) by {
                    if kids@.take(a + 1).contains(c) {
                        let j = choose|j: int| 0 <= j < a + 1 && #[trigger] kids@.take(a + 1)[j] == c;
                        if j < a {
                            assert(kids@.take(a as int)[j] == c);
                        }
                    }
                    if kids@.take(a as int).contains(c) {
                        let j = choose|j: int| 0 <= j < a && #[trigger] kids@.take(a as int)[j] == c;
                        assert(kids@.take(a + 1)[j] == c);
                    }
                    if c == id {
                        assert(kids@.take(a + 1)[a as int] == c);
                    }
                }
                assert(sorted@.no_duplicates()) by {
                    assert forall|i: int, j: int| 0 <= i < sorted@.len() && 0 <= j < sorted@.len() && i != j
                        implies sorted@[i] != sorted@[j] by {
                        if i != pos && j != pos {
                            let ki = if i < pos { i } else { i - 1 };
                            let kj = if j < pos { j } else { j - 1 };
                            assert(s0[ki] == sorted@[i]);
                            assert(s0[kj] == sorted@[j]);
                        } else if i == pos {
                            let kj = if j < pos { j } else { j - 1 };
                            assert(s0[kj] == sorted@[j]);
                            assert(s0.contains(sorted@[j]));
                        } else {
                            let ki = if i < pos { i } else { i - 1 };
                            assert(s0[ki] == sorted@[i]);
                            assert(s0.contains(sorted@[i]));
                        }
                    }
                }
                assert forall|i: int, j: int| #![trigger sorted@[i], sorted@[j]] 0 <= i < j < sorted@.len()
                    implies !before(nodes@, sorted@[j] as int, sorted@[i] as int) by {
                    if j < pos {
                        assert(sorted@[i] == s0[i] && sorted@[j] == s0[j]);
                    } else if j == pos {
                        assert(sorted@[i] == s0[i]);
                        if i < pos - 1 {
                            assert(!before(nodes@, s0[pos - 1] as int, s0[i] as int));
                            lemma_not_before_trans(nodes@, id as int, s0[pos - 1] as int, s0[i] as int);
                        }
                    } else if i < pos {
                        assert(sorted@[i] == s0[i] && sorted@[j] == s0[j - 1]);
                    } else if i == pos {
                        assert(sorted@[j] == s0[j - 1]);
                        assert(before(nodes@, id as int, s0[j - 1] as int));
                        lemma_before_asym(nodes@, id as int, s0[j - 1] as int);
                    } else {
                        assert(sorted@[i] == s0[i - 1] && sorted@[j] == s0[j - 1]);
                    }
                }
                assert forall|i: int| 0 <= i < sorted@.len() implies #[trigger] sorted@[i] < total by {
                    if i < pos {
                        assert(sorted@[i] == s0[i]);
                    } else if i > pos {
                        assert(sorted@[i] == s0[i - 1]);
                    }
                }
            }
            a += 1;
        }
        proof {
            assert(kids@.take(kids@.len() as int) =~= kids@);
        }
        let mut ng: usize = 0;
        while ng < sorted.len() && nodes[sorted[ng]].val.is_ground()
            invariant
                ng <= sorted@.len(),
                total == nodes@.len(),
                forall|i: int| 0 <= i < sorted@.len() ==> #[trigger] sorted@[i] < total,
                forall|i: int| 0 <= i < ng ==> ground(nodes@[#[trigger] sorted@[i] as int].val@),
            decreases sorted.len() - ng,
        {
            ng += 1;
        }
        let ghost nsy = nodes@;
        let ghost srt = sorted@;
        proof {
            assert forall|c: usize| #[trigger] srt.contains(c) <==> ns0[x as int].children@.contains(c) by {
                assert(kids@.take(kids@.len() as int).contains(c) <==> kids@.contains(c));
            }
            assert forall|n: int| 0 <= n < x implies #[trigger] kids_sorted(nsy, n) by {
                lemma_kids_sorted_frame(nsx, nsy, ns0, n);
            }
        }
        std::mem::swap(&mut sorted, &mut nodes[x].children);
        nodes[x].n_ground = ng;
        proof {
            let ns = nodes@;
            let ch = ns[x as int].children@;
            assert(forall|n: int| 0 <= n < total && n != x ==> #[trigger] ns[n] == nsy[n]);
            assert(same_nodes(ns, ns0)) by {
                assert forall|n: int| 0 <= n < ns.len() implies (#[trigger] ns[n]).path@ == ns0[n].path@ && ns[n].val@ == ns0[n].val@
                    && ns[n].key@ == ns0[n].key@ && ns[n].val == ns0[n].val by {
                    assert(nsy[n].path@ == ns0[n].path@);
                }
            }
            assert forall|i: int, j: int| 0 <= i < ch.len() && 0 <= j < ch.len() implies
                (before(ns, ch[i] as int, ch[j] as int) <==> before(nsy, ch[i] as int, ch[j] as int)) by {}
            // the ground prefix
            assert forall|i: int| 0 <= i < ch.len() implies (ground(ns[#[trigger] ch[i] as int].val@) <==> i < ng) by {
                if i >= ng && ground(ns[ch[i] as int].val@) {
                    assert(ng < ch.len());
                    assert(!ground(nsy[ch[ng as int] as int].val@));
                    if i > ng {
                        assert(!before(nsy, ch[i] as int, ch[ng as int] as int));
                    }
                }
            }
            assert forall|i: int, j: int| #![trigger ch[i], ch[j]] 0 <= i < j < ng
                implies crate::wcojoin::bytes_lt(ns[ch[i] as int].key@, ns[ch[j] as int].key@) by {
                assert(!before(nsy, ch[j] as int, ch[i] as int));
                assert(ch[i] != ch[j]);
                assert(srt.contains(ch[i]));
                assert(srt.contains(ch[j]));
                assert(ns0[x as int].children@.contains(ch[i]));
                assert(ns0[x as int].children@.contains(ch[j]));
                let ai = choose|ai: int| 0 <= ai < ns0[x as int].children@.len() && ns0[x as int].children@[ai] == ch[i];
                let aj = choose|aj: int| 0 <= aj < ns0[x as int].children@.len() && ns0[x as int].children@[aj] == ch[j];
                assert(child_ok(ns0, x as int, ns0[x as int].children@[ai] as int));
                assert(child_ok(ns0, x as int, ns0[x as int].children@[aj] as int));
                assert(ns0[ns0[x as int].children@[ai] as int].val@ != ns0[ns0[x as int].children@[aj] as int].val@);
                let ki = ns[ch[i] as int].key@;
                let kj = ns[ch[j] as int].key@;
                if ki == kj {
                    crate::term::lemma_ground_encoding_inj(ns[ch[i] as int].val@, ns[ch[j] as int].val@);
                }
                crate::wcojoin::lemma_bytes_lt_total(ki, kj);
            }
            assert(kids_sorted(ns, x as int));
            assert forall|n: int| 0 <= n < x + 1 implies #[trigger] kids_sorted(ns, n) by {
                if n < x {
                    assert(kids_sorted(nsy, n));
                    lemma_kids_sorted_frame(nsy, ns, ns0, n);
                }
            }
            assert forall|n: int, c: usize| 0 <= n < total implies (#[trigger] ns[n].children@.contains(c) <==> ns0[n].children@.contains(c)) by {
                if n == x {
                    assert(ch == srt);
                }
            }
        }
        x += 1;
    }
    proof {
        let ns = nodes@;
        assert forall|n: int, c: int| 0 <= n < ns.len() && 0 <= c < ns.len() implies (child_ok(ns, n, c) <==> child_ok(ns0, n, c)) by {}
        assert forall|n: int, a: int| 0 <= n < ns.len() && 0 <= a < ns[n].children@.len()
            implies child_ok(ns, n, #[trigger] ns[n].children@[a] as int) by {
            assert(ns[n].children@.contains(ns[n].children@[a]));
            let a0 = choose|a0: int| 0 <= a0 < ns0[n].children@.len() && ns0[n].children@[a0] == ns[n].children@[a];
            assert(child_ok(ns0, n, ns0[n].children@[a0] as int));
        }
        assert forall|n: int, a: int, b: int| #![trigger ns[n].children@[a], ns[n].children@[b]]
            0 <= n < ns.len() && 0 <= a < ns[n].children@.len() && 0 <= b < ns[n].children@.len() && a != b
            implies ns[ns[n].children@[a] as int].val@ != ns[ns[n].children@[b] as int].val@ by {
            assert(ns[n].children@.contains(ns[n].children@[a]));
            assert(ns[n].children@.contains(ns[n].children@[b]));
            let a0 = choose|a0: int| 0 <= a0 < ns0[n].children@.len() && ns0[n].children@[a0] == ns[n].children@[a];
            let b0 = choose|b0: int| 0 <= b0 < ns0[n].children@.len() && ns0[n].children@[b0] == ns[n].children@[b];
            assert(child_ok(ns0, n, ns0[n].children@[a0] as int));
            assert(child_ok(ns0, n, ns0[n].children@[b0] as int));
            assert(ns0[ns0[n].children@[a0] as int].val@ != ns0[ns0[n].children@[b0] as int].val@);
        }
        assert forall|n1: int, n2: int| #![trigger ns[n1].path@, ns[n2].path@]
            0 <= n1 < ns.len() && 0 <= n2 < ns.len() && ns[n1].path@ == ns[n2].path@ implies n1 == n2 by {
            assert(ns0[n1].path@ == ns0[n2].path@);
        }
        assert(nodes_shape(ns));
        assert forall|n: int| 0 < n < ns.len() implies #[trigger] covered(ns, projs, n) by {
            assert(covered(ns0, projs, n));
            let x = choose|x: int| 0 <= x < projs.len() && #[trigger] prefix_of(ns0[n].path@, projs[x]);
            assert(prefix_of(ns[n].path@, projs[x]));
        }
        assert forall|n: int, x: int| 0 <= n < ns.len() && 0 <= x < projs.len() && #[trigger] prefix_of(ns[n].path@, projs[x])
            && ns[n].path@.len() < len implies has_child_val(ns, n, projs[x][ns[n].path@.len() as int]) by {
            assert(prefix_of(ns0[n].path@, projs[x]));
            assert(has_child_val(ns0, n, projs[x][ns0[n].path@.len() as int]));
            let a = choose|a: int| 0 <= a < ns0[n].children@.len()
                && ns0[#[trigger] ns0[n].children@[a] as int].val@ == projs[x][ns0[n].path@.len() as int];
            assert(ns0[n].children@.contains(ns0[n].children@[a]));
            assert(ns[n].children@.contains(ns0[n].children@[a]));
            let b = choose|b: int| 0 <= b < ns[n].children@.len() && ns[n].children@[b] == ns0[n].children@[a];
            assert(child_ok(ns0, n, ns0[n].children@[a] as int));
        }
    }
}

/// The values of a tuple for the variables `rv`.
pub open spec fn proj(t: Map<u32, Term>, rv: Seq<u32>) -> Seq<TermV> {
    Seq::new(rv.len(), |d: int| t[rv[d]]@)
}

/// The projections of the tuples onto the variables `rv`.
pub open spec fn projs_of(ts: Seq<BTreeMap<u32, Term>>, rv: Seq<u32>) -> Seq<Seq<TermV>> {
    Seq::new(ts.len(), |x: int| proj(ts[x]@, rv))
}

/// Index one materialized relation into a trie over its variables in `order`.
fn build(rel: &Relation, order: &Vec<u32>) -> (t: UTrie)
    requires
        rel_encodable(*rel),
        rel.tuples@.len() > 0,
        forall|x: int, v: u32| 0 <= x < rel.tuples@.len() && rel.vars@.contains(v)
            ==> #[trigger] rel.tuples@[x]@.contains_key(v),
    ensures
        t.rel_vars@ == crate::wcojoin::restrict_order(order@, rel.vars@),
        t.wf(),
        t.indexes(projs_of(rel.tuples@, t.rel_vars@)),
{
    let mut rel_vars: Vec<u32> = Vec::new();
    let mut k: usize = 0;
    while k < order.len()
        invariant
            k <= order@.len(),
            rel_vars@ == crate::wcojoin::restrict_order(order@.take(k as int), rel.vars@),
        decreases order.len() - k,
    {
        let v = order[k];
        proof {
            assert(order@.take(k + 1) =~= order@.take(k as int).push(v));
            reveal(Seq::filter);
            assert(order@.take(k + 1).drop_last() =~= order@.take(k as int));
        }
        if vec_contains(&rel.vars, v) {
            rel_vars.push(v);
        }
        k += 1;
    }
    proof {
        assert(order@.take(order@.len() as int) =~= order@);
        reveal(Seq::filter);
        assert forall|i: int| 0 <= i < rel_vars@.len() implies rel.vars@.contains(#[trigger] rel_vars@[i]) by {
            order@.lemma_filter_pred(|v: u32| rel.vars@.contains(v), i);
        }
    }
    let ghost rv = rel_vars@;
    let ghost len = rv.len() as nat;
    let mut nodes: Vec<UNode> = Vec::new();
    nodes.push(UNode { key: Vec::new(), val: Term::App(Vec::new()), children: Vec::new(), n_ground: 0, path: Ghost(Seq::empty()) });
    proof {
        assert(projs_of(rel.tuples@.take(0), rv) =~= Seq::<Seq<TermV>>::empty());
    }
    let mut t: usize = 0;
    while t < rel.tuples.len()
        invariant
            t <= rel.tuples@.len(),
            rv == rel_vars@,
            len == rv.len(),
            rel_encodable(*rel),
            forall|x: int, v: u32| 0 <= x < rel.tuples@.len() && rel.vars@.contains(v)
                ==> #[trigger] rel.tuples@[x]@.contains_key(v),
            forall|i: int| 0 <= i < rel_vars@.len() ==> rel.vars@.contains(#[trigger] rel_vars@[i]),
            nodes_shape(nodes@),
            nodes_hold(nodes@, projs_of(rel.tuples@.take(t as int), rv), len),
            forall|n: int| 0 <= n < nodes@.len() ==> (#[trigger] nodes@[n]).n_ground == 0,
        decreases rel.tuples.len() - t,
    {
        let tup = &rel.tuples[t];
        let mut vals: Vec<Term> = Vec::new();
        let mut i: usize = 0;
        while i < rel_vars.len()
            invariant
                t < rel.tuples@.len(),
                *tup == rel.tuples@[t as int],
                rel_encodable(*rel),
                forall|x: int, v: u32| 0 <= x < rel.tuples@.len() && rel.vars@.contains(v)
                    ==> #[trigger] rel.tuples@[x]@.contains_key(v),
                forall|i: int| 0 <= i < rel_vars@.len() ==> rel.vars@.contains(#[trigger] rel_vars@[i]),
                i <= rel_vars@.len(),
                vals@.len() == i,
                forall|x: int| 0 <= x < i ==> encodable(#[trigger] vals@[x]@),
                forall|x: int| 0 <= x < i ==> #[trigger] vals@[x]@ == tup@[rel_vars@[x]]@,
            decreases rel_vars.len() - i,
        {
            let v = rel_vars[i];
            proof {
                assert(rel.vars@.contains(v));
                assert(tup@.contains_key(v));
            }
            match tup.get(&v) {
                Some(val) => {
                    vals.push(val.clone());
                }
                None => {
                    proof {
                        assert(false);
                    }
                }
            }
            i += 1;
        }
        proof {
            assert(crate::term::views(vals@) =~= proj(tup@, rv));
            assert(projs_of(rel.tuples@.take(t + 1), rv) =~= projs_of(rel.tuples@.take(t as int), rv).push(proj(tup@, rv)));
        }
        insert(&mut nodes, &vals, Ghost(projs_of(rel.tuples@.take(t as int), rv)));
        t += 1;
    }
    proof {
        assert(rel.tuples@.take(rel.tuples@.len() as int) =~= rel.tuples@);
    }
    finalize(&mut nodes, Ghost(projs_of(rel.tuples@, rv)), Ghost(len));
    UTrie { rel_vars, nodes }
}

/// The candidate children of `node` whose value can unify with the current binding `vb` of the
/// join variable. If `vb` is unbound this is the lead (every child). If `vb` is ground, seek it
/// by binary search over the sorted ground prefix and add the wildcard children. Otherwise
/// scan every child (the rare fully schematic case; a ground value the encoder refuses is
/// scanned the same way). A child left out is ground and differs from a ground `vb`.
fn candidates(t: &UTrie, node: usize, vb: &Term) -> (r: Vec<usize>)
    requires
        t.wf(),
        node < t.nodes@.len(),
    ensures
        forall|i: int| 0 <= i < r@.len() ==> t.nodes@[node as int].children@.contains(#[trigger] r@[i]),
        vb@ is Var ==> r@ == t.nodes@[node as int].children@,
        forall|a: int| 0 <= a < t.nodes@[node as int].children@.len() && !r@.contains(#[trigger] t.nodes@[node as int].children@[a])
            ==> ground(vb@) && ground(t.nodes@[t.nodes@[node as int].children@[a] as int].val@)
                && t.nodes@[t.nodes@[node as int].children@[a] as int].val@ != vb@,
{
    proof {
        assert(kids_sorted(t.nodes@, node as int));
    }
    let ghost ns = t.nodes@;
    let kids = &t.nodes[node].children;
    let mut res: Vec<usize> = Vec::new();
    let seek = match vb {
        Term::Var(_) => false,
        _ => vb.is_ground() && vb.is_encodable(),
    };
    if !seek {
        let mut i: usize = 0;
        while i < kids.len()
            invariant
                *kids == t.nodes@[node as int].children,
                i <= kids@.len(),
                res@ == kids@.take(i as int),
            decreases kids.len() - i,
        {
            res.push(kids[i]);
            proof {
                assert(kids@.take(i + 1) =~= kids@.take(i as int).push(kids@[i as int]));
            }
            i += 1;
        }
        proof {
            assert(kids@.take(kids@.len() as int) =~= kids@);
            assert forall|i: int| 0 <= i < res@.len() implies kids@.contains(#[trigger] res@[i]) by {
                assert(res@[i] == kids@[i]);
            }
            assert forall|a: int| 0 <= a < kids@.len() implies res@.contains(#[trigger] kids@[a]) by {
                assert(res@[a] == kids@[a]);
            }
        }
        return res;
    }
    let key = vb.encode();
    let ng = t.nodes[node].n_ground;
    let mut lo: usize = 0;
    let mut hi: usize = ng;
    let mut hit: usize = 0;
    proof {
        crate::wcojoin::lemma_bytes_lt_irrefl(key@);
    }
    while lo < hi
        invariant_except_break
            res@.len() == 0,
        invariant
            !crate::wcojoin::bytes_lt(key@, key@),
            *kids == t.nodes@[node as int].children,
            ns == t.nodes@,
            t.wf(),
            node < ns.len(),
            kids_sorted(ns, node as int),
            ng == ns[node as int].n_ground,
            ng <= kids@.len(),
            lo <= hi <= ng,
            key@ == encoding(vb@),
            forall|a: int| 0 <= a < lo ==> crate::wcojoin::bytes_lt(ns[#[trigger] kids@[a] as int].key@, key@),
            forall|a: int| hi <= a < ng ==> crate::wcojoin::bytes_lt(key@, ns[#[trigger] kids@[a] as int].key@),
        ensures
            res@.len() == 0 ==> forall|a: int| 0 <= a < ng ==> ns[#[trigger] kids@[a] as int].key@ != key@,
            res@.len() != 0 ==> res@.len() == 1 && hit < ng && res@[0] == kids@[hit as int] && ns[kids@[hit as int] as int].key@ == key@,
        decreases hi - lo,
    {
        let mid = lo + (hi - lo) / 2;
        let c = kids[mid];
        proof {
            assert(child_ok(ns, node as int, kids@[mid as int] as int));
        }
        if bytes_eq(&t.nodes[c].key, &key) {
            res.push(c);
            hit = mid;
            break;
        } else if bytes_less(&t.nodes[c].key, &key) {
            proof {
                assert forall|a: int| 0 <= a < mid + 1 implies crate::wcojoin::bytes_lt(ns[#[trigger] kids@[a] as int].key@, key@) by {
                    if a < mid {
                        assert(crate::wcojoin::bytes_lt(ns[kids@[a] as int].key@, ns[kids@[mid as int] as int].key@));
                        crate::wcojoin::lemma_bytes_lt_trans(ns[kids@[a] as int].key@, ns[kids@[mid as int] as int].key@, key@);
                    }
                }
            }
            lo = mid + 1;
        } else {
            proof {
                crate::wcojoin::lemma_bytes_lt_total(ns[kids@[mid as int] as int].key@, key@);
                assert forall|a: int| mid <= a < ng implies crate::wcojoin::bytes_lt(key@, ns[#[trigger] kids@[a] as int].key@) by {
                    if a > mid {
                        assert(crate::wcojoin::bytes_lt(ns[kids@[mid as int] as int].key@, ns[kids@[a] as int].key@));
                        crate::wcojoin::lemma_bytes_lt_trans(key@, ns[kids@[mid as int] as int].key@, ns[kids@[a] as int].key@);
                    }
                }
            }
            hi = mid;
        }
    }
    proof {
        if res@.len() == 0 {
            assert forall|a: int| 0 <= a < ng implies ns[#[trigger] kids@[a] as int].key@ != key@ by {
                crate::wcojoin::lemma_bytes_lt_irrefl(key@);
            }
        }
    }
    let ghost res0 = res@;
    let mut i: usize = ng;
    while i < kids.len()
        invariant
            *kids == t.nodes@[node as int].children,
            ng <= i <= kids@.len(),
            res@.len() == res0.len() + (i - ng),
            forall|x: int| 0 <= x < res0.len() ==> res@[x] == res0[x],
            forall|x: int| ng <= x < i ==> #[trigger] res@[res0.len() + x - ng] == kids@[x],
            forall|x: int| 0 <= x < res0.len() ==> kids@.contains(#[trigger] res0[x]),
            forall|x: int| 0 <= x < res@.len() ==> kids@.contains(#[trigger] res@[x]),
        decreases kids.len() - i,
    {
        res.push(kids[i]);
        proof {
            assert forall|x: int| 0 <= x < res@.len() implies kids@.contains(#[trigger] res@[x]) by {
                if x == res@.len() - 1 {
                    assert(res@[x] == kids@[i as int]);
                }
            }
        }
        i += 1;
    }
    proof {
        assert forall|a: int| 0 <= a < kids@.len() && !res@.contains(#[trigger] kids@[a])
            implies ground(vb@) && ground(ns[kids@[a] as int].val@) && ns[kids@[a] as int].val@ != vb@ by {
            if a >= ng {
                assert(res@[res0.len() + a - ng] == kids@[a]);
            } else {
                assert(ground(ns[kids@[a] as int].val@));
                assert(child_ok(ns, node as int, kids@[a] as int));
                if res0.len() != 0 {
                    if a == hit {
                        assert(res@[0] == kids@[a]);
                    } else if a < hit {
                        assert(crate::wcojoin::bytes_lt(ns[kids@[a] as int].key@, ns[kids@[hit as int] as int].key@));
                        crate::wcojoin::lemma_bytes_lt_irrefl(key@);
                    } else {
                        assert(crate::wcojoin::bytes_lt(ns[kids@[hit as int] as int].key@, ns[kids@[a] as int].key@));
                        crate::wcojoin::lemma_bytes_lt_irrefl(key@);
                    }
                }
            }
        }
    }
    res
}

/// `th` binds the `d`-th variable of each relation `i` to the value `vals[i][d]`.
pub open spec fn binds_rows(th: Map<u32, TermV>, rvs: Seq<Seq<u32>>, vals: Seq<Seq<TermV>>) -> bool {
    forall|i: int, d: int| #![trigger vals[i][d]] 0 <= i < vals.len() && 0 <= d < vals[i].len()
        ==> subst(th, TermV::Var(rvs[i][d])) == subst(th, vals[i][d])
}

/// `th` is an idempotent most general unifier of those bindings.
pub open spec fn mgu_rows(th: Map<u32, TermV>, rvs: Seq<Seq<u32>>, vals: Seq<Seq<TermV>>) -> bool {
    &&& idem(th)
    &&& binds_rows(th, rvs, vals)
    &&& forall|th2: Map<u32, TermV>| #[trigger] binds_rows(th2, rvs, vals) ==> instance_of(th2, th)
}

/// The variable lists of the tries.
spec fn trie_vars(tries: Seq<UTrie>) -> Seq<Seq<u32>> {
    Seq::new(tries.len(), |i: int| tries[i].rel_vars@)
}

/// The values on each relation's cursor path.
spec fn cur_paths(tries: Seq<UTrie>, cursors: Seq<usize>) -> Seq<Seq<TermV>> {
    Seq::new(tries.len(), |i: int| tries[i].nodes@[cursors[i] as int].path@)
}

/// The rows a choice of one projection per relation picks.
spec fn picked(projs: Seq<Seq<Seq<TermV>>>, ch: Seq<int>) -> Seq<Seq<TermV>> {
    Seq::new(ch.len(), |i: int| projs[i][ch[i]])
}

/// `ch` picks for each relation a projection that runs through its cursor, and `th` is a most
/// general unifier of the picked rows whose answer tuple encodes to `k`.
spec fn completion(tries: Seq<UTrie>, projs: Seq<Seq<Seq<TermV>>>, qv: Seq<u32>, cursors: Seq<usize>,
    ch: Seq<int>, th: Map<u32, TermV>, k: Seq<u8>) -> bool {
    &&& ch.len() == tries.len()
    &&& forall|i: int| 0 <= i < tries.len() ==> 0 <= #[trigger] ch[i] < projs[i].len()
        && prefix_of(tries[i].nodes@[cursors[i] as int].path@, projs[i][ch[i]])
    &&& mgu_rows(th, trie_vars(tries), picked(projs, ch))
    &&& encodable(tuple_of(th, qv))
    &&& k == key_of(th, qv)
}

/// `k` is the answer of some completion of the cursors.
spec fn jfound(tries: Seq<UTrie>, projs: Seq<Seq<Seq<TermV>>>, qv: Seq<u32>, cursors: Seq<usize>, k: Seq<u8>) -> bool {
    exists|ch: Seq<int>, th: Map<u32, TermV>| #[trigger] completion(tries, projs, qv, cursors, ch, th, k)
}

/// `k` is the answer of a completion through one of the first `x` candidates for relation `i`.
spec fn jfound_some(tries: Seq<UTrie>, projs: Seq<Seq<Seq<TermV>>>, qv: Seq<u32>, cursors: Seq<usize>, i: int,
    cands: Seq<usize>, x: int, k: Seq<u8>) -> bool {
    exists|y: int| 0 <= y < x && #[trigger] jfound(tries, projs, qv, cursors.update(i, cands[y]), k)
}

/// Each trie indexes its projections, over its relation's variables in `order`.
spec fn tries_ok(order: Seq<u32>, tries: Seq<UTrie>, projs: Seq<Seq<Seq<TermV>>>, vs: Seq<Seq<u32>>) -> bool {
    &&& projs.len() == tries.len()
    &&& vs.len() == tries.len()
    &&& forall|i: int| 0 <= i < tries.len() ==> (#[trigger] tries[i]).wf() && tries[i].indexes(projs[i])
        && tries[i].rel_vars@ == crate::wcojoin::restrict_order(order, vs[i])
}

/// The cursors are at the nodes reached after binding the first `k` variables of `order`.
spec fn at_level(order: Seq<u32>, k: int, tries: Seq<UTrie>, vs: Seq<Seq<u32>>, cursors: Seq<usize>, depths: Seq<usize>) -> bool {
    &&& cursors.len() == tries.len()
    &&& depths.len() == tries.len()
    &&& forall|i: int| 0 <= i < tries.len() ==> #[trigger] cursors[i] < tries[i].nodes@.len()
        && tries[i].nodes@[cursors[i] as int].path@.len() == depths[i]
        && depths[i] == crate::wcojoin::restrict_order(order.take(k), vs[i]).len()
}

/// Within the intersection of variable `order[k]`: the parts before `pi` have bound it, the
/// others not yet.
spec fn at_part(order: Seq<u32>, k: int, parts: Seq<usize>, pi: int, tries: Seq<UTrie>, vs: Seq<Seq<u32>>,
    cursors: Seq<usize>, depths: Seq<usize>) -> bool {
    &&& cursors.len() == tries.len()
    &&& depths.len() == tries.len()
    &&& parts.no_duplicates()
    &&& forall|i: usize| #[trigger] parts.contains(i) <==> (i < tries.len() && vs[i as int].contains(order[k]))
    &&& forall|i: int| 0 <= i < tries.len() ==> #[trigger] cursors[i] < tries[i].nodes@.len()
        && tries[i].nodes@[cursors[i] as int].path@.len() == depths[i]
        && depths[i] + (if parts.subrange(pi, parts.len() as int).contains(i as usize) { 1int } else { 0int })
            == crate::wcojoin::restrict_order(order.take(k + 1), vs[i]).len()
}

/// The variables bound before position `k` of `order` start the relation's variable list.
pub(crate) proof fn lemma_restrict_prefix(order: Seq<u32>, vars: Seq<u32>, k: int)
    requires
        0 <= k <= order.len(),
    ensures
        crate::wcojoin::restrict_order(order.take(k), vars).len() <= crate::wcojoin::restrict_order(order, vars).len(),
        crate::wcojoin::restrict_order(order, vars).take(crate::wcojoin::restrict_order(order.take(k), vars).len() as int)
            == crate::wcojoin::restrict_order(order.take(k), vars),
{
    let p = |v: u32| vars.contains(v);
    assert(order =~= order.take(k) + order.skip(k));
    Seq::filter_distributes_over_add(order.take(k), order.skip(k), p);
    let a = order.take(k).filter(p);
    let b = order.skip(k).filter(p);
    assert((a + b).take(a.len() as int) =~= a);
}

/// The next variable of a relation is `order[k]` exactly when the relation has it.
pub(crate) proof fn lemma_next_var(order: Seq<u32>, vars: Seq<u32>, k: int)
    requires
        0 <= k < order.len(),
    ensures
        ({
            let r = crate::wcojoin::restrict_order(order, vars);
            let d = crate::wcojoin::restrict_order(order.take(k), vars).len() as int;
            (d < r.len() && r[d] == order[k]) <==> vars.contains(order[k])
        }),
{
    let r = crate::wcojoin::restrict_order(order, vars);
    let rk = crate::wcojoin::restrict_order(order.take(k), vars);
    let d = rk.len() as int;
    crate::wcojoin::lemma_restrict_step(order, vars, k);
    lemma_restrict_prefix(order, vars, k + 1);
    if vars.contains(order[k]) {
        let rk1 = crate::wcojoin::restrict_order(order.take(k + 1), vars);
        assert(rk1 == rk.push(order[k]));
        assert(r.take(rk1.len() as int) == rk1);
        assert(r[d] == r.take(rk1.len() as int)[d]);
    } else if d < r.len() {
        assert(r.contains(r[d]));
        crate::wcojoin::lemma_restrict_in(order, vars, r[d]);
    }
}

/// Unifying one more variable with a value extends a most general unifier of the rows to one of
/// the rows with that value appended.
proof fn lemma_extend_rows(s0: Map<u32, TermV>, s1: Map<u32, TermV>, rvs: Seq<Seq<u32>>, vals: Seq<Seq<TermV>>, i: int, t: TermV, v: u32)
    requires
        mgu_rows(s0, rvs, vals),
        idem(s1),
        instance_of(s1, s0),
        subst(s1, TermV::Var(v)) == subst(s1, t),
        forall|th: Map<u32, TermV>| #[trigger] instance_of(th, s0) && subst(th, TermV::Var(v)) == subst(th, t) ==> instance_of(th, s1),
        0 <= i < vals.len(),
        vals[i].len() < rvs[i].len(),
        rvs[i][vals[i].len() as int] == v,
    ensures
        mgu_rows(s1, rvs, vals.update(i, vals[i].push(t))),
{
    let nv = vals.update(i, vals[i].push(t));
    assert forall|j: int, d: int| #![trigger nv[j][d]] 0 <= j < nv.len() && 0 <= d < nv[j].len()
        implies subst(s1, TermV::Var(rvs[j][d])) == subst(s1, nv[j][d]) by {
        if j == i && d == vals[i].len() {
        } else {
            assert(nv[j][d] == vals[j][d]);
            assert(subst(s0, TermV::Var(rvs[j][d])) == subst(s0, vals[j][d]));
            crate::subst::lemma_instance_absorbs(s1, s0, TermV::Var(rvs[j][d]));
            crate::subst::lemma_instance_absorbs(s1, s0, vals[j][d]);
        }
    }
    assert forall|th2: Map<u32, TermV>| #[trigger] binds_rows(th2, rvs, nv) implies instance_of(th2, s1) by {
        assert(binds_rows(th2, rvs, vals)) by {
            assert forall|j: int, d: int| #![trigger vals[j][d]] 0 <= j < vals.len() && 0 <= d < vals[j].len()
                implies subst(th2, TermV::Var(rvs[j][d])) == subst(th2, vals[j][d]) by {
                assert(nv[j][d] == vals[j][d]);
            }
        }
        assert(instance_of(th2, s0));
        assert(nv[i][vals[i].len() as int] == t);
    }
}

/// A unifier of full rows unifies their prefixes.
proof fn lemma_rows_prefix(th: Map<u32, TermV>, rvs: Seq<Seq<u32>>, full: Seq<Seq<TermV>>, part: Seq<Seq<TermV>>)
    requires
        full.len() == part.len(),
        forall|i: int| 0 <= i < part.len() ==> prefix_of(#[trigger] part[i], full[i]),
        binds_rows(th, rvs, full),
    ensures
        binds_rows(th, rvs, part),
{
    assert forall|i: int, d: int| #![trigger part[i][d]] 0 <= i < part.len() && 0 <= d < part[i].len()
        implies subst(th, TermV::Var(rvs[i][d])) == subst(th, part[i][d]) by {
        assert(prefix_of(part[i], full[i]));
        assert(part[i][d] == full[i].take(part[i].len() as int)[d]);
        assert(full[i][d] == part[i][d]);
    }
}

/// Two most general unifiers of the same rows give the same answer, and agree on whether it
/// can be encoded.
proof fn lemma_mgu_rows_same_key(t1: Map<u32, TermV>, t2: Map<u32, TermV>, rvs: Seq<Seq<u32>>, vals: Seq<Seq<TermV>>, qv: Seq<u32>)
    requires
        mgu_rows(t1, rvs, vals),
        mgu_rows(t2, rvs, vals),
    ensures
        key_of(t1, qv) == key_of(t2, qv),
        encodable(tuple_of(t1, qv)) == encodable(tuple_of(t2, qv)),
{
    assert(binds_rows(t1, rvs, vals));
    assert(binds_rows(t2, rvs, vals));
    crate::oracle::lemma_tuple_of(t1, qv);
    crate::oracle::lemma_tuple_of(t2, qv);
    crate::subst::lemma_equivalent_same_encoding(t1, t2, crate::oracle::var_tuple(qv));
}

/// Through a child that cannot take the variable's value under the current unifier, no
/// completion exists.
proof fn lemma_no_completion(tries: Seq<UTrie>, projs: Seq<Seq<Seq<TermV>>>, qv: Seq<u32>, cursors: Seq<usize>,
    s0: Map<u32, TermV>, i: int, c: usize, v: u32, k: Seq<u8>)
    requires
        cursors.len() == tries.len(),
        0 <= i < tries.len(),
        mgu_rows(s0, trie_vars(tries), cur_paths(tries, cursors)),
        tries[i].nodes@[c as int].path@ == tries[i].nodes@[cursors[i] as int].path@.push(tries[i].nodes@[c as int].val@),
        tries[i].nodes@[cursors[i] as int].path@.len() < tries[i].rel_vars@.len(),
        tries[i].rel_vars@[tries[i].nodes@[cursors[i] as int].path@.len() as int] == v,
        forall|th: Map<u32, TermV>| #[trigger] instance_of(th, s0) ==> subst(th, TermV::Var(v)) != subst(th, tries[i].nodes@[c as int].val@),
    ensures
        !jfound(tries, projs, qv, cursors.update(i, c), k),
{
    if jfound(tries, projs, qv, cursors.update(i, c), k) {
        let (ch, th) = choose|ch: Seq<int>, th: Map<u32, TermV>| #[trigger] completion(tries, projs, qv, cursors.update(i, c), ch, th, k);
        let full = picked(projs, ch);
        let cur = cur_paths(tries, cursors);
        let d = cur[i].len() as int;
        assert forall|j: int| 0 <= j < cur.len() implies prefix_of(#[trigger] cur[j], full[j]) by {
            assert(0 <= ch[j] < projs[j].len());
            if j == i {
                let pc = tries[i].nodes@[c as int].path@;
                assert(prefix_of(pc, projs[i][ch[i]]));
                assert(projs[i][ch[i]].take(d) =~= pc.take(d));
                assert(pc.take(d) =~= cur[i]);
            } else {
                assert(cursors.update(i, c)[j] == cursors[j]);
            }
        }
        lemma_rows_prefix(th, trie_vars(tries), full, cur);
        assert(instance_of(th, s0));
        let pc = tries[i].nodes@[c as int].path@;
        assert(0 <= ch[i] < projs[i].len() && prefix_of(pc, projs[i][ch[i]]));
        assert(full[i][d] == pc[d]);
        assert(binds_rows(th, trie_vars(tries), full));
        assert(subst(th, TermV::Var(trie_vars(tries)[i][d])) == subst(th, full[i][d]));
    }
}

/// The completions through the cursor of relation `i` are those through its candidate children.
proof fn lemma_split_children(tries: Seq<UTrie>, projs: Seq<Seq<Seq<TermV>>>, qv: Seq<u32>, cursors: Seq<usize>,
    s0: Map<u32, TermV>, i: int, v: u32, vb: TermV, cands: Seq<usize>, k: Seq<u8>)
    requires
        cursors.len() == tries.len(),
        projs.len() == tries.len(),
        0 <= i < tries.len(),
        tries[i].wf(),
        tries[i].indexes(projs[i]),
        cursors[i] < tries[i].nodes@.len(),
        mgu_rows(s0, trie_vars(tries), cur_paths(tries, cursors)),
        tries[i].nodes@[cursors[i] as int].path@.len() < tries[i].rel_vars@.len(),
        tries[i].rel_vars@[tries[i].nodes@[cursors[i] as int].path@.len() as int] == v,
        vb == subst(s0, TermV::Var(v)),
        forall|y: int| 0 <= y < cands.len() ==> tries[i].nodes@[cursors[i] as int].children@.contains(#[trigger] cands[y]),
        forall|a: int| 0 <= a < tries[i].nodes@[cursors[i] as int].children@.len()
            && !cands.contains(#[trigger] tries[i].nodes@[cursors[i] as int].children@[a])
            ==> ground(vb) && ground(tries[i].nodes@[tries[i].nodes@[cursors[i] as int].children@[a] as int].val@)
                && tries[i].nodes@[tries[i].nodes@[cursors[i] as int].children@[a] as int].val@ != vb,
    ensures
        jfound(tries, projs, qv, cursors, k) <==> jfound_some(tries, projs, qv, cursors, i, cands, cands.len() as int, k),
{
    let ns = tries[i].nodes@;
    let n = cursors[i] as int;
    let d = ns[n].path@.len() as int;
    if jfound(tries, projs, qv, cursors, k) {
        let (ch, th) = choose|ch: Seq<int>, th: Map<u32, TermV>| #[trigger] completion(tries, projs, qv, cursors, ch, th, k);
        let p = projs[i][ch[i]];
        assert(0 <= ch[i] < projs[i].len() && prefix_of(ns[n].path@, p));
        assert(has_child_val(ns, n, p[d]));
        let a = choose|a: int| 0 <= a < ns[n].children@.len() && ns[#[trigger] ns[n].children@[a] as int].val@ == p[d];
        let c = ns[n].children@[a];
        assert(child_ok(ns, n, c as int));
        assert(ns[c as int].path@ =~= p.take(d + 1)) by {
            assert(p.take(d + 1) =~= p.take(d).push(p[d]));
        }
        if !cands.contains(c) {
            let full = picked(projs, ch);
            let cur = cur_paths(tries, cursors);
            assert forall|j: int| 0 <= j < cur.len() implies prefix_of(#[trigger] cur[j], full[j]) by {
                assert(0 <= ch[j] < projs[j].len());
            }
            lemma_rows_prefix(th, trie_vars(tries), full, cur);
            assert(instance_of(th, s0));
            crate::subst::lemma_instance_absorbs(th, s0, TermV::Var(v));
            crate::term::lemma_ground_fv(vb);
            crate::term::lemma_ground_fv(p[d]);
            crate::subst::lemma_subst_noop(th, vb);
            crate::subst::lemma_subst_noop(th, p[d]);
            assert(full[i][d] == p[d]);
            assert(subst(th, TermV::Var(trie_vars(tries)[i][d])) == subst(th, full[i][d]));
        }
        let y = choose|y: int| 0 <= y < cands.len() && cands[y] == c;
        let cu = cursors.update(i, cands[y]);
        assert forall|j: int| 0 <= j < tries.len() implies 0 <= #[trigger] ch[j] < projs[j].len()
            && prefix_of(tries[j].nodes@[cu[j] as int].path@, projs[j][ch[j]]) by {
            if j != i {
                assert(cu[j] == cursors[j]);
            } else {
                assert(prefix_of(ns[c as int].path@, p));
            }
        }
        assert(completion(tries, projs, qv, cu, ch, th, k));
        assert(jfound(tries, projs, qv, cu, k));
    }
    if jfound_some(tries, projs, qv, cursors, i, cands, cands.len() as int, k) {
        let y = choose|y: int| 0 <= y < cands.len() && #[trigger] jfound(tries, projs, qv, cursors.update(i, cands[y]), k);
        let c = cands[y];
        let cu = cursors.update(i, c);
        let (ch, th) = choose|ch: Seq<int>, th: Map<u32, TermV>| #[trigger] completion(tries, projs, qv, cu, ch, th, k);
        assert(ns[n].children@.contains(c));
        let a = choose|a: int| 0 <= a < ns[n].children@.len() && ns[n].children@[a] == c;
        assert(child_ok(ns, n, ns[n].children@[a] as int));
        assert forall|j: int| 0 <= j < tries.len() implies 0 <= #[trigger] ch[j] < projs[j].len()
            && prefix_of(tries[j].nodes@[cursors[j] as int].path@, projs[j][ch[j]]) by {
            if j != i {
                assert(cu[j] == cursors[j]);
            } else {
                let p = projs[i][ch[i]];
                assert(cu[i] == c);
                assert(prefix_of(ns[c as int].path@, p));
                assert(p.take(d) =~= ns[c as int].path@.take(d));
                assert(ns[c as int].path@.take(d) =~= ns[n].path@);
            }
        }
        assert(completion(tries, projs, qv, cursors, ch, th, k));
    }
}

/// At the end of the order every cursor is at a full row: the only answer is the current
/// unifier's, when it can be encoded.
proof fn lemma_leaf(order: Seq<u32>, tries: Seq<UTrie>, projs: Seq<Seq<Seq<TermV>>>, vs: Seq<Seq<u32>>, qv: Seq<u32>,
    cursors: Seq<usize>, depths: Seq<usize>, s0: Map<u32, TermV>, k: Seq<u8>)
    requires
        tries_ok(order, tries, projs, vs),
        at_level(order, order.len() as int, tries, vs, cursors, depths),
        mgu_rows(s0, trie_vars(tries), cur_paths(tries, cursors)),
    ensures
        jfound(tries, projs, qv, cursors, k) <==> (encodable(tuple_of(s0, qv)) && k == key_of(s0, qv)),
{
    let cur = cur_paths(tries, cursors);
    assert(order.take(order.len() as int) =~= order);
    assert forall|i: int| 0 <= i < tries.len() implies (#[trigger] cur[i]).len() == tries[i].rel_vars@.len() by {}
    // a row through each cursor
    let ch = Seq::new(tries.len(), |i: int| choose|x: int| 0 <= x < projs[i].len() && prefix_of(cur[i], #[trigger] projs[i][x]));
    assert forall|i: int| 0 <= i < tries.len() implies 0 <= #[trigger] ch[i] < projs[i].len() && prefix_of(cur[i], projs[i][ch[i]]) by {
        assert(tries[i].indexes(projs[i]));
        let ns = tries[i].nodes@;
        let n = cursors[i] as int;
        if n > 0 {
            assert(covered(ns, projs[i], n));
        } else {
            assert(cur[i] =~= Seq::<TermV>::empty());
            assert(projs[i].len() > 0);
            assert(projs[i][0].take(0) =~= Seq::<TermV>::empty());
            assert(prefix_of(cur[i], projs[i][0]));
        }
    }
    assert forall|ch2: Seq<int>| ch2.len() == tries.len() && (forall|i: int| 0 <= i < tries.len() ==> 0 <= #[trigger] ch2[i] < projs[i].len()
        && prefix_of(cur[i], projs[i][ch2[i]])) implies picked(projs, ch2) =~= cur by {
        assert forall|i: int| 0 <= i < tries.len() implies picked(projs, ch2)[i] == cur[i] by {
            assert(0 <= ch2[i] < projs[i].len() && prefix_of(cur[i], projs[i][ch2[i]]));
            assert(tries[i].indexes(projs[i]));
            assert(projs[i][ch2[i]].len() == tries[i].rel_vars@.len());
            assert(projs[i][ch2[i]].take(cur[i].len() as int) =~= projs[i][ch2[i]]);
        }
    }
    assert(picked(projs, ch) =~= cur);
    if encodable(tuple_of(s0, qv)) && k == key_of(s0, qv) {
        assert(completion(tries, projs, qv, cursors, ch, s0, k));
    }
    if jfound(tries, projs, qv, cursors, k) {
        let (ch2, th) = choose|ch2: Seq<int>, th: Map<u32, TermV>| #[trigger] completion(tries, projs, qv, cursors, ch2, th, k);
        assert(picked(projs, ch2) =~= cur);
        lemma_mgu_rows_same_key(th, s0, trie_vars(tries), cur, qv);
    }
}

/// Bind the variables of `order` from position `k` on, one at a time; at the end record the
/// answer key of the query variables. The answers added are those of the completions of the
/// cursors.
fn descend(
    order: &Vec<u32>,
    k: usize,
    query_vars: &Vec<u32>,
    tries: &Vec<UTrie>,
    cursors: &mut Vec<usize>,
    depths: &mut Vec<usize>,
    env: &mut Env,
    out: &mut Vec<Vec<u8>>,
    Ghost(projs): Ghost<Seq<Seq<Seq<TermV>>>>,
    Ghost(vs): Ghost<Seq<Seq<u32>>>,
)
    requires
        k <= order@.len(),
        old(env).wf(),
        tries_ok(order@, tries@, projs, vs),
        at_level(order@, k as int, tries@, vs, old(cursors)@, old(depths)@),
        mgu_rows(old(env).sub(), trie_vars(tries@), cur_paths(tries@, old(cursors)@)),
    ensures
        final(env).wf(),
        final(env).trail_seq() == old(env).trail_seq(),
        final(env).frames() == old(env).frames(),
        final(cursors)@ == old(cursors)@,
        final(depths)@ == old(depths)@,
        forall|key: Seq<u8>| #[trigger] has_key(final(out)@, key) <==> (has_key(old(out)@, key)
            || jfound(tries@, projs, query_vars@, old(cursors)@, key)),
    decreases order@.len() - k, 2int, 0int,
{
    let ghost out0 = out@;
    let ghost s0 = env.sub();
    if k == order.len() {
        proof {
            env.lemma_wf();
        }
        let t = answer_tuple(env, query_vars);
        if t.is_encodable() {
            out.push(t.encode());
        }
        proof {
            assert forall|key: Seq<u8>| #[trigger] has_key(out@, key) <==> (has_key(out0, key)
                || jfound(tries@, projs, query_vars@, cursors@, key)) by {
                lemma_leaf(order@, tries@, projs, vs, query_vars@, cursors@, depths@, s0, key);
                if has_key(out@, key) && !has_key(out0, key) {
                    let j = choose|j: int| 0 <= j < out@.len() && #[trigger] out@[j]@ == key;
                    if j < out0.len() {
                        assert(out0[j]@ == key);
                    }
                }
                if has_key(out0, key) {
                    let j = choose|j: int| 0 <= j < out0.len() && #[trigger] out0[j]@ == key;
                    assert(out@[j]@ == key);
                }
                if jfound(tries@, projs, query_vars@, cursors@, key) {
                    assert(out@[out0.len() as int]@ == key);
                }
            }
        }
        return;
    }
    let v = order[k];
    let mut parts: Vec<usize> = Vec::new();
    let mut i: usize = 0;
    while i < tries.len()
        invariant
            i <= tries@.len(),
            k < order@.len(),
            v == order@[k as int],
            tries_ok(order@, tries@, projs, vs),
            at_level(order@, k as int, tries@, vs, cursors@, depths@),
            forall|a: int, b: int| 0 <= a < b < parts@.len() ==> parts@[a] < parts@[b],
            forall|a: int| 0 <= a < parts@.len() ==> #[trigger] parts@[a] < i,
            forall|j: usize| j < i ==> (#[trigger] parts@.contains(j) <==> vs[j as int].contains(v)),
        decreases tries.len() - i,
    {
        proof {
            lemma_next_var(order@, vs[i as int], k as int);
            assert(tries@[i as int].rel_vars@ == crate::wcojoin::restrict_order(order@, vs[i as int]));
            assert(cursors@[i as int] < tries@[i as int].nodes@.len());
            assert(depths@[i as int] == crate::wcojoin::restrict_order(order@.take(k as int), vs[i as int]).len());
        }
        let ghost p0 = parts@;
        if depths[i] < tries[i].rel_vars.len() && tries[i].rel_vars[depths[i]] == v {
            parts.push(i);
        }
        proof {
            assert forall|j: usize| j < i + 1 implies (#[trigger] parts@.contains(j) <==> vs[j as int].contains(v)) by {
                if j < i {
                    if parts@.contains(j) {
                        let a = choose|a: int| 0 <= a < parts@.len() && parts@[a] == j;
                        if a < p0.len() {
                            assert(p0[a] == j);
                        }
                    }
                    if p0.contains(j) {
                        let a = choose|a: int| 0 <= a < p0.len() && p0[a] == j;
                        assert(parts@[a] == j);
                    }
                } else {
                    if parts@.contains(j) {
                        let a = choose|a: int| 0 <= a < parts@.len() && parts@[a] == j;
                        if a < p0.len() {
                            assert(p0[a] < i);
                        }
                    }
                    if vs[j as int].contains(v) {
                        assert(parts@[p0.len() as int] == j);
                    }
                }
            }
        }
        i += 1;
    }
    if parts.len() == 0 {
        proof {
            assert forall|j: int| 0 <= j < tries@.len() implies #[trigger] cursors@[j] < tries@[j].nodes@.len()
                && tries@[j].nodes@[cursors@[j] as int].path@.len() == depths@[j]
                && depths@[j] == crate::wcojoin::restrict_order(order@.take(k + 1), vs[j]).len() by {
                crate::wcojoin::lemma_restrict_step(order@, vs[j], k as int);
                assert(!parts@.contains(j as usize));
            }
        }
        descend(order, k + 1, query_vars, tries, cursors, depths, env, out, Ghost(projs), Ghost(vs));
        return;
    }
    // Lead with the smallest domain (the leapfrog principle); the rest are seeked. Stable
    // insertion sort by the size of each part's current child list.
    let mut sorted: Vec<usize> = Vec::new();
    let mut a: usize = 0;
    proof {
        assert(parts@.no_duplicates()) by {
            assert forall|x: int, y: int| 0 <= x < parts@.len() && 0 <= y < parts@.len() && x != y implies parts@[x] != parts@[y] by {
                if x < y {
                    assert(parts@[x] < parts@[y]);
                } else {
                    assert(parts@[y] < parts@[x]);
                }
            }
        }
    }
    while a < parts.len()
        invariant
            a <= parts@.len(),
            parts@.no_duplicates(),
            forall|x: int| 0 <= x < parts@.len() ==> #[trigger] parts@[x] < tries@.len(),
            tries_ok(order@, tries@, projs, vs),
            at_level(order@, k as int, tries@, vs, cursors@, depths@),
            sorted@.no_duplicates(),
            forall|c: usize| #[trigger] sorted@.contains(c) <==> parts@.take(a as int).contains(c),
            forall|x: int| 0 <= x < sorted@.len() ==> #[trigger] sorted@[x] < tries@.len(),
        decreases parts.len() - a,
    {
        let p = parts[a];
        let size = tries[p].nodes[cursors[p]].children.len();
        let mut pos: usize = sorted.len();
        while pos > 0
            invariant
                pos <= sorted@.len(),
                p < tries@.len(),
                at_level(order@, k as int, tries@, vs, cursors@, depths@),
                forall|x: int| 0 <= x < sorted@.len() ==> #[trigger] sorted@[x] < tries@.len(),
            decreases pos,
        {
            let prev = sorted[pos - 1];
            if size < tries[prev].nodes[cursors[prev]].children.len() {
                pos -= 1;
            } else {
                break;
            }
        }
        let ghost s0q = sorted@;
        sorted.insert(pos, p);
        proof {
            lemma_insert_at(s0q, pos as int, p);
            assert(sorted@ == s0q.insert(pos as int, p));
            assert(!parts@.take(a as int).contains(p)) by {
                if parts@.take(a as int).contains(p) {
                    let j = choose|j: int| 0 <= j < a && #[trigger] parts@.take(a as int)[j] == p;
                    assert(parts@[j] == parts@[a as int]);
                }
            }
            assert forall|c: usize| #[trigger] sorted@.contains(c) <==> parts@.take(a + 1).contains(c) by {
                if parts@.take(a + 1).contains(c) {
                    let j = choose|j: int| 0 <= j < a + 1 && #[trigger] parts@.take(a + 1)[j] == c;
                    if j < a {
                        assert(parts@.take(a as int)[j] == c);
                    }
                }
                if parts@.take(a as int).contains(c) {
                    let j = choose|j: int| 0 <= j < a && #[trigger] parts@.take(a as int)[j] == c;
                    assert(parts@.take(a + 1)[j] == c);
                }
                if c == p {
                    assert(parts@.take(a + 1)[a as int] == c);
                }
            }
            assert(sorted@.no_duplicates()) by {
                assert forall|x: int, y: int| 0 <= x < sorted@.len() && 0 <= y < sorted@.len() && x != y
                    implies sorted@[x] != sorted@[y] by {
                    if x != pos && y != pos {
                        let kx = if x < pos { x } else { x - 1 };
                        let ky = if y < pos { y } else { y - 1 };
                        assert(s0q[kx] == sorted@[x]);
                        assert(s0q[ky] == sorted@[y]);
                    } else if x == pos {
                        let ky = if y < pos { y } else { y - 1 };
                        assert(s0q[ky] == sorted@[y]);
                        assert(s0q.contains(sorted@[y]));
                    } else {
                        let kx = if x < pos { x } else { x - 1 };
                        assert(s0q[kx] == sorted@[x]);
                        assert(s0q.contains(sorted@[x]));
                    }
                }
            }
            assert forall|x: int| 0 <= x < sorted@.len() implies #[trigger] sorted@[x] < tries@.len() by {
                if x < pos {
                    assert(sorted@[x] == s0q[x]);
                } else if x > pos {
                    assert(sorted@[x] == s0q[x - 1]);
                }
            }
        }
        a += 1;
    }
    proof {
        assert(parts@.take(parts@.len() as int) =~= parts@);
        assert(sorted@.subrange(0, sorted@.len() as int) =~= sorted@);
        assert forall|j: usize| #[trigger] sorted@.contains(j) <==> (j < tries@.len() && vs[j as int].contains(v)) by {
            assert(parts@.contains(j) <==> sorted@.contains(j));
            if j < tries@.len() {
                assert(parts@.contains(j) <==> vs[j as int].contains(v));
            } else if parts@.contains(j) {
                let x = choose|x: int| 0 <= x < parts@.len() && parts@[x] == j;
            }
        }
        assert forall|j: int| 0 <= j < tries@.len() implies #[trigger] cursors@[j] < tries@[j].nodes@.len()
            && tries@[j].nodes@[cursors@[j] as int].path@.len() == depths@[j]
            && depths@[j] + (if sorted@.subrange(0, sorted@.len() as int).contains(j as usize) { 1int } else { 0int })
                == crate::wcojoin::restrict_order(order@.take(k + 1), vs[j]).len() by {
            crate::wcojoin::lemma_restrict_step(order@, vs[j], k as int);
        }
        assert(at_part(order@, k as int, sorted@, 0, tries@, vs, cursors@, depths@));
    }
    intersect(order, k, &sorted, 0, v, query_vars, tries, cursors, depths, env, out, Ghost(projs), Ghost(vs));
}

/// Intersect variable `v` across the participating relations under unification. The lead (the
/// first, smallest part) enumerates its children; each later part seeks the children unifiable
/// with the binding the lead pinned. When all parts agree, go on to the next variable.
/// Backtracking restores the trail and the cursors. The answers added are those of the
/// completions of the cursors.
fn intersect(
    order: &Vec<u32>,
    k: usize,
    parts: &Vec<usize>,
    pi: usize,
    v: u32,
    query_vars: &Vec<u32>,
    tries: &Vec<UTrie>,
    cursors: &mut Vec<usize>,
    depths: &mut Vec<usize>,
    env: &mut Env,
    out: &mut Vec<Vec<u8>>,
    Ghost(projs): Ghost<Seq<Seq<Seq<TermV>>>>,
    Ghost(vs): Ghost<Seq<Seq<u32>>>,
)
    requires
        k < order@.len(),
        v == order@[k as int],
        pi <= parts@.len(),
        old(env).wf(),
        tries_ok(order@, tries@, projs, vs),
        at_part(order@, k as int, parts@, pi as int, tries@, vs, old(cursors)@, old(depths)@),
        mgu_rows(old(env).sub(), trie_vars(tries@), cur_paths(tries@, old(cursors)@)),
    ensures
        final(env).wf(),
        final(env).trail_seq() == old(env).trail_seq(),
        final(env).frames() == old(env).frames(),
        final(cursors)@ == old(cursors)@,
        final(depths)@ == old(depths)@,
        forall|key: Seq<u8>| #[trigger] has_key(final(out)@, key) <==> (has_key(old(out)@, key)
            || jfound(tries@, projs, query_vars@, old(cursors)@, key)),
    decreases order@.len() - k, 1int, parts@.len() - pi,
{
    proof {
        assert(order@.len() == order.len());
        assert(parts@.len() == parts.len());
    }
    if pi == parts.len() {
        proof {
            assert forall|j: int| 0 <= j < tries@.len() implies #[trigger] cursors@[j] < tries@[j].nodes@.len()
                && tries@[j].nodes@[cursors@[j] as int].path@.len() == depths@[j]
                && depths@[j] == crate::wcojoin::restrict_order(order@.take(k + 1), vs[j]).len() by {
                assert(parts@.subrange(pi as int, parts@.len() as int) =~= Seq::<usize>::empty());
            }
        }
        descend(order, k + 1, query_vars, tries, cursors, depths, env, out, Ghost(projs), Ghost(vs));
        return;
    }
    let i = parts[pi];
    let ghost c0 = cursors@;
    let ghost d0 = depths@;
    let ghost s0 = env.sub();
    let ghost t0 = env.trail_seq();
    let ghost f0 = env.frames();
    let ghost out0 = out@;
    let ghost qv = query_vars@;
    proof {
        env.lemma_wf();
        assert(parts@.contains(i));
        assert(parts@.subrange(pi as int, parts@.len() as int)[0] == i);
        assert(parts@.subrange(pi as int, parts@.len() as int).contains(i));
        lemma_next_var(order@, vs[i as int], k as int);
        crate::wcojoin::lemma_restrict_step(order@, vs[i as int], k as int);
        assert(tries@[i as int].rel_vars@ == crate::wcojoin::restrict_order(order@, vs[i as int]));
    }
    let saved_cursor = cursors[i];
    let saved_depth = depths[i];
    let nt = tries.len();
    let vb = env.resolve(&Term::Var(v));
    let cands = candidates(&tries[i], saved_cursor, &vb);
    let ghost ns = tries@[i as int].nodes@;
    let mut x: usize = 0;
    proof {
        assert forall|key: Seq<u8>| #[trigger] has_key(out@, key) <==> (has_key(out0, key)
            || jfound_some(tries@, projs, qv, c0, i as int, cands@, 0, key)) by {}
    }
    while x < cands.len()
        invariant
            x <= cands@.len(),
            i < tries@.len(),
            k < order@.len(),
            v == order@[k as int],
            pi < parts@.len(),
            parts@.len() <= usize::MAX,
            parts@[pi as int] == i,
            nt == tries@.len(),
            qv == query_vars@,
            ns == tries@[i as int].nodes@,
            tries_ok(order@, tries@, projs, vs),
            at_part(order@, k as int, parts@, pi as int, tries@, vs, c0, d0),
            saved_cursor == c0[i as int],
            saved_depth == d0[i as int],
            saved_depth < tries@[i as int].rel_vars@.len(),
            tries@[i as int].rel_vars@[saved_depth as int] == v,
            cursors@ == c0,
            depths@ == d0,
            env.wf(),
            env.sub() == s0,
            env.trail_seq() == t0,
            env.frames() == f0,
            f0.len() == t0.len() + 1,
            mgu_rows(s0, trie_vars(tries@), cur_paths(tries@, c0)),
            vb@ == subst(s0, TermV::Var(v)),
            forall|y: int| 0 <= y < cands@.len() ==> ns[saved_cursor as int].children@.contains(#[trigger] cands@[y]),
            forall|key: Seq<u8>| #[trigger] has_key(out@, key) <==> (has_key(out0, key)
                || jfound_some(tries@, projs, qv, c0, i as int, cands@, x as int, key)),
        decreases cands.len() - x,
    {
        let child = cands[x];
        let ghost outx = out@;
        proof {
            assert(ns[saved_cursor as int].children@.contains(cands@[x as int]));
            let c = choose|c: int| 0 <= c < ns[saved_cursor as int].children@.len()
                && ns[saved_cursor as int].children@[c] == child;
            assert(tries@[i as int].wf());
            assert(child_ok(ns, saved_cursor as int, ns[saved_cursor as int].children@[c] as int));
        }
        let m = env.mark();
        let ok = saved_depth < tries[i].rel_vars.len() && env.unify(&Term::Var(v), &tries[i].nodes[child].val);
        let ghost cu = c0.update(i as int, child);
        if ok {
            cursors.set(i, child);
            depths.set(i, saved_depth + 1);
            proof {
                env.lemma_wf();
                let val = ns[child as int].val@;
                assert(cur_paths(tries@, cursors@) =~= cur_paths(tries@, c0).update(i as int, cur_paths(tries@, c0)[i as int].push(val)));
                lemma_extend_rows(s0, env.sub(), trie_vars(tries@), cur_paths(tries@, c0), i as int, val, v);
                assert(cursors@ == cu);
                let sub1 = parts@.subrange(pi + 1, parts@.len() as int);
                let sub0 = parts@.subrange(pi as int, parts@.len() as int);
                assert forall|j: int| 0 <= j < tries@.len() implies #[trigger] cursors@[j] < tries@[j].nodes@.len()
                    && tries@[j].nodes@[cursors@[j] as int].path@.len() == depths@[j]
                    && depths@[j] + (if sub1.contains(j as usize) { 1int } else { 0int })
                        == crate::wcojoin::restrict_order(order@.take(k + 1), vs[j]).len() by {
                    if j == i {
                        assert(!sub1.contains(i)) by {
                            if sub1.contains(i) {
                                let y = choose|y: int| 0 <= y < sub1.len() && sub1[y] == i;
                                assert(parts@[pi + 1 + y] == parts@[pi as int]);
                            }
                        }
                        assert(sub0[0] == i);
                        assert(sub0.contains(i as usize));
                    } else {
                        assert(tries@.len() == nt);
                        let ju = j as usize;
                        assert(ju as int == j);
                        assert(ju != i);
                        assert(sub0[0] == i);
                        assert(sub1.contains(ju) <==> sub0.contains(ju)) by {
                            if sub0.contains(ju) {
                                let y = choose|y: int| 0 <= y < sub0.len() && sub0[y] == ju;
                                assert(y != 0);
                                assert(sub1[y - 1] == ju);
                            }
                            if sub1.contains(ju) {
                                let y = choose|y: int| 0 <= y < sub1.len() && sub1[y] == ju;
                                assert(sub0[y + 1] == ju);
                            }
                        }
                    }
                }
                assert(at_part(order@, k as int, parts@, pi + 1, tries@, vs, cursors@, depths@));
            }
            intersect(order, k, parts, pi + 1, v, query_vars, tries, cursors, depths, env, out, Ghost(projs), Ghost(vs));
        } else {
            proof {
                let val = ns[child as int].val@;
                assert forall|th: Map<u32, TermV>| #[trigger] instance_of(th, s0) implies subst(th, TermV::Var(v)) != subst(th, val) by {}
                assert forall|key: Seq<u8>| !jfound(tries@, projs, qv, cu, key) by {
                    lemma_no_completion(tries@, projs, qv, c0, s0, i as int, child, v, key);
                }
            }
        }
        cursors.set(i, saved_cursor);
        depths.set(i, saved_depth);
        env.rollback(m);
        proof {
            assert(cursors@ =~= c0);
            assert(depths@ =~= d0);
            env.lemma_wf();
            assert(env.trail_seq() =~= t0);
            assert(env.frames() =~= f0);
            assert forall|key: Seq<u8>| #[trigger] has_key(out@, key) <==> (has_key(out0, key)
                || jfound_some(tries@, projs, qv, c0, i as int, cands@, x + 1, key)) by {
                assert(has_key(outx, key) <==> (has_key(out0, key) || jfound_some(tries@, projs, qv, c0, i as int, cands@, x as int, key)));
                assert(cands@[x as int] == child);
                if ok {
                    assert(has_key(out@, key) <==> (has_key(outx, key) || jfound(tries@, projs, qv, cu, key)));
                } else {
                    assert(out@ == outx);
                    assert(!jfound(tries@, projs, qv, cu, key));
                }
                if jfound_some(tries@, projs, qv, c0, i as int, cands@, x + 1, key) {
                    let y = choose|y: int| 0 <= y < x + 1 && #[trigger] jfound(tries@, projs, qv, c0.update(i as int, cands@[y]), key);
                    if y < x {
                        assert(jfound_some(tries@, projs, qv, c0, i as int, cands@, x as int, key));
                    }
                }
                if jfound_some(tries@, projs, qv, c0, i as int, cands@, x as int, key) {
                    let y = choose|y: int| 0 <= y < x && #[trigger] jfound(tries@, projs, qv, c0.update(i as int, cands@[y]), key);
                    assert(jfound_some(tries@, projs, qv, c0, i as int, cands@, x + 1, key));
                }
                if jfound(tries@, projs, qv, cu, key) {
                    assert(jfound(tries@, projs, qv, c0.update(i as int, cands@[x as int]), key));
                    assert(jfound_some(tries@, projs, qv, c0, i as int, cands@, x + 1, key));
                }
            }
        }
        x += 1;
    }
    proof {
        assert forall|key: Seq<u8>| #[trigger] has_key(out@, key) <==> (has_key(out0, key)
            || jfound(tries@, projs, qv, c0, key)) by {
            lemma_split_children(tries@, projs, qv, c0, s0, i as int, v, vb@, cands@, key);
        }
    }
}

/// What materializing the patterns against the facts gives: one relation per pattern, over the
/// pattern's variables, each non-empty, with encodable values, and each tuple the bindings of
/// the pattern matched against one of the facts.
pub open spec fn materialized(pats: Seq<TermV>, facts: Seq<TermV>, rels: Seq<Relation>) -> bool {
    &&& rels.len() == pats.len()
    &&& forall|j: int| 0 <= j < rels.len() ==> (#[trigger] rels[j]).vars@ == vars_of(pats[j])
    &&& forall|j: int| 0 <= j < rels.len() ==> (#[trigger] rels[j]).tuples@.len() > 0
    &&& forall|j: int| 0 <= j < rels.len() ==> rel_encodable(#[trigger] rels[j])
    &&& forall|j: int| 0 <= j < rels.len() ==> (#[trigger] rels[j]).tuples@.len() <= facts.len()
    &&& forall|j: int, t: int| 0 <= j < rels.len() && 0 <= t < rels[j].tuples@.len()
        ==> tuple_from(pats, facts, j, #[trigger] rels[j].tuples@[t]@)
    &&& forall|j: int| 0 <= j < rels.len() ==> rel_complete(pats, facts, j, #[trigger] rels[j])
}

/// The variables of each relation, in `order`.
pub open spec fn rel_orders(rels: Seq<Relation>, order: Seq<u32>) -> Seq<Seq<u32>> {
    Seq::new(rels.len(), |i: int| crate::wcojoin::restrict_order(order, rels[i].vars@))
}

/// The values a choice of one tuple per relation gives its variables, in `order`.
pub open spec fn row_vals(rels: Seq<Relation>, order: Seq<u32>, ch: Seq<int>) -> Seq<Seq<TermV>> {
    Seq::new(rels.len(), |i: int| proj(rels[i].tuples@[ch[i]]@, crate::wcojoin::restrict_order(order, rels[i].vars@)))
}

/// `ch` picks one tuple of each relation, `th` is a most general unifier of the bindings they
/// make, and `k` is the encoded tuple of the query variables under it.
pub open spec fn join_row(rels: Seq<Relation>, order: Seq<u32>, qv: Seq<u32>, ch: Seq<int>, th: Map<u32, TermV>, k: Seq<u8>) -> bool {
    &&& ch.len() == rels.len()
    &&& forall|i: int| 0 <= i < rels.len() ==> 0 <= #[trigger] ch[i] < rels[i].tuples@.len()
    &&& mgu_rows(th, rel_orders(rels, order), row_vals(rels, order, ch))
    &&& encodable(tuple_of(th, qv))
    &&& k == key_of(th, qv)
}

/// The answers of the join of the relations under unification: for each choice of one tuple per
/// relation whose bindings unify, the encoded tuple of the query variables under their most
/// general unifier (one that can be encoded).
pub open spec fn join_answers(rels: Seq<Relation>, order: Seq<u32>, qv: Seq<u32>) -> Set<Seq<u8>> {
    Set::new(|k: Seq<u8>| exists|ch: Seq<int>, th: Map<u32, TermV>| #[trigger] join_row(rels, order, qv, ch, th, k))
}

/// The leapfrog-unification join. Returns the set of canonical answer keys, in the format of
/// [`crate::oracle::naive_match`]: the answers of the join, under unification, of the relations
/// the patterns materialize into. An answer tuple the encoder refuses is left out.
pub fn leapfrog_unify_join(q: &Conj, space: &[Term]) -> (r: BTreeSet<Vec<u8>>)
    requires
        mat_ready(crate::term::views(q.patterns@), crate::term::views(space@)),
    ensures
        (exists|j: int| 0 <= j < q.patterns@.len() && #[trigger] unmatched(crate::term::views(q.patterns@), crate::term::views(space@), j))
            ==> forall|x: Vec<u8>| !r@.contains(x),
        !(exists|j: int| 0 <= j < q.patterns@.len() && #[trigger] unmatched(crate::term::views(q.patterns@), crate::term::views(space@), j))
            ==> exists|rels: Seq<Relation>| #[trigger] materialized(crate::term::views(q.patterns@), crate::term::views(space@), rels)
                && forall|k: Seq<u8>| (exists|x: Vec<u8>| #[trigger] r@.contains(x) && x@ == k)
                    <==> join_answers(rels, q.query_vars@, q.query_vars@).contains(k),
        crate::agreement::agree_ready(crate::term::views(q.patterns@), crate::term::views(space@), q.query_vars@)
            ==> crate::agreement::same_keys(r@, crate::oracle::answers(crate::term::views(q.patterns@), crate::term::views(space@), q.query_vars@)),
{
    let rels = match materialize(q, space) {
        Some(r) => r,
        None => {
            let r = to_key_set(Vec::new());
            proof {
                assert forall|x: Vec<u8>| !r@.contains(x) by {
                    assert(!has_key(Seq::<Vec<u8>>::empty(), x@));
                }
                let pats = crate::term::views(q.patterns@);
                let facts = crate::term::views(space@);
                if crate::agreement::agree_ready(pats, facts, q.query_vars@) {
                    let j = choose|j: int| 0 <= j < q.patterns@.len() && #[trigger] unmatched(pats, facts, j);
                    crate::agreement::lemma_unmatched_no_answers(pats, facts, q.query_vars@, j);
                    reveal(crate::agreement::same_keys);
                }
            }
            return r;
        },
    };
    let ghost pats = crate::term::views(q.patterns@);
    let ghost facts = crate::term::views(space@);
    let ghost rs = rels@;
    let order = &q.query_vars;
    let ghost vs = Seq::new(rs.len(), |i: int| rs[i].vars@);
    let ghost projs = Seq::new(rs.len(), |i: int| projs_of(rs[i].tuples@, crate::wcojoin::restrict_order(order@, rs[i].vars@)));
    let mut tries: Vec<UTrie> = Vec::new();
    let mut j: usize = 0;
    while j < rels.len()
        invariant
            j <= rels@.len(),
            rs == rels@,
            materialized(pats, facts, rs),
            pats == crate::term::views(q.patterns@),
            facts == crate::term::views(space@),
            vs == Seq::new(rs.len(), |i: int| rs[i].vars@),
            projs == Seq::new(rs.len(), |i: int| projs_of(rs[i].tuples@, crate::wcojoin::restrict_order(order@, rs[i].vars@))),
            tries@.len() == j,
            forall|x: int| 0 <= x < j ==> (#[trigger] tries@[x]).wf() && tries@[x].indexes(projs[x])
                && tries@[x].rel_vars@ == crate::wcojoin::restrict_order(order@, vs[x]),
        decreases rels.len() - j,
    {
        proof {
            assert forall|x: int, v: u32| 0 <= x < rs[j as int].tuples@.len() && rs[j as int].vars@.contains(v)
                implies #[trigger] rs[j as int].tuples@[x]@.contains_key(v) by {
                let t = rs[j as int].tuples@[x]@;
                assert(tuple_from(pats, facts, j as int, t));
                let (kk, th) = choose|kk: int, th: Map<u32, TermV>| 0 <= kk < facts.len()
                    && #[trigger] is_mgu(th, pair_of(pats[j as int], facts[kk], mat_offset(j as int, kk, facts.len() as int)))
                    && tuple_ok(t, vars_of(pats[j as int]), th);
            }
            assert(rel_encodable(rs[j as int]));
            assert(rs[j as int].tuples@.len() > 0);
        }
        let tr = build(&rels[j], order);
        tries.push(tr);
        proof {
            assert forall|x: int| 0 <= x < j + 1 implies (#[trigger] tries@[x]).wf() && tries@[x].indexes(projs[x])
                && tries@[x].rel_vars@ == crate::wcojoin::restrict_order(order@, vs[x]) by {
                if x == j {
                    assert(tries@[x] == tr);
                }
            }
        }
        j += 1;
    }
    let mut cursors: Vec<usize> = Vec::new();
    let mut depths: Vec<usize> = Vec::new();
    let mut x: usize = 0;
    while x < tries.len()
        invariant
            x <= tries@.len(),
            cursors@.len() == x,
            depths@.len() == x,
            forall|y: int| 0 <= y < tries@.len() ==> (#[trigger] tries@[y]).wf(),
            forall|y: int| 0 <= y < x ==> #[trigger] cursors@[y] == 0,
            forall|y: int| 0 <= y < x ==> #[trigger] depths@[y] == 0,
        decreases tries.len() - x,
    {
        cursors.push(0);
        depths.push(0);
        x += 1;
    }
    let mut env = Env::new();
    let mut out: Vec<Vec<u8>> = Vec::new();
    let ghost roots = cursors@;
    let ghost qv = q.query_vars@;
    proof {
        assert(tries_ok(order@, tries@, projs, vs));
        assert(order@.take(0) =~= Seq::<u32>::empty());
        assert forall|i: int| 0 <= i < tries@.len() implies #[trigger] cursors@[i] < tries@[i].nodes@.len()
            && tries@[i].nodes@[cursors@[i] as int].path@.len() == depths@[i]
            && depths@[i] == crate::wcojoin::restrict_order(order@.take(0), vs[i]).len() by {
            assert(tries@[i].wf());
            reveal(Seq::filter);
            assert(crate::wcojoin::restrict_order(Seq::<u32>::empty(), vs[i]) =~= Seq::<u32>::empty());
        }
        assert(at_level(order@, 0, tries@, vs, cursors@, depths@));
        let cur = cur_paths(tries@, cursors@);
        assert forall|i: int| 0 <= i < cur.len() implies (#[trigger] cur[i]).len() == 0 by {
            assert(tries@[i].wf());
        }
        assert(mgu_rows(env.sub(), trie_vars(tries@), cur)) by {
            assert forall|th2: Map<u32, TermV>| #[trigger] binds_rows(th2, trie_vars(tries@), cur) implies instance_of(th2, env.sub()) by {}
        }
    }
    descend(order, 0, &q.query_vars, &tries, &mut cursors, &mut depths, &mut env, &mut out, Ghost(projs), Ghost(vs));
    let ghost ov = out@;
    let r = to_key_set(out);
    proof {
        assert(trie_vars(tries@) =~= rel_orders(rs, order@));
        assert forall|ch: Seq<int>| ch.len() == rs.len() && (forall|i: int| 0 <= i < rs.len() ==> 0 <= #[trigger] ch[i] < rs[i].tuples@.len())
            implies #[trigger] picked(projs, ch) == row_vals(rs, order@, ch) by {
            assert(picked(projs, ch) =~= row_vals(rs, order@, ch));
        }
        assert forall|k: Seq<u8>| (exists|x: Vec<u8>| #[trigger] r@.contains(x) && x@ == k)
            <==> join_answers(rs, qv, qv).contains(k) by {
            assert(has_key(ov, k) <==> jfound(tries@, projs, qv, roots, k));
            if jfound(tries@, projs, qv, roots, k) {
                let (ch, th) = choose|ch: Seq<int>, th: Map<u32, TermV>| #[trigger] completion(tries@, projs, qv, roots, ch, th, k);
                assert(picked(projs, ch) == row_vals(rs, order@, ch));
                assert forall|i: int| 0 <= i < rs.len() implies 0 <= #[trigger] ch[i] < rs[i].tuples@.len() by {
                    assert(0 <= ch[i] < projs[i].len());
                }
                assert(join_row(rs, qv, qv, ch, th, k));
            }
            if join_answers(rs, qv, qv).contains(k) {
                let (ch, th) = choose|ch: Seq<int>, th: Map<u32, TermV>| #[trigger] join_row(rs, qv, qv, ch, th, k);
                assert(picked(projs, ch) == row_vals(rs, order@, ch));
                assert forall|i: int| 0 <= i < tries@.len() implies 0 <= #[trigger] ch[i] < projs[i].len()
                    && prefix_of(tries@[i].nodes@[roots[i] as int].path@, projs[i][ch[i]]) by {
                    assert(tries@[i].wf());
                    assert(roots[i] == 0);
                    assert(projs[i][ch[i]].take(0) =~= Seq::<TermV>::empty());
                }
                assert(completion(tries@, projs, qv, roots, ch, th, k));
            }
        }
        assert(materialized(pats, facts, rs));
        if crate::agreement::agree_ready(pats, facts, qv) {
            crate::agreement::lemma_join_agrees(pats, facts, qv, rs);
            reveal(crate::agreement::same_keys);
            assert forall|k: Seq<u8>| (exists|x: Vec<u8>| #[trigger] r@.contains(x) && x@ == k)
                <==> #[trigger] crate::oracle::answers(pats, facts, qv).contains(k) by {
                assert((exists|x: Vec<u8>| #[trigger] r@.contains(x) && x@ == k) <==> join_answers(rs, qv, qv).contains(k));
            }
        }
    }
    r
}

} // verus!
