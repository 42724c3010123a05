//! The baseline matcher: a naive, obviously-correct matcher for a conjunctive query.
//!
//! This is the ground truth the fast joins are checked against. A data-side variable in a
//! stored fact matches any query subterm (it is a wildcard that captures), otherwise shapes
//! must agree and children match pairwise, and coreference is enforced by unification. It is
//! complete by construction: it tries every assignment of one stored fact per pattern and
//! unifies them all simultaneously.

use vstd::prelude::*;
use std::collections::BTreeSet;
use crate::term::{Term, TermV, views, lemma_view_app, encodable, encoding, collect_seq, fv, shift, shift_ok};
use crate::unify::Env;
use crate::subst::{subst, idem, instance_of, lemma_instance_absorbs, lemma_equivalent_same_encoding, lemma_subst_app};
use crate::parse::{parse_all, p_all, strs_view};

verus! {

/// A conjunctive query: patterns that must all match, sharing variables.
pub struct Conj {
    pub patterns: Vec<Term>,
    /// The query (head) variables bindings are reported for: every variable in the query,
    /// in first-occurrence order.
    pub query_vars: Vec<u32>,
}

impl Conj {
    /// Build from S-expression strings that share a variable scope.
    pub fn parse(pats: &[&str]) -> (q: Conj)
        requires
            p_all(strs_view(pats@), seq![]) is Some,
        ensures
            views(q.patterns@) == p_all(strs_view(pats@), seq![])->Some_0.0,
            q.query_vars@ == collect_seq(views(q.patterns@), seq![]),
    {
        let patterns = parse_all(pats);
        let mut query_vars: Vec<u32> = Vec::new();
        let ghost va = views(patterns@);
        proof {
            assert(va.subrange(0, va.len() as int) =~= va);
            assert(query_vars@ =~= Seq::<u32>::empty());
        }
        let mut i: usize = 0;
        while i < patterns.len()
            invariant
                i <= patterns@.len(),
                va == views(patterns@),
                collect_seq(va.subrange(i as int, va.len() as int), query_vars@) == collect_seq(va, seq![]),
            decreases patterns.len() - i,
        {
            proof {
                let r = va.subrange(i as int, va.len() as int);
                assert(r[0] == patterns@[i as int]@);
                assert(r.subrange(1, r.len() as int) =~= va.subrange(i + 1, va.len() as int));
            }
            patterns[i].collect_vars(&mut query_vars);
            i += 1;
        }
        proof {
            assert(va.subrange(va.len() as int, va.len() as int) =~= Seq::<TermV>::empty());
        }
        Conj { patterns, query_vars }
    }
}

/// Data-side variables get fresh ids disjoint from the query and from each other, so a
/// schematic fact used twice (or matched against two patterns) does not accidentally
/// share variables. Query variables are small; data ids start here.
pub const DATA_VAR_BASE: u32 = 1_000_000;

/// The id range one fact occurrence gets (a fact has at most 64 variables).
pub const DATA_VAR_STRIDE: u32 = 64;

/// The tuple of the query variables' values under `s`.
pub open spec fn tuple_of(s: Map<u32, TermV>, qv: Seq<u32>) -> TermV {
    TermV::App(Seq::new(qv.len(), |k: int| subst(s, TermV::Var(qv[k]))))
}

/// The canonical key of an answer: the encoded tuple of the query variables' values.
pub open spec fn key_of(s: Map<u32, TermV>, qv: Seq<u32>) -> Seq<u8> {
    encoding(tuple_of(s, qv))
}

/// The first fresh id at level `k` of the search, when level `j < k` chose fact `c[j]`.
pub open spec fn level_base(c: Seq<int>, k: nat) -> int
    decreases k,
{
    if k == 0 || k > c.len() {
        DATA_VAR_BASE as int
    } else {
        level_base(c, (k - 1) as nat) + DATA_VAR_STRIDE * (c[k - 1] + 1)
    }
}

/// The id offset of the fact chosen at level `k`.
pub open spec fn fact_offset(c: Seq<int>, k: int) -> int {
    level_base(c, k as nat) + DATA_VAR_STRIDE * c[k]
}

/// The pattern/fact pairs of a choice of one fact per pattern, each fact renamed apart.
pub open spec fn choice_pairs(pats: Seq<TermV>, facts: Seq<TermV>, c: Seq<int>) -> Seq<(TermV, TermV)> {
    Seq::new(c.len(), |k: int| (pats[k], shift(facts[c[k]], fact_offset(c, k) as u32)))
}

/// `th` makes both sides of every pair equal.
pub open spec fn unifies(th: Map<u32, TermV>, ps: Seq<(TermV, TermV)>) -> bool {
    forall|k: int| 0 <= k < ps.len() ==> #[trigger] subst(th, ps[k].0) == subst(th, ps[k].1)
}

/// `th` is an idempotent most general unifier of the pairs.
pub open spec fn is_mgu(th: Map<u32, TermV>, ps: Seq<(TermV, TermV)>) -> bool {
    &&& idem(th)
    &&& unifies(th, ps)
    &&& forall|th2: Map<u32, TermV>| #[trigger] unifies(th2, ps) ==> instance_of(th2, th)
}

/// A most general unifier of the pairs (meaningful where one exists).
pub open spec fn mgu(ps: Seq<(TermV, TermV)>) -> Map<u32, TermV> {
    choose|th: Map<u32, TermV>| is_mgu(th, ps)
}

/// `c` picks one of `m` facts for each of `n` patterns.
pub open spec fn is_choice(c: Seq<int>, n: nat, m: nat) -> bool {
    c.len() == n && forall|k: int| 0 <= k < n ==> 0 <= #[trigger] c[k] < m
}

/// The patterns unify simultaneously with the chosen facts.
pub open spec fn matched(pats: Seq<TermV>, facts: Seq<TermV>, c: Seq<int>) -> bool {
    exists|th: Map<u32, TermV>| is_mgu(th, choice_pairs(pats, facts, c))
}

/// The answer key of a matching choice.
pub open spec fn answer_of(pats: Seq<TermV>, facts: Seq<TermV>, qv: Seq<u32>, c: Seq<int>) -> Seq<u8> {
    key_of(mgu(choice_pairs(pats, facts, c)), qv)
}

/// Every answer of the query: the key of each choice of facts that matches.
pub open spec fn answers(pats: Seq<TermV>, facts: Seq<TermV>, qv: Seq<u32>) -> Set<Seq<u8>> {
    Set::new(|k: Seq<u8>| exists|c: Seq<int>| #[trigger] is_choice(c, pats.len(), facts.len()) && matched(pats, facts, c)
        && k == answer_of(pats, facts, qv, c))
}

/// The largest id bound the search reaches.
pub open spec fn id_room(n: nat, m: nat) -> int {
    DATA_VAR_BASE + DATA_VAR_STRIDE * n * m
}

/// What the matcher needs of its inputs: the renamed data ids fit in a `u32`, and every
/// answer can be encoded (at most 63 query variables, well-shaped values, at most 64
/// variables in a tuple).
pub open spec fn ready(pats: Seq<TermV>, qv: Seq<u32>, facts: Seq<TermV>) -> bool {
    &&& id_room(pats.len(), facts.len()) <= u32::MAX
    &&& forall|j: int, v: u32| 0 <= j < facts.len() && #[trigger] fv(facts[j]).contains(v)
        ==> v + id_room(pats.len(), facts.len()) <= u32::MAX
    &&& forall|c: Seq<int>, th: Map<u32, TermV>| is_choice(c, pats.len(), facts.len()) && #[trigger] is_mgu(th, choice_pairs(pats, facts, c))
        ==> encodable(tuple_of(th, qv))
}

/// `k` is the model of one of the byte strings of `v`.
pub open spec fn has_key(v: Seq<Vec<u8>>, k: Seq<u8>) -> bool {
    exists|j: int| 0 <= j < v.len() && #[trigger] v[j]@ == k
}

/// The tuple of the query variables' current values.
pub fn answer_tuple(env: &Env, query_vars: &[u32]) -> (t: Term)
    requires
        env.wf(),
    ensures
        t@ == tuple_of(env.sub(), query_vars@),
{
    let mut vals: Vec<Term> = Vec::new();
    let mut i: usize = 0;
    while i < query_vars.len()
        invariant
            env.wf(),
            i <= query_vars@.len(),
            vals@.len() == i,
            forall|j: int| 0 <= j < i ==> #[trigger] vals@[j]@ == subst(env.sub(), TermV::Var(query_vars@[j])),
        decreases query_vars.len() - i,
    {
        let v = env.resolve(&Term::Var(query_vars[i]));
        vals.push(v);
        i += 1;
    }
    proof {
        lemma_view_app(vals);
        assert(views(vals@) =~= tuple_of(env.sub(), query_vars@)->App_0);
    }
    Term::App(vals)
}

/// Canonical key for one answer: the tuple of query-variable bindings, encoded to MORK
/// bytes so it is normalized up to renaming of any leftover (data) variables. Two
/// substitutions that agree on the query variables up to renaming map to one key.
pub fn answer_key(env: &Env, query_vars: &[u32]) -> (k: Vec<u8>)
    requires
        env.wf(),
        encodable(tuple_of(env.sub(), query_vars@)),
    ensures
        k@ == key_of(env.sub(), query_vars@),
{
    let tuple = answer_tuple(env, query_vars);
    tuple.encode()
}

/// Collect byte strings into an ordered set (`BTreeSet::from_iter`): the set holds each of
/// the given strings, and nothing else.
#[verifier::external_body]
pub(crate) fn to_key_set(v: Vec<Vec<u8>>) -> (s: BTreeSet<Vec<u8>>)
    ensures
        forall|k: Seq<u8>| (exists|x: Vec<u8>| #[trigger] s@.contains(x) && x@ == k) <==> has_key(v@, k),
{
    BTreeSet::from_iter(v)
}


/// `c2` is a full choice that starts with `c`.
pub open spec fn completes(c2: Seq<int>, c: Seq<int>, n: nat, m: nat) -> bool {
    is_choice(c2, n, m) && c2.take(c.len() as int) == c
}

/// The term listing the query variables.
pub open spec fn var_tuple(qv: Seq<u32>) -> TermV {
    TermV::App(Seq::new(qv.len(), |k: int| TermV::Var(qv[k])))
}

pub(crate) proof fn lemma_tuple_of(s: Map<u32, TermV>, qv: Seq<u32>)
    ensures
        tuple_of(s, qv) == subst(s, var_tuple(qv)),
{
    let a = Seq::new(qv.len(), |k: int| TermV::Var(qv[k]));
    lemma_subst_app(s, a);
    assert(tuple_of(s, qv)->App_0 =~= Seq::new(a.len(), |j: int| subst(s, a[j])));
}

/// Any two most general unifiers of a problem give the same answer key.
pub(crate) proof fn lemma_mgu_key(t1: Map<u32, TermV>, t2: Map<u32, TermV>, ps: Seq<(TermV, TermV)>, qv: Seq<u32>)
    requires
        is_mgu(t1, ps),
        is_mgu(t2, ps),
    ensures
        key_of(t1, qv) == key_of(t2, qv),
{
    assert(unifies(t1, ps));
    assert(unifies(t2, ps));
    lemma_tuple_of(t1, qv);
    lemma_tuple_of(t2, qv);
    lemma_equivalent_same_encoding(t1, t2, var_tuple(qv));
}

pub(crate) proof fn lemma_level_base_prefix(c2: Seq<int>, c: Seq<int>, k: nat)
    requires
        c.len() <= c2.len(),
        c2.take(c.len() as int) == c,
        k <= c.len(),
    ensures
        level_base(c2, k) == level_base(c, k),
    decreases k,
{
    if k > 0 {
        lemma_level_base_prefix(c2, c, (k - 1) as nat);
        assert(c2[k - 1] == c2.take(c.len() as int)[k - 1]);
    }
}

pub(crate) proof fn lemma_level_base_bound(c: Seq<int>, k: nat, m: nat)
    requires
        k <= c.len(),
        forall|j: int| 0 <= j < k ==> 0 <= #[trigger] c[j] < m,
    ensures
        DATA_VAR_BASE <= level_base(c, k) <= DATA_VAR_BASE + DATA_VAR_STRIDE * m * k,
    decreases k,
{
    if k > 0 {
        lemma_level_base_bound(c, (k - 1) as nat, m);
        let x = c[k - 1];
        assert(0 <= x < m);
        assert(DATA_VAR_STRIDE * m * (k - 1) + DATA_VAR_STRIDE * (x + 1) <= DATA_VAR_STRIDE * m * k) by (nonlinear_arith)
            requires
                0 <= x < m,
                k >= 1,
        ;
    }
}

pub(crate) proof fn lemma_room(i: nat, j: nat, n: nat, m: nat)
    requires
        i < n,
        j < m,
    ensures
        DATA_VAR_BASE + DATA_VAR_STRIDE * m * i + DATA_VAR_STRIDE * (j + 1) <= id_room(n, m),
{
    assert(DATA_VAR_STRIDE * m * i + DATA_VAR_STRIDE * (j + 1) <= DATA_VAR_STRIDE * n * m) by (nonlinear_arith)
        requires
            i < n,
            j < m,
    ;
}

/// The pairs of a longer choice start with the pairs of its prefix.
pub(crate) proof fn lemma_pairs_prefix(pats: Seq<TermV>, facts: Seq<TermV>, c2: Seq<int>, c: Seq<int>)
    requires
        c.len() <= c2.len(),
        c2.take(c.len() as int) == c,
    ensures
        forall|k: int| 0 <= k < c.len() ==> #[trigger] choice_pairs(pats, facts, c2)[k] == choice_pairs(pats, facts, c)[k],
{
    assert forall|k: int| 0 <= k < c.len() implies #[trigger] choice_pairs(pats, facts, c2)[k] == choice_pairs(pats, facts, c)[k] by {
        lemma_level_base_prefix(c2, c, k as nat);
        assert(c2[k] == c2.take(c.len() as int)[k]);
    }
}

/// A unifier of a longer choice unifies its prefix.
pub(crate) proof fn lemma_unifies_prefix(th: Map<u32, TermV>, pats: Seq<TermV>, facts: Seq<TermV>, c2: Seq<int>, c: Seq<int>)
    requires
        c.len() <= c2.len(),
        c2.take(c.len() as int) == c,
        unifies(th, choice_pairs(pats, facts, c2)),
    ensures
        unifies(th, choice_pairs(pats, facts, c)),
{
    lemma_pairs_prefix(pats, facts, c2, c);
    let p2 = choice_pairs(pats, facts, c2);
    let p1 = choice_pairs(pats, facts, c);
    assert forall|k: int| 0 <= k < p1.len() implies #[trigger] subst(th, p1[k].0) == subst(th, p1[k].1) by {
        assert(p2[k] == p1[k]);
        assert(subst(th, p2[k].0) == subst(th, p2[k].1));
    }
}

/// `k` is the answer of a matching full choice that starts with `c`.
pub open spec fn found(pats: Seq<TermV>, facts: Seq<TermV>, qv: Seq<u32>, c: Seq<int>, k: Seq<u8>) -> bool {
    exists|c2: Seq<int>| #[trigger] completes(c2, c, pats.len(), facts.len()) && matched(pats, facts, c2)
        && k == answer_of(pats, facts, qv, c2)
}

/// As `found`, where the choice after `c` is below `j`.
pub open spec fn found_below(pats: Seq<TermV>, facts: Seq<TermV>, qv: Seq<u32>, c: Seq<int>, j: int, k: Seq<u8>) -> bool {
    exists|c2: Seq<int>| #[trigger] completes(c2, c, pats.len(), facts.len()) && c2[c.len() as int] < j
        && matched(pats, facts, c2) && k == answer_of(pats, facts, qv, c2)
}

pub(crate) proof fn lemma_found_step(pats: Seq<TermV>, facts: Seq<TermV>, qv: Seq<u32>, c: Seq<int>, j: int, k: Seq<u8>)
    requires
        c.len() < pats.len(),
        0 <= j,
    ensures
        found_below(pats, facts, qv, c, j + 1, k) <==> (found_below(pats, facts, qv, c, j, k) || found(pats, facts, qv, c.push(j), k)),
        !found_below(pats, facts, qv, c, 0, k),
{
    let n = pats.len();
    let m = facts.len();
    let i = c.len() as int;
    let cj = c.push(j);
    if found_below(pats, facts, qv, c, j + 1, k) {
        let c2 = choose|c2: Seq<int>| #[trigger] completes(c2, c, n, m) && c2[i] < j + 1 && matched(pats, facts, c2) && k == answer_of(pats, facts, qv, c2);
        if c2[i] == j {
            assert(c2.take(i + 1) =~= cj) by {
                assert forall|x: int| 0 <= x < i + 1 implies c2.take(i + 1)[x] == cj[x] by {
                    if x < i {
                        assert(c2.take(i)[x] == c[x]);
                    }
                }
            }
            assert(completes(c2, cj, n, m));
        }
    }
    if found(pats, facts, qv, cj, k) {
        let c2 = choose|c2: Seq<int>| #[trigger] completes(c2, cj, n, m) && matched(pats, facts, c2) && k == answer_of(pats, facts, qv, c2);
        assert(c2.take(i) =~= c) by {
            assert(c2.take(i) =~= c2.take(i + 1).take(i));
        }
        assert(c2[i] == c2.take(i + 1)[i]);
        assert(completes(c2, c, n, m));
    }
    if found_below(pats, facts, qv, c, 0, k) {
        let c2 = choose|c2: Seq<int>| #[trigger] completes(c2, c, n, m) && c2[i] < 0 && matched(pats, facts, c2) && k == answer_of(pats, facts, qv, c2);
        assert(0 <= c2[i]);
    }
}

/// All answers to `q` against `space`, as a set of canonical keys: exactly the keys of the
/// choices of one fact per pattern that unify with the patterns all at once.
pub fn naive_match(q: &Conj, space: &[Term]) -> (r: BTreeSet<Vec<u8>>)
    requires
        ready(views(q.patterns@), q.query_vars@, views(space@)),
    ensures
        forall|k: Seq<u8>| (exists|x: Vec<u8>| #[trigger] r@.contains(x) && x@ == k)
            <==> answers(views(q.patterns@), views(space@), q.query_vars@).contains(k),
{
    let mut out: Vec<Vec<u8>> = Vec::new();
    let mut env = Env::new();
    let mut fresh: u32 = DATA_VAR_BASE;
    let ghost pats = views(q.patterns@);
    let ghost facts = views(space@);
    let ghost qv = q.query_vars@;
    let ghost n = pats.len();
    let ghost m = facts.len();
    let ghost c0 = Seq::<int>::empty();
    proof {
        assert(choice_pairs(pats, facts, c0) =~= Seq::<(TermV, TermV)>::empty());
        assert forall|th2: Map<u32, TermV>| #[trigger] unifies(th2, choice_pairs(pats, facts, c0)) implies instance_of(th2, env.sub()) by {}
    }
    go(q, space, 0, &mut env, &mut fresh, &mut out, Ghost(c0));
    let ghost ov = out@;
    proof {
        assert forall|k: Seq<u8>| has_key(ov, k) <==> answers(pats, facts, qv).contains(k) by {
            assert(!has_key(Seq::<Vec<u8>>::empty(), k));
            if answers(pats, facts, qv).contains(k) {
                let c2 = choose|c2: Seq<int>| #[trigger] is_choice(c2, pats.len(), facts.len()) && matched(pats, facts, c2)
                    && k == answer_of(pats, facts, qv, c2);
                assert(c2.take(0) =~= c0);
                assert(completes(c2, c0, n, m));
                assert(found(pats, facts, qv, c0, k));
            }
            if found(pats, facts, qv, c0, k) {
                let c2 = choose|c2: Seq<int>| #[trigger] completes(c2, c0, n, m) && matched(pats, facts, c2) && k == answer_of(pats, facts, qv, c2);
                assert(is_choice(c2, pats.len(), facts.len()));
            }
        }
    }
    let r = to_key_set(out);
    proof {
        assert forall|k: Seq<u8>| (exists|x: Vec<u8>| #[trigger] r@.contains(x) && x@ == k) <==> answers(pats, facts, qv).contains(k) by {
            assert(has_key(ov, k) <==> answers(pats, facts, qv).contains(k));
        }
    }
    r
}

fn go(
    q: &Conj,
    space: &[Term],
    i: usize,
    env: &mut Env,
    fresh: &mut u32,
    out: &mut Vec<Vec<u8>>,
    Ghost(c): Ghost<Seq<int>>,
)
    requires
        ready(views(q.patterns@), q.query_vars@, views(space@)),
        old(env).wf(),
        c.len() == i,
        i <= q.patterns@.len(),
        forall|k: int| 0 <= k < i ==> 0 <= #[trigger] c[k] < space@.len(),
        *old(fresh) == level_base(c, i as nat),
        is_mgu(old(env).sub(), choice_pairs(views(q.patterns@), views(space@), c)),
    ensures
        final(env).wf(),
        final(env).trail_seq() == old(env).trail_seq(),
        final(env).frames() == old(env).frames(),
        forall|k: Seq<u8>| #[trigger] has_key(final(out)@, k) <==> (has_key(old(out)@, k)
            || found(views(q.patterns@), views(space@), q.query_vars@, c, k)),
    decreases q.patterns@.len() - i,
{
    let ghost pats = views(q.patterns@);
    let ghost facts = views(space@);
    let ghost qv = q.query_vars@;
    let ghost n = pats.len();
    let ghost m = facts.len();
    let ghost s0 = env.sub();
    let ghost t0 = env.trail_seq();
    let ghost f0 = env.frames();
    let ghost out0 = out@;
    if i == q.patterns.len() {
        proof {
            env.lemma_wf();
            let ps = choice_pairs(pats, facts, c);
            assert(is_mgu(s0, ps));
            let th = mgu(ps);
            assert(is_mgu(th, ps));
            lemma_mgu_key(s0, th, ps, qv);
            assert(is_choice(c, n, m));
        }
        let key = answer_key(env, &q.query_vars);
        out.push(key);
        proof {
            assert forall|k: Seq<u8>| #[trigger] has_key(out@, k) <==> (has_key(out0, k) || found(pats, facts, qv, c, k)) by {
                if has_key(out@, k) {
                    let j = choose|j: int| 0 <= j < out@.len() && #[trigger] out@[j]@ == k;
                    if j < out0.len() {
                        assert(out0[j]@ == k);
                    } else {
                        assert(c.take(c.len() as int) =~= c);
                        assert(completes(c, c, n, m));
                    }
                }
                if has_key(out0, k) {
                    let j = choose|j: int| 0 <= j < out0.len() && #[trigger] out0[j]@ == k;
                    assert(out@[j]@ == k);
                }
                if found(pats, facts, qv, c, k) {
                    let c2 = choose|c2: Seq<int>| #[trigger] completes(c2, c, n, m) && matched(pats, facts, c2) && k == answer_of(pats, facts, qv, c2);
                    assert(c2 =~= c2.take(c.len() as int));
                    assert(out@[out0.len() as int]@ == k);
                }
            }
        }
        return;
    }
    let mut j: usize = 0;
    proof {
        env.lemma_wf();
        assert forall|k: Seq<u8>| #[trigger] has_key(out@, k) <==> (has_key(out0, k) || found_below(pats, facts, qv, c, 0, k)) by {
            lemma_found_step(pats, facts, qv, c, 0, k);
        }
    }
    while j < space.len()
        invariant
            pats == views(q.patterns@),
            facts == views(space@),
            qv == q.query_vars@,
            n == q.patterns@.len(),
            m == space@.len(),
            ready(pats, qv, facts),
            c.len() == i,
            i < n,
            n <= usize::MAX,
            f0.len() == t0.len() + 1,
            forall|k: int| 0 <= k < i ==> 0 <= #[trigger] c[k] < m,
            is_mgu(s0, choice_pairs(pats, facts, c)),
            j <= m,
            env.wf(),
            env.sub() == s0,
            env.trail_seq() == t0,
            env.frames() == f0,
            *fresh == level_base(c, i as nat) + DATA_VAR_STRIDE * j,
            forall|k: Seq<u8>| #[trigger] has_key(out@, k) <==> (has_key(out0, k) || found_below(pats, facts, qv, c, j as int, k)),
        decreases space.len() - j,
    {
        proof {
            lemma_level_base_bound(c, i as nat, m);
            lemma_room(i as nat, j as nat, n, m);
        }
        let fact = &space[j];
        proof {
            assert forall|v: u32| fv(fact@).contains(v) implies v + *fresh <= u32::MAX by {
                assert(facts[j as int] == fact@);
            }
        }
        let fact_i = fact.rename_apart(*fresh);
        let saved_fresh = *fresh;
        *fresh = *fresh + DATA_VAR_STRIDE;
        let ghost cj = c.push(j as int);
        let ghost outj = out@;
        proof {
            assert(cj.take(i as int) =~= c);
            lemma_level_base_prefix(cj, c, i as nat);
            lemma_pairs_prefix(pats, facts, cj, c);
            assert(choice_pairs(pats, facts, cj)[i as int] == (pats[i as int], fact_i@));
        }
        let mk = env.mark();
        let ok = env.unify(&q.patterns[i], &fact_i);
        if ok {
            proof {
                let s1 = env.sub();
                let pj = choice_pairs(pats, facts, cj);
                let pc = choice_pairs(pats, facts, c);
                env.lemma_wf();
                assert forall|k: int| 0 <= k < pj.len() implies #[trigger] subst(s1, pj[k].0) == subst(s1, pj[k].1) by {
                    if k < i {
                        assert(pj[k] == pc[k]);
                        assert(subst(s0, pc[k].0) == subst(s0, pc[k].1));
                        lemma_instance_absorbs(s1, s0, pc[k].0);
                        lemma_instance_absorbs(s1, s0, pc[k].1);
                    } else {
                        assert(pats[i as int] == q.patterns@[i as int]@);
                    }
                }
                assert forall|th2: Map<u32, TermV>| #[trigger] unifies(th2, pj) implies instance_of(th2, s1) by {
                    lemma_unifies_prefix(th2, pats, facts, cj, c);
                    assert(instance_of(th2, s0));
                    assert(subst(th2, pj[i as int].0) == subst(th2, pj[i as int].1));
                    assert(pats[i as int] == q.patterns@[i as int]@);
                }
                assert(is_mgu(s1, pj));
                assert forall|k: int| 0 <= k < i + 1 implies 0 <= #[trigger] cj[k] < m by {}
            }
            go(q, space, i + 1, env, fresh, out, Ghost(cj));
        }
        proof {
            if !ok {
                assert forall|k: Seq<u8>| !found(pats, facts, qv, cj, k) by {
                    if found(pats, facts, qv, cj, k) {
                        let c2 = choose|c2: Seq<int>| #[trigger] completes(c2, cj, n, m) && matched(pats, facts, c2) && k == answer_of(pats, facts, qv, c2);
                        let th = choose|th: Map<u32, TermV>| is_mgu(th, choice_pairs(pats, facts, c2));
                        let p2 = choice_pairs(pats, facts, c2);
                        assert(c2.take(i as int) =~= c) by {
                            assert(c2.take(i as int) =~= c2.take(i + 1).take(i as int));
                        }
                        lemma_unifies_prefix(th, pats, facts, c2, c);
                        assert(instance_of(th, s0));
                        lemma_pairs_prefix(pats, facts, c2, cj);
                        assert(p2[i as int] == choice_pairs(pats, facts, cj)[i as int]);
                        assert(subst(th, p2[i as int].0) == subst(th, p2[i as int].1));
                        assert(pats[i as int] == q.patterns@[i as int]@);
                    }
                }
                assert(out@ == outj);
            }
        }
        env.rollback(mk);
        *fresh = saved_fresh + DATA_VAR_STRIDE;
        proof {
            env.lemma_wf();
            assert(env.trail_seq() =~= t0);
            assert(env.frames() =~= f0);
            assert forall|k: Seq<u8>| #[trigger] has_key(out@, k) <==> (has_key(out0, k) || found_below(pats, facts, qv, c, j + 1, k)) by {
                lemma_found_step(pats, facts, qv, c, j as int, k);
                assert(has_key(outj, k) <==> (has_key(out0, k) || found_below(pats, facts, qv, c, j as int, k)));
                if ok {
                    assert(has_key(out@, k) <==> (has_key(outj, k) || found(pats, facts, qv, cj, k)));
                } else {
                    assert(!found(pats, facts, qv, cj, k));
                }
            }
        }
        j += 1;
    }
    proof {
        assert forall|k: Seq<u8>| found(pats, facts, qv, c, k) <==> found_below(pats, facts, qv, c, m as int, k) by {
            if found(pats, facts, qv, c, k) {
                let c2 = choose|c2: Seq<int>| #[trigger] completes(c2, c, n, m) && matched(pats, facts, c2) && k == answer_of(pats, facts, qv, c2);
                assert(c2[i as int] < m);
            }
        }
    }
}

} // verus!
