use mork_uni_join::oracle::{answer_key, naive_match, Conj};
use mork_uni_join::term::{parse, Term};
use mork_uni_join::unify::Env;

fn space(facts: &[&str]) -> Vec<Term> {
    facts.iter().map(|s| parse(s)).collect()
}

#[test]
fn ground_conjunction_two_answers() {
    let q = Conj::parse(&["(edge $x $y)"]);
    let s = space(&["(edge a b)", "(edge b c)"]);
    let ans = naive_match(&q, &s);
    assert_eq!(ans.len(), 2);
    assert!(ans.contains(&Term::App(vec![parse("a"), parse("b")]).encode()));
    assert!(ans.contains(&Term::App(vec![parse("b"), parse("c")]).encode()));
}

#[test]
fn func_type_unification_yields_f() {
    let q = Conj::parse(&["(: ($f) A)", "(: $f (-> A))"]);
    let s = space(&["(: (f) A)", "(: f (-> A))"]);
    let ans = naive_match(&q, &s);
    assert_eq!(ans.len(), 1, "exactly one answer: $f = f");
    assert!(ans.contains(&Term::App(vec![parse("f")]).encode()));
}

#[test]
fn schematic_fact_is_matched_not_dropped() {
    let q = Conj::parse(&["(rel $x b)"]);
    let s = space(&["(rel a $w)"]);
    let ans = naive_match(&q, &s);
    assert_eq!(ans.len(), 1);
    assert!(ans.contains(&Term::App(vec![parse("a")]).encode()));
}

#[test]
fn triangle_join_finds_only_the_triangle() {
    let q = Conj::parse(&["(e $x $y)", "(e $y $z)", "(e $x $z)"]);
    let s = space(&["(e a b)", "(e a c)", "(e b c)", "(e b d)"]);
    let ans = naive_match(&q, &s);
    assert_eq!(ans.len(), 1, "only (a,b,c)");
    assert!(ans.contains(&Term::App(vec![parse("a"), parse("b"), parse("c")]).encode()));
}

#[test]
fn no_match_is_empty() {
    let q = Conj::parse(&["(edge $x $x)"]);
    let s = space(&["(edge a b)", "(edge b c)"]);
    assert!(naive_match(&q, &s).is_empty());
}

#[test]
fn conj_parse_collects_query_vars_in_first_occurrence_order() {
    let q = Conj::parse(&["(e $y $x)", "(e $x $z)"]);
    assert_eq!(q.query_vars, vec![0, 1, 2]);
    assert_eq!(q.patterns.len(), 2);
    assert_eq!(q.patterns[1], parse_all_second());
}

fn parse_all_second() -> Term {
    Term::App(vec![Term::sym("e"), Term::Var(1), Term::Var(2)])
}

#[test]
fn answer_key_encodes_the_bound_tuple() {
    let mut e = Env::new();
    assert!(e.unify(&Term::Var(0), &parse("a")));
    let k = answer_key(&e, &[0, 1]);
    assert_eq!(k, Term::App(vec![parse("a"), Term::Var(1)]).encode());
}

#[test]
fn empty_query_has_the_empty_answer() {
    let q = Conj { patterns: vec![], query_vars: vec![] };
    let ans = naive_match(&q, &space(&["(a)"]));
    assert_eq!(ans.len(), 1);
    assert!(ans.contains(&Term::App(vec![]).encode()));
}
