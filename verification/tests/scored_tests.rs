use std::collections::BTreeSet;

use mork_uni_join::oracle::{naive_match, Conj};
use mork_uni_join::scored::{eval_cost, exact_leaf, match_cost, tropical_leaf};
use mork_uni_join::semiring::{Count, Reach, Semiring, Tropical};
use mork_uni_join::term::{parse, Term};
use mork_uni_join::unify::Env;

fn space(f: &[&str]) -> Vec<Term> {
    f.iter().map(|s| parse(s)).collect()
}

#[test]
fn reach_semiring_recovers_the_exact_matcher() {
    let cases: &[(&[&str], &[&str])] = &[
        (
            &["(e $x $y)", "(e $y $z)", "(e $x $z)"],
            &["(e a b)", "(e a c)", "(e b c)", "(e b d)"],
        ),
        (&["(: ($f) A)", "(: $f (-> A))"], &["(: (f) A)", "(: f (-> A))"]),
        (&["(p $x)", "(q $x)"], &["(p a)", "(q a)", "(q b)"]),
        (&["(rel $x b)"], &["(rel a $w)"]),
    ];
    for (pats, facts) in cases {
        let q = Conj::parse(pats);
        let s = space(facts);
        let scored = eval_cost::<Reach>(&q, &s, &|p, d| exact_leaf(p, d));
        let reach_keys: BTreeSet<Vec<u8>> = scored
            .into_iter()
            .filter(|(_, c)| c.0)
            .map(|(k, _)| k)
            .collect();
        let oracle: BTreeSet<Vec<u8>> = naive_match(&q, &s).into_iter().collect();
        assert_eq!(reach_keys, oracle, "Reach must recover exact for {pats:?}");
    }
}

#[test]
fn tropical_makes_the_join_key_fuzzy() {
    let q = Conj::parse(&["(a $x)", "(b $x)"]);
    let s = space(&["(a 5)", "(b 7)"]);
    assert!(naive_match(&q, &s).is_empty(), "exact finds nothing");
    let scored = eval_cost(&q, &s, &tropical_leaf);
    assert_eq!(scored.len(), 1);
    assert_eq!(scored.values().next().unwrap(), &Tropical(Some(2)));
}

#[test]
fn tropical_keeps_the_best_alternative() {
    let q = Conj::parse(&["(t $x)", "(u $x)"]);
    let s = space(&["(t 10)", "(u 10)", "(u 13)"]);
    let scored = eval_cost(&q, &s, &tropical_leaf);
    assert_eq!(scored.len(), 1);
    assert_eq!(scored.values().next().unwrap(), &Tropical(Some(0)));
}

#[test]
fn mixed_crisp_structure_and_fuzzy_number_in_one_pass() {
    let q = Conj::parse(&["(reading europe $t)", "(around $t)"]);
    let s = space(&[
        "(reading europe 1995)",
        "(reading europe 1998)",
        "(reading asia 1995)",
        "(around 1992)",
    ]);
    let scored = eval_cost(&q, &s, &tropical_leaf);
    let best = scored
        .values()
        .cloned()
        .fold(Tropical::zero(), |a, v| a.add(&v));
    assert_eq!(best, Tropical(Some(3)));
    assert_eq!(scored.len(), 2);
}

#[test]
fn count_semiring_counts_derivations() {
    let q = Conj::parse(&["(e $x)"]);
    let s = space(&["(e a)", "(e a)", "(e b)"]);
    let scored = eval_cost::<Count>(&q, &s, &|p, d| exact_leaf(p, d));
    let a = parse("a");
    let b = parse("b");
    assert_eq!(scored[&Term::App(vec![a]).encode()], Count(2));
    assert_eq!(scored[&Term::App(vec![b]).encode()], Count(1));
}

#[test]
fn tropical_leaf_prices_numbers_and_symbols() {
    assert_eq!(tropical_leaf(&parse("5"), &parse("7")), Tropical(Some(2)));
    assert_eq!(tropical_leaf(&parse("-3"), &parse("4")), Tropical(Some(7)));
    assert_eq!(tropical_leaf(&parse("a"), &parse("a")), Tropical(Some(0)));
    assert_eq!(tropical_leaf(&parse("a"), &parse("b")), Tropical(None));
}

#[test]
fn exact_leaf_is_one_on_equal_and_zero_otherwise() {
    assert_eq!(exact_leaf::<Reach>(&parse("a"), &parse("a")), Reach(true));
    assert_eq!(exact_leaf::<Count>(&parse("a"), &parse("b")), Count(0));
}

#[test]
fn match_cost_multiplies_leaf_costs_and_binds_variables() {
    let mut env = Env::new();
    let c = match_cost(&parse("(p $x 5)"), &parse("(p a 7)"), &mut env, &tropical_leaf);
    assert_eq!(c, Tropical(Some(2)));
    assert_eq!(env.resolve(&Term::Var(0)), parse("a"));
    let mut env2 = Env::new();
    let d = match_cost(&parse("(p a)"), &parse("(p a b)"), &mut env2, &tropical_leaf);
    assert_eq!(d, Tropical(None));
}
