use std::collections::BTreeMap;

use mork_uni_join::term::{parse, Term};
use mork_uni_join::wcojoin::{all_vars, wco_join, Relation};

fn rel(vars: &[u32], tuples: &[&[(u32, &str)]]) -> Relation {
    Relation {
        vars: vars.to_vec(),
        tuples: tuples
            .iter()
            .map(|t| t.iter().map(|(v, s)| (*v, parse(s))).collect())
            .collect(),
    }
}

#[test]
fn triangle_finds_only_the_triangle() {
    let edges: &[&[(u32, &str)]] = &[
        &[(0, "a"), (1, "b")],
        &[(0, "a"), (1, "c")],
        &[(0, "b"), (1, "c")],
        &[(0, "b"), (1, "d")],
    ];
    let r = rel(&[0, 1], edges);
    let s = Relation {
        vars: vec![1, 2],
        tuples: edges
            .iter()
            .map(|t| {
                let mut m = BTreeMap::new();
                m.insert(1u32, parse(t[0].1));
                m.insert(2u32, parse(t[1].1));
                m
            })
            .collect(),
    };
    let tt = Relation {
        vars: vec![0, 2],
        tuples: edges
            .iter()
            .map(|t| {
                let mut m = BTreeMap::new();
                m.insert(0u32, parse(t[0].1));
                m.insert(2u32, parse(t[1].1));
                m
            })
            .collect(),
    };
    let res = wco_join(&[r, s, tt], &[0, 1, 2], &mut 0);
    assert_eq!(res.len(), 1);
    let sol = &res[0];
    assert_eq!(sol[&0], parse("a"));
    assert_eq!(sol[&1], parse("b"));
    assert_eq!(sol[&2], parse("c"));
}

#[test]
fn cartesian_when_disjoint() {
    let a = rel(&[0], &[&[(0, "x")], &[(0, "y")]]);
    let b = rel(&[1], &[&[(1, "p")], &[(1, "q")]]);
    let res = wco_join(&[a, b], &[0, 1], &mut 0);
    assert_eq!(res.len(), 4);
}

#[test]
fn all_vars_lists_first_seen_order() {
    let a = rel(&[2, 0], &[]);
    let b = rel(&[0, 5, 2], &[]);
    assert_eq!(all_vars(&[a, b]), vec![2, 0, 5]);
}

#[test]
fn unconstrained_variable_has_no_binding() {
    let a = rel(&[0], &[&[(0, "x")]]);
    let res = wco_join(&[a], &[0, 7], &mut 0);
    assert!(res.is_empty());
}

#[test]
fn visits_count_the_search_nodes() {
    let a = rel(&[0], &[&[(0, "x")], &[(0, "y")]]);
    let mut visits = 0u64;
    let res = wco_join(&[a], &[0], &mut visits);
    assert_eq!(res.len(), 2);
    assert_eq!(visits, 3);
    let keys: Vec<Term> = res.iter().map(|s| s[&0].clone()).collect();
    assert_eq!(keys, vec![parse("x"), parse("y")]);
}
