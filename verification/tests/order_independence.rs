use std::collections::{BTreeSet, HashMap};

use mork_uni_join::corpus;
use mork_uni_join::oracle::Conj;
use mork_uni_join::term::{self, Scope, Term};
use mork_uni_join::unijoin::leapfrog_unify_join;

fn perms<T: Clone>(items: &[T]) -> Vec<Vec<T>> {
    if items.len() <= 1 {
        return vec![items.to_vec()];
    }
    let mut out = Vec::new();
    for i in 0..items.len() {
        let mut rest = items.to_vec();
        let head = rest.remove(i);
        for mut tail in perms(&rest) {
            tail.insert(0, head.clone());
            out.push(tail);
        }
    }
    out
}

fn answers_canonical(q: &Conj, space: &[Term], canonical_order: &[u32]) -> BTreeSet<Vec<u8>> {
    let mut out = BTreeSet::new();
    for key in &leapfrog_unify_join(q, space) {
        let tuple = match Term::decode(key) {
            Term::App(a) => a,
            t => vec![t],
        };
        let map: HashMap<u32, Term> = q.query_vars.iter().copied().zip(tuple).collect();
        let recanon = Term::App(canonical_order.iter().map(|v| map[v].clone()).collect());
        out.insert(recanon.encode());
    }
    out
}

#[test]
fn join_answer_set_is_order_independent() {
    for case in corpus::cases() {
        let mut scope = Scope::new();
        for p in case.patterns {
            let _ = term::parse_with_scope(p, &mut scope);
        }
        let mut canonical: Vec<u32> = scope.values();
        canonical.sort_unstable();
        let space: Vec<Term> = case.facts.iter().map(|f| term::parse(f)).collect();

        let parse_in = |order: &[usize], sc: &Scope| -> Vec<Term> {
            let mut sc = sc.clone();
            order
                .iter()
                .map(|&i| term::parse_with_scope(case.patterns[i], &mut sc))
                .collect()
        };
        let identity: Vec<usize> = (0..case.patterns.len()).collect();
        let reference = answers_canonical(
            &Conj { patterns: parse_in(&identity, &scope), query_vars: canonical.clone() },
            &space,
            &canonical,
        );

        for perm in perms(&identity) {
            let q = Conj { patterns: parse_in(&perm, &scope), query_vars: canonical.clone() };
            let got = answers_canonical(&q, &space, &canonical);
            assert_eq!(
                got,
                reference,
                "case {:?}: factor order {:?} changed the answer set\n  +{:?}\n  -{:?}",
                case.name,
                perm,
                got.difference(&reference).map(|k| Term::decode(k).to_string()).collect::<Vec<_>>(),
                reference.difference(&got).map(|k| Term::decode(k).to_string()).collect::<Vec<_>>(),
            );
        }

        let patterns_fixed = parse_in(&identity, &scope);
        for vperm in perms(&canonical) {
            let q = Conj { patterns: patterns_fixed.clone(), query_vars: vperm.clone() };
            let got = answers_canonical(&q, &space, &canonical);
            assert_eq!(
                got, reference,
                "case {:?}: elimination order {:?} changed the answer set",
                case.name, vperm,
            );
        }
    }
}
