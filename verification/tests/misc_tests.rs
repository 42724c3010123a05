use mork_uni_join::corpus;
use mork_uni_join::oracle::Conj;
use mork_uni_join::prolog::{canon, program};
use mork_uni_join::randgen::{gen_facts, gen_query, Rng};
use mork_uni_join::term::{parse, parse_all, parse_with_scope, Scope, Term};

#[test]
fn corpus_cases_are_parseable_queries() {
    let cases = corpus::cases();
    assert_eq!(cases.len(), 14);
    for c in &cases {
        assert!(!c.patterns.is_empty());
        let q = Conj::parse(c.patterns);
        assert_eq!(q.patterns.len(), c.patterns.len());
    }
}

#[test]
fn canon_renders_levels_and_expressions() {
    assert_eq!(canon(&Term::decode(&parse("(f $x (g $x $y))").encode())), "(f _0 (g _0 _1))");
    assert_eq!(canon(&parse("a")), "a");
    assert_eq!(canon(&parse("()")), "()");
}

#[test]
fn program_names_query_vars_and_fact_vars() {
    let q = Conj::parse(&["(e $x)"]);
    let p = program(&q, &[parse("(e $w)")]);
    assert!(p.contains("_Q0"));
    assert!(p.starts_with(":- set_prolog_flag(occurs_check, true)."));
    assert!(p.contains("'$a'('e',"));
}

#[test]
fn rng_is_the_xorshift_star_stream() {
    let mut r = Rng(1);
    let first = r.next();
    let mut x: u64 = 1;
    x ^= x >> 12;
    x ^= x << 25;
    x ^= x >> 27;
    assert_eq!(first, x.wrapping_mul(0x2545F4914F6CDD1D));
    assert_eq!(r.0, x);
    assert!(r.below(5) < 5);
    let mut never = Rng(7);
    assert!(!never.chance(0, 3));
}

#[test]
fn generated_queries_and_facts_are_small() {
    let mut rng = Rng(42);
    for _ in 0..200 {
        let q = gen_query(&mut rng);
        assert!((1..=3).contains(&q.patterns.len()));
        let f = gen_facts(&mut rng);
        assert!((3..=8).contains(&f.len()));
    }
}

#[test]
fn parsing_shares_variables_within_a_scope() {
    let ts = parse_all(&["(a $x)", "(b $x $y)"]);
    assert_eq!(ts[1], Term::App(vec![Term::sym("b"), Term::Var(0), Term::Var(1)]));
    let mut sc = Scope::new();
    let _ = parse_with_scope("(p $u)", &mut sc);
    let t = parse_with_scope("(q $v $u)", &mut sc);
    assert_eq!(t, Term::App(vec![Term::sym("q"), Term::Var(1), Term::Var(0)]));
    assert_eq!(sc.len(), 2);
}

#[test]
fn a_scope_keeps_the_ids_its_caller_gave() {
    let mut sc = Scope::new();
    sc.insert("x", 7);
    let t = parse_with_scope("(p $x $y $x)", &mut sc);
    assert_eq!(t, Term::App(vec![Term::sym("p"), Term::Var(7), Term::Var(1), Term::Var(7)]));
    assert_eq!(sc.len(), 2);
    let mut ids = sc.values();
    ids.sort_unstable();
    assert_eq!(ids, vec![1, 7]);
}
