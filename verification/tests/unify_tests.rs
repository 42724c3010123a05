use mork_uni_join::term::{parse, Term};
use mork_uni_join::unify::Env;

fn two(a: &str, b: &str) -> (Term, Term) {
    (parse(a), parse(b).rename_apart(1000))
}

#[test]
fn unifies_both_sides() {
    let (a, b) = two("(f $x b)", "(f a $y)");
    let mut e = Env::new();
    assert!(e.unify(&a, &b));
    assert_eq!(e.resolve(&Term::Var(0)), parse("a"));
    assert_eq!(e.resolve(&Term::Var(1000)), parse("b"));
}

#[test]
fn different_heads_fail() {
    let (a, b) = two("(f $x)", "(g a)");
    let mut e = Env::new();
    assert!(!e.unify(&a, &b));
}

#[test]
fn coreference_contradiction_fails() {
    let (a, b) = two("(f $x $x)", "(f a b)");
    let mut e = Env::new();
    assert!(!e.unify(&a, &b));
}

#[test]
fn occurs_check_fails_not_loops() {
    let x = Term::Var(0);
    let fx = parse("(f $x)");
    let mut e = Env::new();
    assert!(!e.unify(&x, &fx));
}

#[test]
fn variable_bound_to_structure() {
    let (a, b) = two("(f $x)", "(f (g $y))");
    let mut e = Env::new();
    assert!(e.unify(&a, &b));
    assert_eq!(e.resolve(&Term::Var(0)), parse("(g $y)").rename_apart(1000));
}

#[test]
fn rollback_restores_environment() {
    let mut e = Env::new();
    let m = e.mark();
    assert!(e.unify(&Term::Var(0), &parse("a")));
    assert_eq!(e.resolve(&Term::Var(0)), parse("a"));
    e.rollback(m);
    assert_eq!(e.resolve(&Term::Var(0)), Term::Var(0));
}

#[test]
fn func_type_unification_pieces() {
    let p1 = parse("(: ($f) A)");
    let d1 = parse("(: (f) A)");
    let p2 = parse("(: $f (-> A))");
    let d2 = parse("(: f (-> A))");
    let mut e = Env::new();
    assert!(e.unify(&p1, &d1));
    assert!(e.unify(&p2, &d2));
    assert_eq!(e.resolve(&Term::Var(0)), parse("f"), "$f must unify to f");
}

#[test]
fn failed_unify_leaves_bindings_unchanged() {
    let mut e = Env::new();
    assert!(e.unify(&Term::Var(0), &parse("a")));
    let m = e.mark();
    assert!(!e.unify(&parse("(f $x $y)"), &parse("(f b c)")));
    assert_eq!(e.mark(), m);
    assert_eq!(e.resolve(&Term::Var(1)), Term::Var(1));
}

#[test]
fn walk_follows_the_chain_at_the_head() {
    let mut e = Env::new();
    e.bind_var(0, Term::Var(1));
    e.bind_var(1, parse("(g a)"));
    assert_eq!(e.walk(&Term::Var(0)), &parse("(g a)"));
    assert_eq!(e.resolve(&parse("(f $x)")), parse("(f (g a))"));
}
