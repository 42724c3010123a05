use mork_uni_join::antiunify::anti_unify;
use mork_uni_join::term::{parse, Term};
use mork_uni_join::unify::Env;

fn au(a: &str, b: &str) -> Term {
    anti_unify(&parse(a), &parse(b))
}

#[test]
fn shared_disagreement_shares_a_variable() {
    assert_eq!(au("(f a a)", "(f b b)").encode(), parse("(f $x $x)").encode());
    assert_eq!(au("(f a c)", "(f b d)").encode(), parse("(f $x $y)").encode());
}

#[test]
fn keeps_the_common_part() {
    assert_eq!(au("(f a b)", "(f a c)").encode(), parse("(f a $x)").encode());
    assert_eq!(au("(f a b)", "(f c b)").encode(), parse("(f $x b)").encode());
    assert_eq!(au("(g (h a) b)", "(g (h a) c)").encode(), parse("(g (h a) $x)").encode());
}

#[test]
fn idempotent_and_top() {
    assert_eq!(au("(f a (g b))", "(f a (g b))").encode(), parse("(f a (g b))").encode());
    assert_eq!(au("(f a)", "(g a)").encode(), parse("($h a)").encode());
    assert!(matches!(au("a", "(f a)"), Term::Var(_)));
    assert!(matches!(au("(f a)", "(f a b)"), Term::Var(_)));
}

fn is_instance_of(general: &Term, specific: &Term) -> bool {
    let g = general.rename_apart(5_000_000);
    let mut env = Env::new();
    env.unify(&g, specific) && env.resolve(&g) == *specific
}

#[test]
fn both_inputs_are_instances() {
    for (a, b) in [
        ("(f a a)", "(f b b)"),
        ("(f a b)", "(f a c)"),
        ("(g (h a) b)", "(g (h c) d)"),
        ("(cons 1 (cons 2 nil))", "(cons 3 (cons 4 nil))"),
    ] {
        let g = au(a, b);
        assert!(is_instance_of(&g, &parse(a)), "{a} not an instance of lgg");
        assert!(is_instance_of(&g, &parse(b)), "{b} not an instance of lgg");
    }
}

struct Rng(u64);
impl Rng {
    fn next(&mut self) -> u64 {
        let mut x = self.0;
        x ^= x >> 12;
        x ^= x << 25;
        x ^= x >> 27;
        self.0 = x;
        x.wrapping_mul(0x2545F4914F6CDD1D)
    }
    fn below(&mut self, n: usize) -> usize {
        (self.next() % n as u64) as usize
    }
}

fn gen_ground(rng: &mut Rng, depth: usize) -> Term {
    const SYMS: &[&str] = &["a", "b", "c", "f", "g"];
    if depth == 0 || rng.below(3) == 0 {
        Term::sym(SYMS[rng.below(SYMS.len())])
    } else {
        let arity = 1 + rng.below(2);
        Term::App((0..arity).map(|_| gen_ground(rng, depth - 1)).collect())
    }
}

#[test]
fn generalization_property_random() {
    let mut rng = Rng(0xC0FFEE123);
    for _ in 0..3000 {
        let a = gen_ground(&mut rng, 3);
        let b = gen_ground(&mut rng, 3);
        let g = anti_unify(&a, &b);
        assert!(is_instance_of(&g, &a), "lgg not a generalization of a={}", a.to_string());
        assert!(is_instance_of(&g, &b), "lgg not a generalization of b={}", b.to_string());
    }
}

#[test]
fn equal_ground_terms_generalize_to_themselves() {
    let t = parse("(k (m n) o)");
    assert_eq!(anti_unify(&t, &t), t);
}

#[test]
fn distinct_variables_keep_distinct_generalization_variables() {
    let a = parse("($x $y)");
    let b = parse("(() ())");
    let g = anti_unify(&a, &b);
    assert_eq!(g.encode(), parse("($u $v)").encode());
    assert!(is_instance_of(&g, &b));
}
