use mork_uni_join::oracle::{naive_match, Conj};
use mork_uni_join::term::{parse, Term};
use mork_uni_join::unijoin::leapfrog_unify_join;

fn space(facts: &[&str]) -> Vec<Term> {
    facts.iter().map(|s| parse(s)).collect()
}

fn agree(pats: &[&str], facts: &[&str]) {
    let q = Conj::parse(pats);
    let s = space(facts);
    let got = leapfrog_unify_join(&q, &s);
    let want = naive_match(&q, &s);
    assert_eq!(got, want, "leapfrog-unify != oracle for {pats:?} over {facts:?}");
}

#[test]
fn ground_triangle() {
    agree(
        &["(e $x $y)", "(e $y $z)", "(e $x $z)"],
        &["(e a b)", "(e a c)", "(e b c)", "(e b d)"],
    );
}

#[test]
fn schematic_fact_data_side_capture() {
    agree(&["(rel $x b)"], &["(rel a $w)"]);
}

#[test]
fn func_type_unification() {
    agree(&["(: ($f) A)", "(: $f (-> A))"], &["(: (f) A)", "(: f (-> A))"]);
}

#[test]
fn schematic_at_join_position() {
    agree(
        &["(r (($x $x) b) a)", "(r $y $x)"],
        &["(r $m (a b))", "(r c b)", "(r $n (a))", "(r $p $q)", "(r (b (b)) (a))"],
    );
}

#[test]
fn polymorphic_application_typing() {
    agree(
        &["(: $fn (-> $arg $res))", "(: $x $arg)"],
        &["(: v0 t0)", "(: f0 (-> t0 t1))", "(: id (-> $a $a))"],
    );
}

#[test]
fn coreferent_schematic_fact() {
    agree(&["(e $x $y)", "(e $y $z)"], &["(e $u $u)", "(e a b)", "(e b c)"]);
}

#[test]
fn ground_and_wildcard_at_same_position() {
    agree(&["(p $x)", "(q $x)"], &["(p a)", "(p b)", "(q a)", "(q $w)"]);
}

#[test]
fn empty_relation_is_empty() {
    agree(&["(edge $x $x)"], &["(edge a b)", "(edge b c)"]);
}

struct Rng(u64);
impl Rng {
    fn next(&mut self) -> u64 {
        let mut x = self.0;
        x ^= x >> 12;
        x ^= x << 25;
        x ^= x >> 27;
        self.0 = x;
        x.wrapping_mul(0x2545F4914F6CDD1D)
    }
    fn below(&mut self, n: usize) -> usize {
        (self.next() % n as u64) as usize
    }
    fn chance(&mut self, num: usize, den: usize) -> bool {
        self.below(den) < num
    }
}

const SYMS: &[&str] = &["a", "b", "c"];

fn gen_term(rng: &mut Rng, depth: usize, allow_var: bool, var_pool: usize) -> Term {
    if depth == 0 || rng.chance(3, 5) {
        if allow_var && rng.chance(2, 5) {
            Term::Var(rng.below(var_pool) as u32)
        } else {
            Term::sym(SYMS[rng.below(SYMS.len())])
        }
    } else {
        let arity = 1 + rng.below(2);
        Term::App((0..arity).map(|_| gen_term(rng, depth - 1, allow_var, var_pool)).collect())
    }
}

#[test]
fn unijoin_differential_against_oracle_many_random() {
    let mut rng = Rng(0x9E3779B97F4A7C15);
    let mut nonempty = 0u32;
    let mut schematic_answers = 0u32;
    for _ in 0..6000 {
        let npat = 1 + rng.below(3);
        let var_pool = 1 + rng.below(2);
        let patterns: Vec<Term> = (0..npat)
            .map(|_| {
                Term::App(vec![
                    Term::sym("r"),
                    gen_term(&mut rng, 2, true, var_pool),
                    gen_term(&mut rng, 1, true, var_pool),
                ])
            })
            .collect();
        let query_vars = {
            let mut v = Vec::new();
            for p in &patterns {
                for id in p.var_ids() {
                    if !v.contains(&id) {
                        v.push(id);
                    }
                }
            }
            v
        };
        let q = Conj { patterns, query_vars };
        let nfacts = rng.below(6);
        let sp: Vec<Term> = (0..nfacts)
            .map(|_| {
                let schematic = rng.chance(2, 5);
                Term::App(vec![
                    Term::sym("r"),
                    gen_term(&mut rng, 2, schematic, 2),
                    gen_term(&mut rng, 1, schematic, 2),
                ])
            })
            .collect();
        let got = leapfrog_unify_join(&q, &sp);
        let want = naive_match(&q, &sp);
        assert_eq!(
            got,
            want,
            "MISMATCH\n  patterns={:?}\n  space={:?}",
            q.patterns.iter().map(|p| p.to_string()).collect::<Vec<_>>(),
            sp.iter().map(|f| f.to_string()).collect::<Vec<_>>(),
        );
        if !got.is_empty() {
            nonempty += 1;
        }
        if got.iter().any(|key| key.iter().any(|&b| b == 0xC0)) {
            schematic_answers += 1;
        }
    }
    assert!(nonempty > 300, "too few non-empty answers: {nonempty}");
    assert!(schematic_answers > 20, "too few schematic answers exercised: {schematic_answers}");
}

#[test]
fn pattern_with_no_match_empties_the_answer() {
    let q = Conj::parse(&["(p $x)", "(nothing $x)"]);
    assert!(leapfrog_unify_join(&q, &space(&["(p a)"])).is_empty());
}
