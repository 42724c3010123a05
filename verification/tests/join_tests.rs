use mork_uni_join::join::{uni_join, Path, Stats};
use mork_uni_join::oracle::{naive_match, Conj};
use mork_uni_join::term::{parse, Term};

fn space(facts: &[&str]) -> Vec<Term> {
    facts.iter().map(|s| parse(s)).collect()
}

fn agrees(pats: &[&str], facts: &[&str]) -> Stats {
    let q = Conj::parse(pats);
    let s = space(facts);
    let (got, stats) = uni_join(&q, &s);
    let want = naive_match(&q, &s);
    assert_eq!(got, want, "join != oracle for {pats:?} over {facts:?}");
    stats
}

#[test]
fn ground_triangle_uses_leapfrog_and_prunes() {
    let st = agrees(
        &["(e $x $y)", "(e $y $z)", "(e $x $z)"],
        &["(e a b)", "(e a c)", "(e b c)", "(e b d)"],
    );
    assert_eq!(st.path, Path::Leapfrog);
    assert!(st.leapfrog_visits < 20, "expected pruning, got {st:?}");
}

#[test]
fn func_type_unification_rides_the_leapfrog() {
    let st = agrees(&["(: ($f) A)", "(: $f (-> A))"], &["(: (f) A)", "(: f (-> A))"]);
    assert_eq!(st.path, Path::Leapfrog, "ground join key => fast path");
}

#[test]
fn schematic_fact_admitted_when_not_at_a_join_position() {
    let st = agrees(&["(rel $x b)"], &["(rel a $w)"]);
    assert_eq!(st.path, Path::Leapfrog);
}

#[test]
fn schematic_at_join_position_routes_to_coupled() {
    let st = agrees(
        &["(r (($x $x) b) a)", "(r $y $x)"],
        &["(r $m (a b))", "(r c b)", "(r $n (a))", "(r $p $q)", "(r (b (b)) (a))"],
    );
    assert_eq!(st.path, Path::Coupled);
}

#[test]
fn empties() {
    agrees(&["(edge $x $x)"], &["(edge a b)", "(edge b c)"]);
    agrees(&["(k $x)"], &[]);
}

#[test]
fn unmatched_pattern_answers_empty_on_the_leapfrog_path() {
    let q = Conj::parse(&["(e $x $y)", "(missing $y)"]);
    let (got, st) = uni_join(&q, &space(&["(e a b)"]));
    assert!(got.is_empty());
    assert_eq!(st.path, Path::Leapfrog);
    assert_eq!(st.leapfrog_visits, 0);
}

struct Rng(u64);
impl Rng {
    fn next(&mut self) -> u64 {
        let mut x = self.0;
        x ^= x >> 12;
        x ^= x << 25;
        x ^= x >> 27;
        self.0 = x;
        x.wrapping_mul(0x2545F4914F6CDD1D)
    }
    fn below(&mut self, n: usize) -> usize {
        (self.next() % n as u64) as usize
    }
    fn chance(&mut self, num: usize, den: usize) -> bool {
        self.below(den) < num
    }
}

const SYMS: &[&str] = &["a", "b", "c"];

fn gen_term(rng: &mut Rng, depth: usize, allow_var: bool, var_pool: usize) -> Term {
    if depth == 0 || rng.chance(3, 5) {
        if allow_var && rng.chance(2, 5) {
            Term::Var(rng.below(var_pool) as u32)
        } else {
            Term::sym(SYMS[rng.below(SYMS.len())])
        }
    } else {
        let arity = 1 + rng.below(2);
        Term::App((0..arity).map(|_| gen_term(rng, depth - 1, allow_var, var_pool)).collect())
    }
}

#[test]
fn join_differential_against_oracle_many_random() {
    let mut rng = Rng(0x9E3779B97F4A7C15);
    let mut leapfrog = 0u32;
    let mut coupled = 0u32;
    let mut nonempty = 0u32;
    for _ in 0..6000 {
        let npat = 1 + rng.below(3);
        let var_pool = 1 + rng.below(2);
        let patterns: Vec<Term> = (0..npat)
            .map(|_| {
                Term::App(vec![
                    Term::sym("r"),
                    gen_term(&mut rng, 2, true, var_pool),
                    gen_term(&mut rng, 1, true, var_pool),
                ])
            })
            .collect();
        let query_vars = {
            let mut v = Vec::new();
            for p in &patterns {
                for id in p.var_ids() {
                    if !v.contains(&id) {
                        v.push(id);
                    }
                }
            }
            v
        };
        let q = Conj { patterns, query_vars };
        let nfacts = rng.below(6);
        let sp: Vec<Term> = (0..nfacts)
            .map(|_| {
                let schematic = rng.chance(2, 5);
                Term::App(vec![
                    Term::sym("r"),
                    gen_term(&mut rng, 2, schematic, 2),
                    gen_term(&mut rng, 1, schematic, 2),
                ])
            })
            .collect();
        let (got, stats) = uni_join(&q, &sp);
        let want = naive_match(&q, &sp);
        assert_eq!(
            got,
            want,
            "MISMATCH ({:?})\n  query_vars={:?}\n  patterns={:?}\n  space={:?}",
            stats.path,
            q.query_vars,
            q.patterns.iter().map(|p| p.to_string()).collect::<Vec<_>>(),
            sp.iter().map(|f| f.to_string()).collect::<Vec<_>>(),
        );
        match stats.path {
            Path::Leapfrog => leapfrog += 1,
            Path::Coupled => coupled += 1,
        }
        if !got.is_empty() {
            nonempty += 1;
        }
    }
    assert!(leapfrog > 1000, "too few leapfrog cases: {leapfrog}");
    assert!(coupled > 50, "too few coupled cases: {coupled}");
    assert!(nonempty > 300, "too few non-empty answers: {nonempty}");
}

#[test]
fn data_variable_at_a_join_position_takes_the_coupled_path() {
    let q = Conj::parse(&["(p $x)", "(q $x)"]);
    let (got, st) = uni_join(&q, &space(&["(p a)", "(q $w)"]));
    let want: std::collections::BTreeSet<Vec<u8>> = [vec![0x01, 0xC1, b'a']].into_iter().collect();
    assert_eq!(got, want);
    assert_eq!(st.path, Path::Coupled);
    assert_eq!(st.leapfrog_visits, 0);
}

#[test]
fn leapfrog_keys_each_column_by_its_encoding() {
    // No join variable, so the equality leapfrog answers; it indexes each column by the value's
    // encoding, where every fresh data variable is `0xC0`, so the two schematic rows share one
    // key path and one answer comes out where the matcher has two.
    let q = Conj::parse(&["(r $x $y)"]);
    let s = space(&["(r $a $a)", "(r $b $c)"]);
    let (got, st) = uni_join(&q, &s);
    assert_eq!(st.path, Path::Leapfrog);
    let one: std::collections::BTreeSet<Vec<u8>> = [vec![0x02, 0xC0, 0x80]].into_iter().collect();
    assert_eq!(got, one);
    assert_eq!(naive_match(&q, &s).len(), 2);
}
