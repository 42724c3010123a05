use mork_uni_join::corpus;
use mork_uni_join::oracle::Conj;
use mork_uni_join::term::{parse, Term};
use mork_uni_join::trie::{ByteTrie, TrieZipper};
use mork_uni_join::trie_join::{equality_join, trie_unify_join, unify_join_z_opts};
use mork_uni_join::unijoin::leapfrog_unify_join;

fn space(facts: &[&str]) -> Vec<Term> {
    facts.iter().map(|s| parse(s)).collect()
}

fn agree(pats: &[&str], facts: &[&str]) {
    let q = Conj::parse(pats);
    let sp = space(facts);
    let got = trie_unify_join(&q, &sp);
    let want = leapfrog_unify_join(&q, &sp);
    assert_eq!(got, want, "trie_unify_join != leapfrog for {pats:?} over {facts:?}");
}

#[test]
fn ground_path() {
    agree(
        &["(edge $x $y)", "(edge $y $z)"],
        &["(edge a b)", "(edge b d)", "(edge a c)", "(edge c d)"],
    );
}

#[test]
fn data_side_capture_constant() {
    agree(&["(rel $x b)"], &["(rel a $w)"]);
}

#[test]
fn capture_nonground_compound() {
    agree(&["(r (a $p) b)", "(r (b) $p)"], &["(r $d b)", "(r a b)"]);
}

#[test]
fn coreferent_fact() {
    agree(&["(e $x $y)", "(e $y $z)"], &["(e $u $u)", "(e a b)", "(e b c)"]);
}

#[test]
fn occurs_yields_nothing() {
    agree(&["(e $x (f $x))"], &["(e $w $w)"]);
}

#[test]
fn join_propagated_capture() {
    agree(
        &["(e (k $x0) $x1)", "(e (k $x1) $x2)", "(h $x2 $x0)"],
        &["(e (k $s2) v0)", "(e $s1 $s1)", "(h $s0 $s0)"],
    );
}

#[test]
fn equality_join_is_capture_join_minus_capture() {
    let mut differ = 0usize;
    for case in corpus::cases() {
        let q = Conj::parse(case.patterns);
        let sp = space(case.facts);
        let full = trie_unify_join(&q, &sp);
        let eq = equality_join(&q, &sp);
        assert!(
            eq.is_subset(&full),
            "case {:?}: the equality join is not a subset of the capture join",
            case.name
        );
        if eq != full {
            differ += 1;
        }
    }
    assert!(differ >= 3, "the corpus must contain cases where capture adds answers: {differ}");
}

#[test]
fn capture_off_misses_the_data_side_capture() {
    let q = Conj::parse(&["(rel $x b)"]);
    let sp = space(&["(rel a $w)"]);
    assert!(equality_join(&q, &sp).is_empty());
    assert_eq!(trie_unify_join(&q, &sp).len(), 1);
}

#[test]
fn empty_trie_answers_nothing() {
    let t = ByteTrie::new();
    let q = Conj::parse(&["(p $x)"]);
    assert!(unify_join_z_opts(TrieZipper::new(&t), &q, 1_000_000, true).is_empty());
}

#[test]
fn ground_stored_factors_are_answered() {
    let q = Conj::parse(&["(r a b)", "(s (c d))"]);
    let sp = space(&["(r a b)", "(r a c)", "(s (c d))", "(s $w)"]);
    let unbound = Term::App(Vec::new()).encode();
    assert!(trie_unify_join(&q, &sp).contains(&unbound));
    assert!(equality_join(&q, &sp).contains(&unbound));
    let missing = Conj::parse(&["(r a b)", "(t e)"]);
    assert!(equality_join(&missing, &sp).is_empty());
}

#[test]
fn empty_conjunction_answers_its_unbound_variables() {
    let q = Conj { patterns: Vec::new(), query_vars: vec![3, 7] };
    let sp = space(&["(r a b)"]);
    let want = Term::App(vec![Term::Var(3), Term::Var(7)]).encode();
    let got = trie_unify_join(&q, &sp);
    assert_eq!(got.len(), 1);
    assert!(got.contains(&want));
    assert_eq!(equality_join(&q, &sp), got);
}

#[test]
fn no_facts_no_answers() {
    let q = Conj::parse(&["(r $x)"]);
    let sp: Vec<Term> = Vec::new();
    assert!(trie_unify_join(&q, &sp).is_empty());
    assert!(equality_join(&q, &sp).is_empty());
}

#[test]
fn ground_facts_every_matcher_answer_is_found() {
    let q = Conj::parse(&["(edge $x $y)", "(edge $y $z)", "(lab $z (c $x))"]);
    let sp = space(&["(edge a b)", "(edge b d)", "(edge a c)", "(edge c d)", "(lab d (c a))", "(lab d (c b))"]);
    let want = mork_uni_join::oracle::naive_match(&q, &sp);
    assert!(!want.is_empty());
    let got = trie_unify_join(&q, &sp);
    let eq = equality_join(&q, &sp);
    for k in &want {
        assert!(got.contains(k), "capture join misses {k:?}");
        assert!(eq.contains(k), "equality join misses {k:?}");
    }
}

#[test]
fn capture_of_a_ground_subterm_needs_capture() {
    let q = Conj::parse(&["(r (b) $p)"]);
    let sp = space(&["(r $d b)"]);
    let with = trie_unify_join(&q, &sp);
    let without = equality_join(&q, &sp);
    let key: Vec<u8> = vec![0x01, 0xC1, b'b'];
    assert!(with.contains(&key), "the wildcard captures (b) and $p = b");
    assert_eq!(with.len(), 1);
    assert!(without.is_empty(), "without capture the wildcard does not absorb (b)");
}

#[test]
fn capture_flag_decides_ground_capture_on_the_zipper() {
    let q = Conj::parse(&["(pair (k v) $x)"]);
    let sp = space(&["(pair $w 7)", "(pair (k u) 8)"]);
    let trie = ByteTrie::from_terms(&sp);
    let on = unify_join_z_opts(TrieZipper::new(&trie), &q, 1_000_000, true);
    let off = unify_join_z_opts(TrieZipper::new(&trie), &q, 1_000_000, false);
    let key: Vec<u8> = vec![0x01, 0xC1, b'7'];
    assert!(on.contains(&key));
    assert!(!off.contains(&key));
    assert!(!on.contains(&vec![0x01, 0xC1, b'8']));
}
