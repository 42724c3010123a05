use mork_uni_join::quantale::{FuzzyType, Q};
use mork_uni_join::semiring::Tropical;

const SYMBOL: u32 = 0;
const NUMBER: u32 = 1;
const EXPR: u32 = 2;
const VARIABLE: u32 = 3;
const BITS: u32 = 4;

#[test]
fn lattice_laws() {
    let x = FuzzyType(0b0110);
    let y = FuzzyType(0b1100);
    let z = FuzzyType(0b1010);
    assert_eq!(x.meet(x), x);
    assert_eq!(x.join(x), x);
    assert_eq!(x.meet(y), y.meet(x));
    assert_eq!(x.join(y), y.join(x));
    assert_eq!(FuzzyType::top(BITS).meet(x), x);
    assert_eq!(FuzzyType::bottom().join(x), x);
    assert_eq!(x.meet(x.join(y)), x);
    assert_eq!(x.join(x.meet(y)), x);
    assert_eq!(x.meet(y.join(z)), x.meet(y).join(x.meet(z)));
}

#[test]
fn variable_is_top_and_neutral() {
    let var = FuzzyType::top(BITS);
    let num = FuzzyType::singleton(NUMBER);
    assert_eq!(var.meet(num), num);
    let sym = FuzzyType::singleton(SYMBOL);
    assert_eq!(num.join(sym), FuzzyType(0b0011));
}

#[test]
fn type_filter_is_a_meet() {
    let candidates = FuzzyType(0b0111);
    let only_numbers = FuzzyType::singleton(NUMBER);
    assert_eq!(candidates.meet(only_numbers), only_numbers);
    let not_symbol = FuzzyType::singleton(EXPR).join(FuzzyType::singleton(VARIABLE));
    assert_eq!(FuzzyType::top(BITS).meet(not_symbol), not_symbol);
}

#[test]
fn quantale_pairs_type_with_cost() {
    let crisp: Q<Tropical> = Q::new(FuzzyType::singleton(NUMBER), Tropical(Some(0)));
    let fuzzy: Q<Tropical> = Q::new(FuzzyType::top(BITS), Tropical(Some(3)));
    let combined = crisp.meet(&fuzzy);
    assert_eq!(combined.ty, FuzzyType::singleton(NUMBER));
    assert_eq!(combined.cost, Tropical(Some(3)));
    assert!(!combined.is_impossible());
    assert_eq!(Q::<Tropical>::top(BITS).meet(&crisp), crisp);
}

#[test]
fn contradiction_is_impossible() {
    let q: Q<Tropical> = Q::new(
        FuzzyType::singleton(SYMBOL).meet(FuzzyType::singleton(NUMBER)),
        Tropical(Some(0)),
    );
    assert!(q.is_impossible(), "symbol AND number is bottom");
}

#[test]
fn top_of_the_whole_word_and_bottom() {
    assert_eq!(FuzzyType::top(64), FuzzyType(u64::MAX));
    assert_eq!(FuzzyType::top(0), FuzzyType(0));
    assert!(FuzzyType::bottom().is_bottom());
    assert!(!FuzzyType::singleton(63).is_bottom());
}

#[test]
fn quantale_join_keeps_the_cheaper_cost() {
    let a: Q<Tropical> = Q::new(FuzzyType::singleton(SYMBOL), Tropical(Some(2)));
    let b: Q<Tropical> = Q::new(FuzzyType::singleton(NUMBER), Tropical(Some(5)));
    let j = a.join(&b);
    assert_eq!(j.ty, FuzzyType(0b0011));
    assert_eq!(j.cost, Tropical(Some(2)));
}
