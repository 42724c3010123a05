use mork_uni_join::semiring::{Count, Reach, Semiring, Tropical};

#[test]
fn reach_is_exact() {
    assert_eq!(Reach::one().mul(&Reach::one()), Reach(true));
    assert_eq!(Reach::one().mul(&Reach::zero()), Reach(false));
    assert_eq!(Reach::zero().add(&Reach::one()), Reach(true));
    assert!(Reach::zero().is_zero());
}

#[test]
fn tropical_sums_along_mins_across() {
    assert_eq!(Tropical(Some(3)).mul(&Tropical(Some(4))), Tropical(Some(7)));
    assert_eq!(Tropical(Some(3)).add(&Tropical(Some(4))), Tropical(Some(3)));
    assert_eq!(Tropical::one().mul(&Tropical(Some(5))), Tropical(Some(5)));
    assert_eq!(Tropical::zero().add(&Tropical(Some(5))), Tropical(Some(5)));
    assert_eq!(Tropical::zero().mul(&Tropical(Some(5))), Tropical(None));
    assert!(Tropical::zero().is_zero());
}

#[test]
fn count_multiplies_along_adds_across() {
    assert_eq!(Count(2).mul(&Count(3)), Count(6));
    assert_eq!(Count(2).add(&Count(3)), Count(5));
    assert!(Count::zero().is_zero());
}

#[test]
fn semiring_units_on_concrete_values() {
    assert_eq!(Count::one().mul(&Count(9)), Count(9));
    assert_eq!(Count::zero().add(&Count(9)), Count(9));
    assert_eq!(Count::zero().mul(&Count(9)), Count(0));
    assert_eq!(Reach(true).add(&Reach(false)), Reach(false).add(&Reach(true)));
    assert_eq!(Tropical(Some(-4)).add(&Tropical(None)), Tropical(Some(-4)));
}
