use std::collections::HashSet;

use mork_uni_join::semiring::{Count, Tropical};
use mork_uni_join::string_fuzzy::{edit_distance, FuzzyMap};

#[test]
fn edit_distance_is_correct() {
    assert_eq!(edit_distance("kitten", "sitting"), 3);
    assert_eq!(edit_distance("foo", "foo"), 0);
    assert_eq!(edit_distance("bat", "bar"), 1);
    assert_eq!(edit_distance("bat", "baz"), 1);
    assert_eq!(edit_distance("bat", "foo"), 3);
    assert_eq!(edit_distance("", "abc"), 3);
}

#[test]
fn fuzzy_multimap_unions_matched_values() {
    let mut m: FuzzyMap<HashSet<i32>> = FuzzyMap::new();
    m.insert("foo", HashSet::from([1, 2]));
    m.insert("bar", HashSet::from([3]));
    m.insert("baz", HashSet::from([4, 5]));
    assert_eq!(m.query_union("bat", 1), HashSet::from([3, 4, 5]));
}

#[test]
fn the_same_source_aggregates_in_any_semiring() {
    let mut m: FuzzyMap<()> = FuzzyMap::new();
    for k in ["foo", "bar", "baz", "bat"] {
        m.insert(k, ());
    }
    let n = m.query::<Count>("bat", 1, |_, _, _| Count(1));
    assert_eq!(n, Count(3));
    let best = m.query::<Tropical>("bat", 2, |_, _, d| Tropical(Some(d as i64)));
    assert_eq!(best, Tropical(Some(0)));
    let mut m2: FuzzyMap<()> = FuzzyMap::new();
    for k in ["foo", "bar", "baz"] {
        m2.insert(k, ());
    }
    let best2 = m2.query::<Tropical>("far", 1, |_, _, d| Tropical(Some(d as i64)));
    assert_eq!(best2, Tropical(Some(1)));
}

#[test]
fn edit_distance_counts_characters_not_bytes() {
    assert_eq!(edit_distance("é", "e"), 1);
    assert_eq!(edit_distance("abc", ""), 3);
    assert_eq!(edit_distance("flaw", "lawn"), 2);
}

#[test]
fn query_union_with_no_match_is_empty() {
    let mut m: FuzzyMap<HashSet<i32>> = FuzzyMap::new();
    m.insert("alpha", HashSet::from([1]));
    assert!(m.query_union("zzz", 1).is_empty());
}

#[test]
fn edit_distance_is_a_metric_on_examples() {
    let words = ["", "a", "ab", "kitten", "sitting", "mitten", "sittin", "smitten"];
    for a in words {
        assert_eq!(edit_distance(a, a), 0);
        for b in words {
            let d = edit_distance(a, b);
            assert_eq!(d, edit_distance(b, a), "symmetric on {a:?} {b:?}");
            assert_eq!(d == 0, a == b);
            let (la, lb) = (a.chars().count(), b.chars().count());
            assert!(d <= la.max(lb));
            assert!(d >= la.abs_diff(lb));
            for c in words {
                assert!(edit_distance(a, c) <= d + edit_distance(b, c), "triangle on {a:?} {b:?} {c:?}");
            }
        }
    }
}
