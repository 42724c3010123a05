//! The string / edit-distance fuzzy source. Strings are non-orthogonal (an insert reindexes
//! every later position), so they do not ride the trie's prefix structure and need their own
//! edit-distance machinery.
//!
//! Such a source still plugs into the same semiring aggregation as the rest of the library:
//! fuzzy-match the keys within an edit distance, then aggregate the matched values with the
//! semiring `add` (set-union, or min distance, or a count).

use vstd::prelude::*;
use std::collections::HashSet;
use crate::semiring::Semiring;
use crate::text::str_chars;

verus! {

broadcast use vstd::std_specs::hash::group_hash_axioms;

pub open spec fn min3(x: nat, y: nat, z: nat) -> nat {
    let m = if x <= y { x } else { y };
    if m <= z { m } else { z }
}

/// The Levenshtein distance between the first `i` characters of `a` and the first `j` of `b`
/// (insert, delete and substitute each cost one).
pub open spec fn lev(a: Seq<char>, b: Seq<char>, i: nat, j: nat) -> nat
    decreases i + j,
{
    if i == 0 {
        j
    } else if j == 0 {
        i
    } else {
        min3(
            lev(a, b, (i - 1) as nat, (j - 1) as nat) + if a[i - 1] == b[j - 1] { 0nat } else { 1nat },
            lev(a, b, (i - 1) as nat, j) + 1,
            lev(a, b, i, (j - 1) as nat) + 1,
        )
    }
}

/// The edit distance between two character sequences.
pub open spec fn edit_dist(a: Seq<char>, b: Seq<char>) -> nat {
    lev(a, b, a.len(), b.len())
}

/// One step of an edit script turning one string into another: each step reads the source,
/// the target, or both, in order.
pub enum EditOp {
    /// Copy a source character that equals the target's next one.
    Keep,
    /// Replace a source character by the target's next one.
    Sub,
    /// Drop a source character.
    Del,
    /// Insert the target's next character.
    Ins,
}

/// The script `ops`, applied in order, turns `a` into `b`.
pub open spec fn transforms(a: Seq<char>, b: Seq<char>, ops: Seq<EditOp>) -> bool
    decreases ops.len(),
{
    if ops.len() == 0 {
        a.len() == 0 && b.len() == 0
    } else {
        let rest = ops.drop_last();
        match ops.last() {
            EditOp::Keep => a.len() > 0 && b.len() > 0 && a.last() == b.last()
                && transforms(a.drop_last(), b.drop_last(), rest),
            EditOp::Sub => a.len() > 0 && b.len() > 0 && transforms(a.drop_last(), b.drop_last(), rest),
            EditOp::Del => a.len() > 0 && transforms(a.drop_last(), b, rest),
            EditOp::Ins => b.len() > 0 && transforms(a, b.drop_last(), rest),
        }
    }
}

/// The number of steps of a script that change something (all but `Keep`).
pub open spec fn script_cost(ops: Seq<EditOp>) -> nat
    decreases ops.len(),
{
    if ops.len() == 0 {
        0
    } else {
        script_cost(ops.drop_last()) + if ops.last() is Keep { 0nat } else { 1nat }
    }
}

proof fn lemma_lev_lower(a: Seq<char>, b: Seq<char>, i: nat, j: nat, ops: Seq<EditOp>)
    requires
        i <= a.len(),
        j <= b.len(),
        transforms(a.take(i as int), b.take(j as int), ops),
    ensures
        lev(a, b, i, j) <= script_cost(ops),
    decreases ops.len(),
{
    if ops.len() > 0 {
        let rest = ops.drop_last();
        let ai = a.take(i as int);
        let bj = b.take(j as int);
        if i > 0 {
            assert(ai.drop_last() =~= a.take(i - 1));
            assert(ai.last() == a[i - 1]);
        }
        if j > 0 {
            assert(bj.drop_last() =~= b.take(j - 1));
            assert(bj.last() == b[j - 1]);
        }
        match ops.last() {
            EditOp::Keep => {
                lemma_lev_lower(a, b, (i - 1) as nat, (j - 1) as nat, rest);
            }
            EditOp::Sub => {
                lemma_lev_lower(a, b, (i - 1) as nat, (j - 1) as nat, rest);
            }
            EditOp::Del => {
                lemma_lev_lower(a, b, (i - 1) as nat, j, rest);
            }
            EditOp::Ins => {
                lemma_lev_lower(a, b, i, (j - 1) as nat, rest);
            }
        }
    }
}

/// A script of least cost turning the first `i` characters of `a` into the first `j` of `b`.
proof fn lev_script(a: Seq<char>, b: Seq<char>, i: nat, j: nat) -> (ops: Seq<EditOp>)
    requires
        i <= a.len(),
        j <= b.len(),
    ensures
        transforms(a.take(i as int), b.take(j as int), ops),
        script_cost(ops) == lev(a, b, i, j),
    decreases i + j,
{
    let ai = a.take(i as int);
    let bj = b.take(j as int);
    if i > 0 {
        assert(ai.drop_last() =~= a.take(i - 1));
        assert(ai.last() == a[i - 1]);
    }
    if j > 0 {
        assert(bj.drop_last() =~= b.take(j - 1));
        assert(bj.last() == b[j - 1]);
    }
    if i == 0 && j == 0 {
        Seq::empty()
    } else if i == 0 {
        let r = lev_script(a, b, 0, (j - 1) as nat);
        let ops = r.push(EditOp::Ins);
        assert(ops.drop_last() =~= r);
        ops
    } else if j == 0 {
        let r = lev_script(a, b, (i - 1) as nat, 0);
        let ops = r.push(EditOp::Del);
        assert(ops.drop_last() =~= r);
        ops
    } else {
        let sub = lev(a, b, (i - 1) as nat, (j - 1) as nat) + if a[i - 1] == b[j - 1] { 0nat } else { 1nat };
        let del = lev(a, b, (i - 1) as nat, j) + 1;
        let ins = lev(a, b, i, (j - 1) as nat) + 1;
        if sub <= del && sub <= ins {
            let r = lev_script(a, b, (i - 1) as nat, (j - 1) as nat);
            let op = if a[i - 1] == b[j - 1] { EditOp::Keep } else { EditOp::Sub };
            let ops = r.push(op);
            assert(ops.drop_last() =~= r);
            ops
        } else if del <= ins {
            let r = lev_script(a, b, (i - 1) as nat, j);
            let ops = r.push(EditOp::Del);
            assert(ops.drop_last() =~= r);
            ops
        } else {
            let r = lev_script(a, b, i, (j - 1) as nat);
            let ops = r.push(EditOp::Ins);
            assert(ops.drop_last() =~= r);
            ops
        }
    }
}

/// The edit distance is the least cost of a script of single-character insertions, deletions
/// and substitutions turning one string into the other: no script costs less, and some script
/// costs exactly that.
pub proof fn law_edit_distance_minimal(a: Seq<char>, b: Seq<char>)
    ensures
        forall|ops: Seq<EditOp>| #[trigger] transforms(a, b, ops) ==> edit_dist(a, b) <= script_cost(ops),
        exists|ops: Seq<EditOp>| #[trigger] transforms(a, b, ops) && script_cost(ops) == edit_dist(a, b),
{
    assert(a.take(a.len() as int) =~= a);
    assert(b.take(b.len() as int) =~= b);
    assert forall|ops: Seq<EditOp>| #[trigger] transforms(a, b, ops) implies edit_dist(a, b) <= script_cost(ops) by {
        lemma_lev_lower(a, b, a.len(), b.len(), ops);
    }
    let ops = lev_script(a, b, a.len(), b.len());
    assert(transforms(a, b, ops));
}

proof fn lemma_lev_bound(a: Seq<char>, b: Seq<char>, i: nat, j: nat)
    ensures
        lev(a, b, i, j) <= if i <= j { j } else { i },
        lev(a, b, i, j) >= if i <= j { j - i } else { i - j },
    decreases i + j,
{
    if i > 0 && j > 0 {
        lemma_lev_bound(a, b, (i - 1) as nat, (j - 1) as nat);
        lemma_lev_bound(a, b, (i - 1) as nat, j);
        lemma_lev_bound(a, b, i, (j - 1) as nat);
    }
}

proof fn lemma_lev_symmetric(a: Seq<char>, b: Seq<char>, i: nat, j: nat)
    ensures
        lev(a, b, i, j) == lev(b, a, j, i),
    decreases i + j,
{
    if i > 0 && j > 0 {
        lemma_lev_symmetric(a, b, (i - 1) as nat, (j - 1) as nat);
        lemma_lev_symmetric(a, b, (i - 1) as nat, j);
        lemma_lev_symmetric(a, b, i, (j - 1) as nat);
    }
}

proof fn lemma_lev_triangle(a: Seq<char>, b: Seq<char>, c: Seq<char>, i: nat, j: nat, k: nat)
    ensures
        lev(a, c, i, k) <= lev(a, b, i, j) + lev(b, c, j, k),
    decreases i + j + k,
{
    lemma_lev_bound(a, b, i, j);
    lemma_lev_bound(b, c, j, k);
    lemma_lev_bound(a, c, i, k);
    if i > 0 && j > 0 && k > 0 {
        lemma_lev_triangle(a, b, c, (i - 1) as nat, j, k);
        lemma_lev_triangle(a, b, c, i, j, (k - 1) as nat);
        lemma_lev_triangle(a, b, c, i, (j - 1) as nat, k);
        lemma_lev_triangle(a, b, c, i, (j - 1) as nat, (k - 1) as nat);
        lemma_lev_triangle(a, b, c, (i - 1) as nat, (j - 1) as nat, k);
        lemma_lev_triangle(a, b, c, (i - 1) as nat, (j - 1) as nat, (k - 1) as nat);
    }
}

/// The edit distance is a metric on strings: zero exactly between equal strings, symmetric,
/// and within the triangle inequality; and it lies between the difference of the lengths and
/// the longer length.
pub proof fn law_edit_distance_metric(a: Seq<char>, b: Seq<char>, c: Seq<char>)
    ensures
        edit_dist(a, b) == 0 <==> a == b,
        edit_dist(a, b) == edit_dist(b, a),
        edit_dist(a, c) <= edit_dist(a, b) + edit_dist(b, c),
        edit_dist(a, b) <= if a.len() <= b.len() { b.len() } else { a.len() },
        edit_dist(a, b) >= if a.len() <= b.len() { b.len() - a.len() } else { a.len() - b.len() },
{
    lemma_lev_bound(a, b, a.len(), b.len());
    lemma_lev_symmetric(a, b, a.len(), b.len());
    lemma_lev_triangle(a, b, c, a.len(), b.len(), c.len());
    lemma_lev_zero(a, b, a.len(), b.len());
    assert(a.take(a.len() as int) =~= a);
    assert(b.take(b.len() as int) =~= b);
}

proof fn lemma_lev_zero(a: Seq<char>, b: Seq<char>, i: nat, j: nat)
    requires
        i <= a.len(),
        j <= b.len(),
    ensures
        lev(a, b, i, j) == 0 <==> a.take(i as int) == b.take(j as int),
    decreases i + j,
{
    lemma_lev_bound(a, b, i, j);
    if i > 0 && j > 0 {
        lemma_lev_zero(a, b, (i - 1) as nat, (j - 1) as nat);
        lemma_lev_bound(a, b, (i - 1) as nat, j);
        lemma_lev_bound(a, b, i, (j - 1) as nat);
        assert(a.take(i as int) =~= a.take(i - 1).push(a[i - 1]));
        assert(b.take(j as int) =~= b.take(j - 1).push(b[j - 1]));
        if a.take(i as int) == b.take(j as int) {
            assert(a.take(i as int).drop_last() =~= a.take(i - 1));
            assert(b.take(j as int).drop_last() =~= b.take(j - 1));
            assert(a.take(i as int).last() == a[i - 1]);
        }
    } else if i == 0 && j == 0 {
        assert(a.take(0) =~= b.take(0));
    } else {
        assert(a.take(i as int).len() != b.take(j as int).len());
    }
}

/// Standard Levenshtein edit distance (insert / delete / substitute), Wagner-Fischer DP.
pub fn edit_distance(a: &str, b: &str) -> (d: usize)
    requires
        a@.len() < usize::MAX,
        b@.len() < usize::MAX,
    ensures
        d == edit_dist(a@, b@),
{
    let a: Vec<char> = str_chars(a);
    let b: Vec<char> = str_chars(b);
    let n = b.len();
    let mut prev: Vec<usize> = Vec::new();
    let mut k: usize = 0;
    while k <= n
        invariant
            k <= n + 1,
            n == b@.len(),
            n < usize::MAX,
            prev@.len() == k,
            forall|x: int| 0 <= x < k ==> #[trigger] prev@[x] == lev(a@, b@, 0, x as nat),
        decreases n + 1 - k,
    {
        prev.push(k);
        k += 1;
    }
    let mut cur: Vec<usize> = Vec::new();
    k = 0;
    while k <= n
        invariant
            k <= n + 1,
            n == b@.len(),
            n < usize::MAX,
            cur@.len() == k,
        decreases n + 1 - k,
    {
        cur.push(0);
        k += 1;
    }
    let mut i: usize = 1;
    while i <= a.len()
        invariant
            1 <= i <= a@.len() + 1,
            a@.len() < usize::MAX,
            n == b@.len(),
            n < usize::MAX,
            prev@.len() == n + 1,
            cur@.len() == n + 1,
            forall|x: int| 0 <= x <= n ==> #[trigger] prev@[x] == lev(a@, b@, (i - 1) as nat, x as nat),
        decreases a@.len() + 1 - i,
    {
        cur.set(0, i);
        let mut j: usize = 1;
        while j <= n
            invariant
                1 <= i <= a@.len(),
                a@.len() < usize::MAX,
                1 <= j <= n + 1,
                n == b@.len(),
                n < usize::MAX,
                prev@.len() == n + 1,
                cur@.len() == n + 1,
                forall|x: int| 0 <= x <= n ==> #[trigger] prev@[x] == lev(a@, b@, (i - 1) as nat, x as nat),
                forall|x: int| 0 <= x < j ==> #[trigger] cur@[x] == lev(a@, b@, i as nat, x as nat),
            decreases n + 1 - j,
        {
            proof {
                lemma_lev_bound(a@, b@, (i - 1) as nat, (j - 1) as nat);
                lemma_lev_bound(a@, b@, (i - 1) as nat, j as nat);
                lemma_lev_bound(a@, b@, i as nat, (j - 1) as nat);
            }
            let sub = prev[j - 1] + if a[i - 1] != b[j - 1] { 1 } else { 0 };
            let del = prev[j] + 1;
            let ins = cur[j - 1] + 1;
            let m1 = if sub <= del { sub } else { del };
            let best = if m1 <= ins { m1 } else { ins };
            cur.set(j, best);
            j += 1;
        }
        std::mem::swap(&mut prev, &mut cur);
        i += 1;
    }
    prev[n]
}

/// A fuzzy multimap: keys carry values, a query fuzzy-matches the key within an edit
/// distance and aggregates the matched values.
pub struct FuzzyMap<V> {
    entries: Vec<(String, V)>,
}

impl<V> FuzzyMap<V> {
    /// The entries, in insertion order.
    pub closed spec fn entries(&self) -> Seq<(String, V)> {
        self.entries@
    }

    /// The keys, in insertion order.
    pub open spec fn keys(&self) -> Seq<Seq<char>> {
        Seq::new(self.entries().len(), |i: int| self.entries()[i].0@)
    }

    pub fn new() -> (m: Self)
        ensures
            m.entries() == Seq::<(String, V)>::empty(),
    {
        FuzzyMap { entries: Vec::new() }
    }

    pub fn insert(&mut self, key: &str, value: V)
        ensures
            final(self).entries().len() == old(self).entries().len() + 1,
            forall|i: int| 0 <= i < old(self).entries().len() ==> #[trigger] final(self).entries()[i] == old(self).entries()[i],
            final(self).entries().last().0@ == key@,
            final(self).entries().last().1 == value,
    {
        self.entries.push((key.to_string(), value));
    }
}

/// The running `add` of the scores of the first `k` entries that lie within the distance.
pub open spec fn sum_within<S: Semiring>(sc: Seq<S>, within: Seq<bool>, k: nat) -> S
    decreases k,
{
    if k == 0 || k > sc.len() {
        S::zero_spec()
    } else if within[k - 1] {
        S::add_spec(sum_within(sc, within, (k - 1) as nat), sc[k - 1])
    } else {
        sum_within(sc, within, (k - 1) as nat)
    }
}

impl<V> FuzzyMap<V> {
    /// Which entries lie within `max_distance` of `term`.
    pub open spec fn within(&self, term: Seq<char>, max_distance: usize) -> Seq<bool> {
        Seq::new(self.entries().len(), |i: int| edit_dist(term, self.keys()[i]) <= max_distance)
    }

    /// `sc` are scores `score` may give the first entries (for those within the distance).
    pub open spec fn possible_scores<S: Semiring, F: Fn(&str, &V, usize) -> S>(
        &self,
        term: Seq<char>,
        max_distance: usize,
        score: F,
        sc: Seq<S>,
    ) -> bool {
        &&& sc.len() <= self.entries().len()
        &&& forall|i: int| 0 <= i < sc.len() && #[trigger] self.within(term, max_distance)[i] ==> exists|ks: &str|
            ks@ == self.keys()[i] && score.ensures((ks, &self.entries()[i].1, edit_dist(term, self.keys()[i]) as usize), sc[i])
    }

    /// Aggregate, via the semiring `add`, the score of every key within `max_distance`.
    /// `score(key, value, distance)` maps a matched entry into the semiring. With Tropical
    /// and `score = distance` this returns the best (min) edit distance; with Count and
    /// `score = one` it returns how many keys matched.
    pub fn query<S: Semiring>(&self, term: &str, max_distance: usize, score: impl Fn(&str, &V, usize) -> S) -> (r: S)
        requires
            term@.len() < usize::MAX,
            forall|i: int| 0 <= i < self.entries().len() ==> #[trigger] self.keys()[i].len() < usize::MAX,
            forall|ks: &str, v: &V, d: usize| #[trigger] score.requires((ks, v, d)),
        ensures
            exists|sc: Seq<S>| sc.len() == self.entries().len() && #[trigger] self.possible_scores(term@, max_distance, score, sc)
                && r == sum_within(sc, self.within(term@, max_distance), sc.len()),
    {
        let ghost w = self.within(term@, max_distance);
        let ghost mut sc: Seq<S> = Seq::empty();
        let mut acc = S::zero();
        let mut i: usize = 0;
        while i < self.entries.len()
            invariant
                i <= self.entries().len(),
                sc.len() == i,
                w == self.within(term@, max_distance),
                self.possible_scores(term@, max_distance, score, sc),
                acc == sum_within(sc, w, i as nat),
                term@.len() < usize::MAX,
                forall|j: int| 0 <= j < self.entries().len() ==> #[trigger] self.keys()[j].len() < usize::MAX,
                forall|ks: &str, v: &V, d: usize| #[trigger] score.requires((ks, v, d)),
            decreases self.entries().len() - i,
        {
            let k = &self.entries[i].0;
            let v = &self.entries[i].1;
            proof {
                assert(self.keys()[i as int] == k@);
            }
            let d = edit_distance(term, k.as_str());
            if d <= max_distance {
                let ks = k.as_str();
                let s = score(ks, v, d);
                let ghost sc2 = sc.push(s);
                proof {
                    assert(self.possible_scores(term@, max_distance, score, sc2)) by {
                        assert forall|x: int| 0 <= x < sc2.len() && #[trigger] self.within(term@, max_distance)[x] implies exists|ks2: &str|
                            ks2@ == self.keys()[x] && score.ensures((ks2, &self.entries()[x].1, edit_dist(term@, self.keys()[x]) as usize), sc2[x]) by {
                            if x < i {
                                assert(sc2[x] == sc[x]);
                            } else {
                                assert(ks@ == self.keys()[x]);
                            }
                        }
                    }
                    assert(w[i as int]);
                    assert(sum_within(sc2, w, i as nat) == sum_within(sc, w, i as nat)) by {
                        lemma_sum_within_prefix(sc, sc2, w, i as nat);
                    }
                }
                acc = acc.add(&s);
                proof {
                    sc = sc2;
                }
            } else {
                let ghost sc2 = sc.push(S::zero_spec());
                proof {
                    assert(!w[i as int]);
                    assert(self.possible_scores(term@, max_distance, score, sc2)) by {
                        assert forall|x: int| 0 <= x < sc2.len() && #[trigger] self.within(term@, max_distance)[x] implies exists|ks2: &str|
                            ks2@ == self.keys()[x] && score.ensures((ks2, &self.entries()[x].1, edit_dist(term@, self.keys()[x]) as usize), sc2[x]) by {
                            assert(x < i);
                            assert(sc2[x] == sc[x]);
                        }
                    }
                    lemma_sum_within_prefix(sc, sc2, w, i as nat);
                    sc = sc2;
                }
            }
            i += 1;
        }
        acc
    }
}

proof fn lemma_sum_within_prefix<S: Semiring>(sc: Seq<S>, sc2: Seq<S>, w: Seq<bool>, k: nat)
    requires
        k <= sc.len() <= sc2.len(),
        forall|x: int| 0 <= x < sc.len() ==> sc2[x] == sc[x],
    ensures
        sum_within(sc2, w, k) == sum_within(sc, w, k),
    decreases k,
{
    if k > 0 {
        lemma_sum_within_prefix(sc, sc2, w, (k - 1) as nat);
    }
}

/// Adds every element of `v` to `out`: the set union.
fn union_into(out: &mut HashSet<i32>, v: &HashSet<i32>)
    ensures
        final(out)@ == old(out)@.union(v@),
{
    broadcast use vstd::std_specs::hash::group_hash_axioms;
    let ghost o0 = out@;
    for x in it: v.iter()
        invariant
            it.seq().unref().to_set() == v@,
            out@ == o0.union(it.seq().take(it.index() as int).unref().to_set()),
            it.index() == it.seq().len() ==> it.seq().take(it.index() as int) == it.seq(),
    {
        let ghost i = it.index();
        out.insert(*x);
        proof {
            let pre = it.seq().take(i as int).unref();
            let post = it.seq().take(i + 1).unref();
            assert(post =~= pre.push(*x));
            assert(post.to_set() =~= pre.to_set().insert(*x)) by {
                pre.lemma_push_to_set_commute(*x);
            }
        }
    }
}

impl FuzzyMap<HashSet<i32>> {
    /// Union the value sets of every key within `max_distance`. Set union is the `add` of a
    /// set-union semiring, so this is the same aggregation the generic `query` performs,
    /// specialized to sets.
    pub fn query_union(&self, term: &str, max_distance: usize) -> (r: HashSet<i32>)
        requires
            term@.len() < usize::MAX,
            forall|i: int| 0 <= i < self.entries().len() ==> #[trigger] self.keys()[i].len() < usize::MAX,
        ensures
            forall|x: i32| r@.contains(x) <==> exists|i: int| 0 <= i < self.entries().len()
                && #[trigger] self.within(term@, max_distance)[i] && self.entries()[i].1@.contains(x),
    {
        let ghost w = self.within(term@, max_distance);
        let mut out: HashSet<i32> = HashSet::new();
        let mut i: usize = 0;
        while i < self.entries.len()
            invariant
                i <= self.entries().len(),
                w == self.within(term@, max_distance),
                term@.len() < usize::MAX,
                forall|j: int| 0 <= j < self.entries().len() ==> #[trigger] self.keys()[j].len() < usize::MAX,
                forall|x: i32| out@.contains(x) <==> exists|j: int| 0 <= j < i && #[trigger] w[j] && self.entries()[j].1@.contains(x),
            decreases self.entries().len() - i,
        {
            let k = &self.entries[i].0;
            let v = &self.entries[i].1;
            proof {
                assert(self.keys()[i as int] == k@);
            }
            let ghost out0 = out@;
            let d = edit_distance(term, k.as_str());
            if d <= max_distance {
                union_into(&mut out, v);
                proof {
                    assert(w[i as int]);
                    assert(self.entries()[i as int].1 == *v);
                    assert forall|x: i32| out@.contains(x) <==> exists|j: int| 0 <= j < i + 1 && #[trigger] w[j] && self.entries()[j].1@.contains(x) by {
                        if out0.contains(x) {
                            let j = choose|j: int| 0 <= j < i && #[trigger] w[j] && self.entries()[j].1@.contains(x);
                        }
                        if v@.contains(x) {
                            assert(w[i as int] && self.entries()[i as int].1@.contains(x));
                        }
                    }
                }
            } else {
                proof {
                    assert forall|x: i32| out@.contains(x) <==> exists|j: int| 0 <= j < i + 1 && #[trigger] w[j] && self.entries()[j].1@.contains(x) by {
                        if exists|j: int| 0 <= j < i + 1 && #[trigger] w[j] && self.entries()[j].1@.contains(x) {
                            let j = choose|j: int| 0 <= j < i + 1 && #[trigger] w[j] && self.entries()[j].1@.contains(x);
                            assert(j != i);
                        }
                    }
                }
            }
            i += 1;
        }
        out
    }
}

} // verus!
