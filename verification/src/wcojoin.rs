//! Worst-case-optimal join (generic join / Leapfrog-Triejoin family). Each relation is
//! indexed once into a trie over its join variables; `recurse` drives the smallest
//! participating cursor and keeps only keys present in every participating cursor (the
//! leapfrog intersection), advancing and restoring cursors on backtrack.
//!
//! This is the GROUND fast path. Values are keyed by their encoding, so the intersection is
//! exact equality on canonical bytes.

use vstd::prelude::*;
use std::collections::BTreeMap;
use crate::term::{Term, TermV, encodable, encoding, vec_contains};
use crate::text::bytes_eq;

verus! {

broadcast use vstd::laws_cmp::group_laws_cmp, vstd::std_specs::btree::group_btree_axioms;

/// A relation: its variables, and a set of tuples binding those variables to values.
pub struct Relation {
    pub vars: Vec<u32>,
    pub tuples: Vec<BTreeMap<u32, Term>>,
}

/// One node of a relation's index trie: the value at this level, its key, and its children
/// (indices into the trie's node list), sorted by key.
struct TrieNode {
    key: Vec<u8>,
    val: Term,
    children: Vec<usize>,
    /// The keys on the path from the root to this node.
    path: Ghost<Seq<Seq<u8>>>,
    /// A tuple whose values have the keys of the path.
    wit: Ghost<int>,
}

/// A relation's index: the subsequence of the variable order it constrains, and its trie
/// (node 0 is the root).
struct RelInfo {
    rel_vars: Vec<u32>,
    nodes: Vec<TrieNode>,
}

/// Byte strings in lexicographic order: `x` sorts strictly before `y`.
pub open spec fn bytes_lt(x: Seq<u8>, y: Seq<u8>) -> bool
    decreases x.len(),
{
    if y.len() == 0 {
        false
    } else if x.len() == 0 {
        true
    } else if x[0] != y[0] {
        x[0] < y[0]
    } else {
        bytes_lt(x.subrange(1, x.len() as int), y.subrange(1, y.len() as int))
    }
}

/// The byte order is irreflexive.
pub proof fn lemma_bytes_lt_irrefl(x: Seq<u8>)
    ensures
        !bytes_lt(x, x),
    decreases x.len(),
{
    if x.len() > 0 {
        lemma_bytes_lt_irrefl(x.subrange(1, x.len() as int));
    }
}

/// The byte order is transitive.
pub proof fn lemma_bytes_lt_trans(x: Seq<u8>, y: Seq<u8>, z: Seq<u8>)
    requires
        bytes_lt(x, y),
        bytes_lt(y, z),
    ensures
        bytes_lt(x, z),
    decreases x.len(),
{
    if x.len() > 0 && x[0] == y[0] && y[0] == z[0] {
        lemma_bytes_lt_trans(x.subrange(1, x.len() as int), y.subrange(1, y.len() as int), z.subrange(1, z.len() as int));
    }
}

/// Two different byte strings are ordered one way or the other.
pub proof fn lemma_bytes_lt_total(x: Seq<u8>, y: Seq<u8>)
    requires
        x != y,
    ensures
        bytes_lt(x, y) || bytes_lt(y, x),
    decreases x.len(),
{
    if x.len() == 0 {
        if y.len() == 0 {
            assert(x =~= y);
        }
    } else if y.len() > 0 && x[0] == y[0] {
        let xs = x.subrange(1, x.len() as int);
        let ys = y.subrange(1, y.len() as int);
        if xs == ys {
            assert(x =~= y) by {
                assert(xs.len() == x.len() - 1);
                assert(ys.len() == y.len() - 1);
                assert(x.len() == y.len());
                assert forall|i: int| 0 <= i < x.len() implies x[i] == y[i] by {
                    if i > 0 {
                        assert(x[i] == xs[i - 1]);
                        assert(y[i] == ys[i - 1]);
                    }
                }
            }
        }
        lemma_bytes_lt_total(xs, ys);
    }
}

/// `p` is a prefix of `s`.
pub open spec fn is_prefix(p: Seq<u8>, s: Seq<u8>) -> bool {
    p.len() <= s.len() && s.take(p.len() as int) == p
}

/// A proper prefix sorts first.
pub proof fn lemma_lt_proper_prefix(x: Seq<u8>, y: Seq<u8>)
    requires
        is_prefix(x, y),
        x.len() < y.len(),
    ensures
        bytes_lt(x, y),
    decreases x.len(),
{
    if x.len() > 0 {
        assert(x[0] == y.take(x.len() as int)[0]);
        let xs = x.subrange(1, x.len() as int);
        let ys = y.subrange(1, y.len() as int);
        assert(ys.take(xs.len() as int) =~= xs) by {
            assert forall|i: int| 0 <= i < xs.len() implies #[trigger] ys.take(xs.len() as int)[i] == xs[i] by {
                assert(y.take(x.len() as int)[i + 1] == x[i + 1]);
            }
        }
        lemma_lt_proper_prefix(xs, ys);
    }
}

/// Strings that agree up to `d` and differ there are ordered by that byte.
pub proof fn lemma_lt_at(x: Seq<u8>, y: Seq<u8>, d: int)
    requires
        0 <= d < x.len(),
        d < y.len(),
        x.take(d) == y.take(d),
        x[d] < y[d],
    ensures
        bytes_lt(x, y),
    decreases x.len(),
{
    if d > 0 {
        assert(x[0] == x.take(d)[0]);
        assert(y[0] == y.take(d)[0]);
        let xs = x.subrange(1, x.len() as int);
        let ys = y.subrange(1, y.len() as int);
        assert(xs.take(d - 1) =~= ys.take(d - 1)) by {
            assert forall|i: int| 0 <= i < d - 1 implies #[trigger] xs.take(d - 1)[i] == ys.take(d - 1)[i] by {
                assert(x.take(d)[i + 1] == x[i + 1]);
                assert(y.take(d)[i + 1] == y[i + 1]);
                assert(x.take(d)[i + 1] == y.take(d)[i + 1]);
                assert(xs[i] == x[i + 1]);
                assert(ys[i] == y[i + 1]);
                assert(xs.take(d - 1)[i] == xs[i]);
                assert(ys.take(d - 1)[i] == ys[i]);
            }
        }
        lemma_lt_at(xs, ys, d - 1);
    }
}

/// If `x` sorts before `y`, it is a proper prefix of `y` or first differs from it by a
/// smaller byte.
pub proof fn lemma_lt_split(x: Seq<u8>, y: Seq<u8>)
    requires
        bytes_lt(x, y),
    ensures
        (is_prefix(x, y) && x.len() < y.len())
            || exists|d: int| 0 <= d < x.len() && d < y.len() && x.take(d) == y.take(d) && #[trigger] x[d] < y[d],
    decreases x.len(),
{
    if x.len() == 0 {
        assert(y.take(0) =~= x);
    } else if x[0] != y[0] {
        assert(x.take(0) =~= y.take(0));
    } else {
        let xs = x.subrange(1, x.len() as int);
        let ys = y.subrange(1, y.len() as int);
        lemma_lt_split(xs, ys);
        if is_prefix(xs, ys) && xs.len() < ys.len() {
            assert(y.take(x.len() as int) =~= x) by {
                assert forall|i: int| 0 <= i < x.len() implies #[trigger] y.take(x.len() as int)[i] == x[i] by {
                    if i > 0 {
                        assert(ys.take(xs.len() as int)[i - 1] == xs[i - 1]);
                    }
                }
            }
        } else {
            let d = choose|d: int| 0 <= d < xs.len() && d < ys.len() && xs.take(d) == ys.take(d) && #[trigger] xs[d] < ys[d];
            assert(x.take(d + 1) =~= y.take(d + 1)) by {
                assert forall|i: int| 0 <= i < d + 1 implies #[trigger] x.take(d + 1)[i] == y.take(d + 1)[i] by {
                    if i > 0 {
                        assert(xs.take(d)[i - 1] == ys.take(d)[i - 1]);
                    }
                }
            }
            assert(x[d + 1] < y[d + 1]);
        }
    }
}

/// A string that sorts before `k` without being its prefix still sorts before `k` when
/// extended by one byte.
pub proof fn lemma_lt_push(c: Seq<u8>, b: u8, k: Seq<u8>)
    requires
        bytes_lt(c, k),
        !is_prefix(c, k),
    ensures
        bytes_lt(c.push(b), k),
{
    lemma_lt_split(c, k);
    let d = choose|d: int| 0 <= d < c.len() && d < k.len() && c.take(d) == k.take(d) && #[trigger] c[d] < k[d];
    assert(c.push(b).take(d) =~= c.take(d));
    assert(c.push(b)[d] == c[d]);
    lemma_lt_at(c.push(b), k, d);
}

/// A string that sorts before `k` without being its prefix sorts any of its extensions before `k`.
pub proof fn lemma_lt_extend(p: Seq<u8>, l: Seq<u8>, k: Seq<u8>)
    requires
        bytes_lt(p, k),
        !is_prefix(p, k),
        is_prefix(p, l),
    ensures
        bytes_lt(l, k),
{
    lemma_lt_split(p, k);
    let d = choose|d: int| 0 <= d < p.len() && d < k.len() && p.take(d) == k.take(d) && #[trigger] p[d] < k[d];
    assert(l.take(d) =~= p.take(d)) by {
        assert forall|i: int| 0 <= i < d implies #[trigger] l.take(d)[i] == p.take(d)[i] by {
            assert(l.take(p.len() as int)[i] == p[i]);
        }
    }
    assert(l[d] == l.take(p.len() as int)[d]);
    lemma_lt_at(l, k, d);
}

/// Compare byte strings lexicographically.
pub(crate) fn bytes_less(x: &Vec<u8>, y: &Vec<u8>) -> (b: bool)
    ensures
        b == bytes_lt(x@, y@),
{
    let mut i: usize = 0;
    proof {
        assert(x@.subrange(0, x@.len() as int) =~= x@);
        assert(y@.subrange(0, y@.len() as int) =~= y@);
    }
    while i < x.len() && i < y.len()
        invariant
            i <= x@.len(),
            i <= y@.len(),
            forall|j: int| 0 <= j < i ==> x@[j] == y@[j],
            bytes_lt(x@, y@) == bytes_lt(x@.subrange(i as int, x@.len() as int), y@.subrange(i as int, y@.len() as int)),
        decreases x.len() - i,
    {
        proof {
            let xs = x@.subrange(i as int, x@.len() as int);
            let ys = y@.subrange(i as int, y@.len() as int);
            assert(xs.subrange(1, xs.len() as int) =~= x@.subrange(i + 1, x@.len() as int));
            assert(ys.subrange(1, ys.len() as int) =~= y@.subrange(i + 1, y@.len() as int));
        }
        if x[i] != y[i] {
            return x[i] < y[i];
        }
        i += 1;
    }
    proof {
        assert(x@.subrange(i as int, x@.len() as int).len() == x@.len() - i);
    }
    i < y.len()
}

/// The variables of `order` that a relation with variables `vars` constrains, in order.
pub open spec fn restrict_order(order: Seq<u32>, vars: Seq<u32>) -> Seq<u32> {
    order.filter(|v: u32| vars.contains(v))
}

/// The variables of the relations, one relation after another, repeats kept.
pub open spec fn vars_seq(rels: Seq<Relation>) -> Seq<u32>
    decreases rels.len(),
{
    if rels.len() == 0 {
        Seq::empty()
    } else {
        vars_seq(rels.drop_last()) + rels.last().vars@
    }
}

/// The distinct elements of `s`, each where it first occurs.
pub open spec fn first_seen(s: Seq<u32>) -> Seq<u32>
    decreases s.len(),
{
    if s.len() == 0 {
        Seq::empty()
    } else if s.drop_last().contains(s.last()) {
        first_seen(s.drop_last())
    } else {
        first_seen(s.drop_last()).push(s.last())
    }
}

/// All variables across the relations, first-seen order (the default elimination order).
pub fn all_vars(rels: &[Relation]) -> (seen: Vec<u32>)
    ensures
        seen@ == first_seen(vars_seq(rels@)),
        seen@.no_duplicates(),
        forall|v: u32| seen@.contains(v) <==> exists|i: int| 0 <= i < rels@.len() && #[trigger] rels@[i].vars@.contains(v),
{
    let mut seen: Vec<u32> = Vec::new();
    let mut i: usize = 0;
    while i < rels.len()
        invariant
            i <= rels@.len(),
            seen@.no_duplicates(),
            forall|v: u32| seen@.contains(v) <==> exists|k: int| 0 <= k < i && #[trigger] rels@[k].vars@.contains(v),
            seen@ == first_seen(vars_seq(rels@.take(i as int))),
            forall|v: u32| seen@.contains(v) <==> vars_seq(rels@.take(i as int)).contains(v),
        decreases rels.len() - i,
    {
        let vars = &rels[i].vars;
        let ghost pre = vars_seq(rels@.take(i as int));
        proof {
            assert(pre + vars@.take(0) =~= pre);
        }
        let mut j: usize = 0;
        while j < vars.len()
            invariant
                i < rels@.len(),
                *vars == rels@[i as int].vars,
                j <= vars@.len(),
                seen@.no_duplicates(),
                forall|v: u32| seen@.contains(v) <==> (exists|k: int| 0 <= k < i && #[trigger] rels@[k].vars@.contains(v))
                    || exists|x: int| 0 <= x < j && vars@[x] == v,
                pre == vars_seq(rels@.take(i as int)),
                seen@ == first_seen(pre + vars@.take(j as int)),
                forall|v: u32| seen@.contains(v) <==> (pre + vars@.take(j as int)).contains(v),
            decreases vars.len() - j,
        {
            let v = vars[j];
            let ghost s0 = seen@;
            proof {
                let a = pre + vars@.take(j as int);
                let b = pre + vars@.take(j + 1);
                assert(b.drop_last() =~= a);
                assert(b.last() == v);
                assert forall|u: u32| b.contains(u) <==> (a.contains(u) || u == v) by {
                    if b.contains(u) && u != v {
                        let x = choose|x: int| 0 <= x < b.len() && b[x] == u;
                        assert(a[x] == u);
                    }
                    if a.contains(u) {
                        let x = choose|x: int| 0 <= x < a.len() && a[x] == u;
                        assert(b[x] == u);
                    }
                    if u == v {
                        assert(b[b.len() - 1] == u);
                    }
                }
            }
            if !vec_contains(&seen, v) {
                seen.push(v);
            }
            proof {
                assert forall|u: u32| seen@.contains(u) <==> (s0.contains(u) || u == v) by {
                    if seen@.contains(u) && !s0.contains(u) {
                        let x = choose|x: int| 0 <= x < seen@.len() && seen@[x] == u;
                        if x < s0.len() {
                            assert(s0[x] == u);
                        }
                    }
                    if s0.contains(u) {
                        let x = choose|x: int| 0 <= x < s0.len() && s0[x] == u;
                        assert(seen@[x] == u);
                    }
                    if u == v && !s0.contains(u) {
                        assert(seen@[s0.len() as int] == u);
                    }
                }
                assert forall|u: u32| seen@.contains(u) <==> (exists|k: int| 0 <= k < i && #[trigger] rels@[k].vars@.contains(u))
                    || exists|x: int| 0 <= x < j + 1 && vars@[x] == u by {
                    assert(s0.contains(u) <==> (exists|k: int| 0 <= k < i && #[trigger] rels@[k].vars@.contains(u))
                        || exists|x: int| 0 <= x < j && vars@[x] == u);
                    if exists|x: int| 0 <= x < j && vars@[x] == u {
                        let x = choose|x: int| 0 <= x < j && vars@[x] == u;
                        assert(0 <= x < j + 1 && vars@[x] == u);
                    }
                    if u == v {
                        assert(vars@[j as int] == u);
                    }
                    if exists|x: int| 0 <= x < j + 1 && vars@[x] == u {
                        let x = choose|x: int| 0 <= x < j + 1 && vars@[x] == u;
                        if x == j {
                            assert(u == v);
                        }
                    }
                }
                assert forall|u: u32| seen@.contains(u) <==> (pre + vars@.take(j + 1)).contains(u) by {
                    assert(seen@.contains(u) <==> (s0.contains(u) || u == v));
                    assert(s0.contains(u) <==> (pre + vars@.take(j as int)).contains(u));
                }
            }
            j += 1;
        }
        proof {
            let r1 = rels@.take(i + 1);
            assert(r1.drop_last() =~= rels@.take(i as int));
            assert(r1.last() == rels@[i as int]);
            assert(vars@.take(vars@.len() as int) =~= vars@);
            assert(vars_seq(r1) == pre + vars@);
            assert forall|u: u32| seen@.contains(u) <==> exists|k: int| 0 <= k < i + 1 && #[trigger] rels@[k].vars@.contains(u) by {
                if exists|x: int| 0 <= x < vars@.len() && vars@[x] == u {
                    let x = choose|x: int| 0 <= x < vars@.len() && vars@[x] == u;
                    assert(rels@[i as int].vars@.contains(u));
                }
                if exists|k: int| 0 <= k < i + 1 && #[trigger] rels@[k].vars@.contains(u) {
                    let k = choose|k: int| 0 <= k < i + 1 && #[trigger] rels@[k].vars@.contains(u);
                    if k == i {
                        let x = choose|x: int| 0 <= x < vars@.len() && vars@[x] == u;
                    }
                }
            }
        }
        i += 1;
    }
    proof {
        assert(rels@.take(rels@.len() as int) =~= rels@);
    }
    seen
}


/// Every value a tuple binds can be encoded (the index is keyed by encodings).
pub open spec fn rel_encodable(r: Relation) -> bool {
    forall|t: int, v: u32| 0 <= t < r.tuples@.len() && #[trigger] r.tuples@[t]@.contains_key(v) ==> encodable(r.tuples@[t]@[v]@)
}

impl RelInfo {
    /// Every child index points at a node of the trie.
    spec fn wf(&self) -> bool {
        &&& self.nodes@.len() >= 1
        &&& forall|n: int, c: int| 0 <= n < self.nodes@.len() && 0 <= c < self.nodes@[n].children@.len()
            ==> #[trigger] self.nodes@[n].children@[c] < self.nodes@.len()
    }
}

/// The encodings of a tuple's values for the variables `vs`.
pub open spec fn keys_of(t: Map<u32, Term>, vs: Seq<u32>) -> Seq<Seq<u8>> {
    vs.map_values(|v: u32| encoding(t[v]@))
}

/// The tuple `t` binds the first variables of `rv`, with values whose encodings are `path`.
pub open spec fn agrees_keys(t: Map<u32, Term>, rv: Seq<u32>, path: Seq<Seq<u8>>) -> bool {
    forall|l: int| 0 <= l < path.len() ==> t.contains_key(rv[l]) && #[trigger] path[l] == encoding(t[rv[l]]@)
}

/// A non-root node is keyed by the encoding of its value, ends its path with its key, and has a
/// witness tuple whose values give the path.
spec fn node_ok(nd: TrieNode, r: Relation, rv: Seq<u32>) -> bool {
    nd.path@.len() >= 1 ==> {
        &&& nd.path@.len() <= rv.len()
        &&& nd.key@ == encoding(nd.val@)
        &&& encodable(nd.val@)
        &&& nd.path@.last() == nd.key@
        &&& 0 <= nd.wit@ < r.tuples@.len()
        &&& agrees_keys(r.tuples@[nd.wit@]@, rv, nd.path@)
    }
}

/// The index of relation `r`: the root has the empty path, each child extends its parent's
/// path by its own key, and every node is backed by a tuple of `r`.
spec fn index_ok(ri: RelInfo, r: Relation) -> bool {
    &&& ri.wf()
    &&& ri.nodes@[0].path@.len() == 0
    &&& forall|n: int| 0 <= n < ri.nodes@.len() ==> node_ok(#[trigger] ri.nodes@[n], r, ri.rel_vars@)
    &&& forall|n: int, c: int| #![trigger ri.nodes@[n].children@[c]] 0 <= n < ri.nodes@.len() && 0 <= c < ri.nodes@[n].children@.len()
        ==> ri.nodes@[ri.nodes@[n].children@[c] as int].path@ == ri.nodes@[n].path@.push(ri.nodes@[ri.nodes@[n].children@[c] as int].key@)
}

/// The tuple binds the first `j` variables of `rv`.
spec fn binds_upto(t: Map<u32, Term>, rv: Seq<u32>, j: int) -> bool {
    forall|l: int| 0 <= l < j ==> t.contains_key(#[trigger] rv[l])
}

/// Node `n` has a child keyed `k`.
spec fn has_child_key(nodes: Seq<TrieNode>, n: int, k: Seq<u8>) -> bool {
    exists|c: int| 0 <= c < nodes[n].children@.len() && nodes[#[trigger] nodes[n].children@[c] as int].key@ == k
}

/// Tuple `t` continues below node `n`: the node's path is the keys of `t`'s first values, and
/// `t` binds the next variable too.
spec fn runs_through(nodes: Seq<TrieNode>, n: int, t: Map<u32, Term>, rv: Seq<u32>) -> bool {
    &&& nodes[n].path@.len() < rv.len()
    &&& binds_upto(t, rv, nodes[n].path@.len() + 1 as int)
    &&& nodes[n].path@ == keys_of(t, rv.take(nodes[n].path@.len() as int))
}

/// The trie's structure: child indices name nodes, every node is backed by a tuple, children
/// extend their parent's path by their key, siblings are strictly ordered by key, and no two
/// nodes have the same path.
spec fn idx_shape(nodes: Seq<TrieNode>, r: Relation, rv: Seq<u32>) -> bool {
    &&& nodes.len() >= 1
    &&& nodes[0].path@.len() == 0
    &&& forall|n: int, c: int| 0 <= n < nodes.len() && 0 <= c < nodes[n].children@.len()
        ==> #[trigger] nodes[n].children@[c] < nodes.len()
    &&& forall|n: int| 0 <= n < nodes.len() ==> node_ok(#[trigger] nodes[n], r, rv)
    &&& forall|n: int, c: int| #![trigger nodes[n].children@[c]] 0 <= n < nodes.len() && 0 <= c < nodes[n].children@.len()
        ==> nodes[nodes[n].children@[c] as int].path@ == nodes[n].path@.push(nodes[nodes[n].children@[c] as int].key@)
    &&& forall|n: int, a: int, b: int| #![trigger nodes[n].children@[a], nodes[n].children@[b]]
        0 <= n < nodes.len() && 0 <= a < b < nodes[n].children@.len()
        ==> bytes_lt(nodes[nodes[n].children@[a] as int].key@, nodes[nodes[n].children@[b] as int].key@)
    &&& forall|n1: int, n2: int| #![trigger nodes[n1].path@, nodes[n2].path@]
        0 <= n1 < nodes.len() && 0 <= n2 < nodes.len() && nodes[n1].path@ == nodes[n2].path@ ==> n1 == n2
}

/// Every tuple among the first `t` that continues below a node has its next key among the
/// node's children.
spec fn idx_complete(nodes: Seq<TrieNode>, r: Relation, rv: Seq<u32>, t: int) -> bool {
    forall|n: int, x: int| 0 <= n < nodes.len() && 0 <= x < t && #[trigger] runs_through(nodes, n, r.tuples@[x]@, rv)
        ==> has_child_key(nodes, n, encoding(r.tuples@[x]@[rv[nodes[n].path@.len() as int]]@))
}

/// Every non-root node is backed by one of the first `t` tuples.
spec fn wits_below(nodes: Seq<TrieNode>, t: int) -> bool {
    forall|n: int| 0 <= n < nodes.len() && (#[trigger] nodes[n]).path@.len() >= 1 ==> nodes[n].wit@ < t
}

/// What inserting tuple `t` keeps while it walks down at depth `j`: nodes before `n0` are the
/// old ones, backed by earlier tuples; the nodes made so far lie on `t`'s keys and no earlier
/// tuple runs through them; the earlier tuples stay complete, and `t` is complete down to `j`.
spec fn walk_inv(nodes: Seq<TrieNode>, r: Relation, rv: Seq<u32>, t: int, n0: int, j: int) -> bool {
    &&& 1 <= n0 <= nodes.len()
    &&& 0 <= t < r.tuples@.len()
    &&& forall|n: int| 0 <= n < n0 && (#[trigger] nodes[n]).path@.len() >= 1 ==> nodes[n].wit@ < t
    &&& forall|n: int| n0 <= n < nodes.len() ==> (#[trigger] nodes[n]).wit@ == t && 1 <= nodes[n].path@.len() <= j
        && nodes[n].path@ == keys_of(r.tuples@[t]@, rv.take(nodes[n].path@.len() as int))
    &&& forall|n: int, x: int| n0 <= n < nodes.len() && 0 <= x < t ==> !(binds_upto(r.tuples@[x]@, rv, nodes[n].path@.len() as int)
        && #[trigger] nodes[n].path@ == keys_of(#[trigger] r.tuples@[x]@, rv.take(nodes[n].path@.len() as int)))
    &&& idx_complete(nodes, r, rv, t)
    &&& forall|n: int| 0 <= n < nodes.len() && #[trigger] runs_through(nodes, n, r.tuples@[t]@, rv) && nodes[n].path@.len() < j
        ==> has_child_key(nodes, n, encoding(r.tuples@[t]@[rv[nodes[n].path@.len() as int]]@))
}

/// Following the existing child keyed with the next value of `t` keeps the walk's invariant.
proof fn lemma_walk_follow(nodes: Seq<TrieNode>, r: Relation, rv: Seq<u32>, t: int, n0: int, j: int, node: int, c: int)
    requires
        idx_shape(nodes, r, rv),
        walk_inv(nodes, r, rv, t, n0, j),
        0 <= j < rv.len(),
        0 <= node < nodes.len(),
        nodes[node].path@ == keys_of(r.tuples@[t]@, rv.take(j)),
        binds_upto(r.tuples@[t]@, rv, j + 1),
        0 <= c < nodes[node].children@.len(),
        nodes[nodes[node].children@[c] as int].key@ == encoding(r.tuples@[t]@[rv[j]]@),
    ensures
        walk_inv(nodes, r, rv, t, n0, j + 1),
        nodes[nodes[node].children@[c] as int].path@ == keys_of(r.tuples@[t]@, rv.take(j + 1)),
{
    let tup = r.tuples@[t]@;
    assert(keys_of(tup, rv.take(j + 1)) =~= keys_of(tup, rv.take(j)).push(encoding(tup[rv[j]]@)));
    assert forall|n: int| 0 <= n < nodes.len() && #[trigger] runs_through(nodes, n, tup, rv) && nodes[n].path@.len() < j + 1
        implies has_child_key(nodes, n, encoding(tup[rv[nodes[n].path@.len() as int]]@)) by {
        if nodes[n].path@.len() == j {
            assert(nodes[n].path@ == nodes[node].path@);
            assert(n == node);
        }
    }
}

/// Adding a fresh child keyed with the next value of `t` at the sorted position keeps the
/// structure and the walk's invariant.
proof fn lemma_walk_add(ns1: Seq<TrieNode>, ns3: Seq<TrieNode>, r: Relation, rv: Seq<u32>, t: int, n0: int, j: int, node: int, pos: int)
    requires
        idx_shape(ns1, r, rv),
        walk_inv(ns1, r, rv, t, n0, j),
        rel_encodable(r),
        rv.len() <= usize::MAX,
        0 <= j < rv.len(),
        0 <= node < ns1.len(),
        ns1[node].path@ == keys_of(r.tuples@[t]@, rv.take(j)),
        binds_upto(r.tuples@[t]@, rv, j + 1),
        ns1.len() <= usize::MAX,
        forall|c: int| 0 <= c < ns1[node].children@.len() ==> ns1[#[trigger] ns1[node].children@[c] as int].key@ != encoding(r.tuples@[t]@[rv[j]]@),
        0 <= pos <= ns1[node].children@.len(),
        forall|c: int| 0 <= c < pos ==> bytes_lt(ns1[#[trigger] ns1[node].children@[c] as int].key@, encoding(r.tuples@[t]@[rv[j]]@)),
        forall|c: int| pos <= c < ns1[node].children@.len() ==> bytes_lt(encoding(r.tuples@[t]@[rv[j]]@), ns1[#[trigger] ns1[node].children@[c] as int].key@),
        ns3.len() == ns1.len() + 1,
        forall|n: int| 0 <= n < ns1.len() && n != node ==> #[trigger] ns3[n] == ns1[n],
        ns3[node].children@ == ns1[node].children@.insert(pos, ns1.len() as usize),
        ns3[node].path@ == ns1[node].path@,
        ns3[node].key@ == ns1[node].key@,
        ns3[node].val@ == ns1[node].val@,
        ns3[node].wit@ == ns1[node].wit@,
        ns3[ns1.len() as int].path@ == keys_of(r.tuples@[t]@, rv.take(j + 1)),
        ns3[ns1.len() as int].key@ == encoding(r.tuples@[t]@[rv[j]]@),
        ns3[ns1.len() as int].val@ == r.tuples@[t]@[rv[j]]@,
        ns3[ns1.len() as int].wit@ == t,
        ns3[ns1.len() as int].children@.len() == 0,
    ensures
        idx_shape(ns3, r, rv),
        walk_inv(ns3, r, rv, t, n0, j + 1),
{
    let id = ns1.len() as int;
    let tup = r.tuples@[t]@;
    let key = encoding(tup[rv[j]]@);
    let np = keys_of(tup, rv.take(j + 1));
    let k0 = ns1[node].children@;
    let k1 = ns3[node].children@;
    k0.insert_ensures(pos, id as usize);
    assert(np =~= keys_of(tup, rv.take(j)).push(key));
    assert forall|n: int| 0 <= n < ns1.len() implies #[trigger] ns3[n].path@ == ns1[n].path@ && ns3[n].key@ == ns1[n].key@
        && ns3[n].val@ == ns1[n].val@ && ns3[n].wit@ == ns1[n].wit@ by {
        if n != node {
            assert(ns3[n] == ns1[n]);
        }
    }
    assert forall|n: int| 0 <= n < ns1.len() && n != node implies #[trigger] ns3[n].children@ == ns1[n].children@ by {
        assert(ns3[n] == ns1[n]);
    }
    // positions of the old children of `node`
    assert forall|c: int| 0 <= c < k0.len() implies k1[if c < pos { c } else { c + 1 }] == #[trigger] k0[c] by {}
    assert forall|c: int| 0 <= c < k1.len() implies (c == pos && k1[c] == id as usize) || (c < pos && k1[c] == k0[c]) || (c > pos && k1[c] == k0[c - 1]) by {}
    // the new path is fresh
    assert forall|x: int| 0 <= x < t && binds_upto(r.tuples@[x]@, rv, j + 1) && np == keys_of(r.tuples@[x]@, rv.take(j + 1))
        implies false by {
        let tx = r.tuples@[x]@;
        assert(keys_of(tx, rv.take(j + 1)) =~= keys_of(tx, rv.take(j)).push(encoding(tx[rv[j]]@)));
        assert(keys_of(tx, rv.take(j)) == np.take(j));
        assert(np.take(j) =~= ns1[node].path@);
        assert(runs_through(ns1, node, tx, rv));
        assert(has_child_key(ns1, node, encoding(tx[rv[j]]@)));
        assert(encoding(tx[rv[j]]@) == np[j]);
        let c = choose|c: int| 0 <= c < ns1[node].children@.len() && ns1[#[trigger] ns1[node].children@[c] as int].key@ == encoding(tx[rv[j]]@);
    }
    assert forall|m: int| 0 <= m < ns1.len() implies ns1[m].path@ != np by {
        if ns1[m].path@ == np {
            if m >= n0 {
            } else {
                assert(node_ok(ns1[m], r, rv));
                let w = ns1[m].wit@;
                assert(agrees_keys(r.tuples@[w]@, rv, np));
                assert(np.len() == j + 1);
                assert forall|l: int| 0 <= l < j + 1 implies r.tuples@[w]@.contains_key(#[trigger] rv[l]) by {
                    assert(np[l] == encoding(r.tuples@[w]@[rv[l]]@));
                }
                assert(binds_upto(r.tuples@[w]@, rv, j + 1));
                assert(np =~= keys_of(r.tuples@[w]@, rv.take(j + 1)));
            }
        }
    }
    // structure
    assert forall|n: int, c: int| 0 <= n < ns3.len() && 0 <= c < ns3[n].children@.len()
        implies #[trigger] ns3[n].children@[c] < ns3.len() by {
        if n == node && c != pos {
            let c0 = if c < pos { c } else { c - 1 };
            assert(k1[c] == k0[c0]);
        }
    }
    assert(node_ok(ns3[id], r, rv)) by {
        assert forall|l: int| 0 <= l < np.len() implies tup.contains_key(rv[l]) && #[trigger] np[l] == encoding(tup[rv[l]]@) by {
            if l < j {
                assert(np[l] == keys_of(tup, rv.take(j))[l]);
            }
        }
        assert(tup.contains_key(rv[j]));
        assert(encodable(tup[rv[j]]@));
    }
    assert forall|n: int| 0 <= n < ns3.len() implies node_ok(#[trigger] ns3[n], r, rv) by {
        if n < ns1.len() {
            assert(node_ok(ns1[n], r, rv));
        }
    }
    assert forall|n: int, c: int| #![trigger ns3[n].children@[c]] 0 <= n < ns3.len() && 0 <= c < ns3[n].children@.len()
        implies ns3[ns3[n].children@[c] as int].path@ == ns3[n].path@.push(ns3[ns3[n].children@[c] as int].key@) by {
        if n == node {
            if c != pos {
                let c0 = if c < pos { c } else { c - 1 };
                assert(k1[c] == k0[c0]);
                assert(ns1[ns1[n].children@[c0] as int].path@ == ns1[n].path@.push(ns1[ns1[n].children@[c0] as int].key@));
            }
        } else if n < ns1.len() {
            assert(ns1[ns1[n].children@[c] as int].path@ == ns1[n].path@.push(ns1[ns1[n].children@[c] as int].key@));
        }
    }
    assert forall|n: int, a: int, b: int| #![trigger ns3[n].children@[a], ns3[n].children@[b]]
        0 <= n < ns3.len() && 0 <= a < b < ns3[n].children@.len()
        implies bytes_lt(ns3[ns3[n].children@[a] as int].key@, ns3[ns3[n].children@[b] as int].key@) by {
        if n == node {
            if a != pos && b != pos {
                let a0 = if a < pos { a } else { a - 1 };
                let b0 = if b < pos { b } else { b - 1 };
                assert(k1[a] == k0[a0] && k1[b] == k0[b0]);
                assert(bytes_lt(ns1[ns1[n].children@[a0] as int].key@, ns1[ns1[n].children@[b0] as int].key@));
            } else if a == pos {
                assert(k1[b] == k0[b - 1]);
                assert(bytes_lt(key, ns1[ns1[node].children@[b - 1] as int].key@));
            } else {
                assert(k1[a] == k0[a]);
                assert(bytes_lt(ns1[ns1[node].children@[a] as int].key@, key));
            }
        } else if n < ns1.len() {
            assert(bytes_lt(ns1[ns1[n].children@[a] as int].key@, ns1[ns1[n].children@[b] as int].key@));
        }
    }
    assert forall|n1: int, n2: int| #![trigger ns3[n1].path@, ns3[n2].path@]
        0 <= n1 < ns3.len() && 0 <= n2 < ns3.len() && ns3[n1].path@ == ns3[n2].path@ implies n1 == n2 by {
        if n1 < ns1.len() && n2 < ns1.len() {
            assert(ns1[n1].path@ == ns1[n2].path@);
        } else if n1 < ns1.len() {
            assert(ns1[n1].path@ != np);
        } else if n2 < ns1.len() {
            assert(ns1[n2].path@ != np);
        }
    }
    assert(idx_shape(ns3, r, rv));
    // the walk's invariant
    assert forall|n: int, x: int| 0 <= n < ns3.len() && 0 <= x < t && #[trigger] runs_through(ns3, n, r.tuples@[x]@, rv)
        implies has_child_key(ns3, n, encoding(r.tuples@[x]@[rv[ns3[n].path@.len() as int]]@)) by {
        let tx = r.tuples@[x]@;
        if n < ns1.len() {
            assert(runs_through(ns1, n, tx, rv));
            let want = encoding(tx[rv[ns1[n].path@.len() as int]]@);
            assert(has_child_key(ns1, n, want));
            let c = choose|c: int| 0 <= c < ns1[n].children@.len() && ns1[#[trigger] ns1[n].children@[c] as int].key@ == want;
            if n == node {
                let c1 = if c < pos { c } else { c + 1 };
                assert(k1[c1] == k0[c]);
                assert(ns3[#[trigger] ns3[n].children@[c1] as int].key@ == want);
            } else {
                assert(ns3[n].children@[c] == ns1[n].children@[c]);
            }
        } else {
            assert(binds_upto(tx, rv, j + 1));
        }
    }
    assert forall|n: int| 0 <= n < ns3.len() && #[trigger] runs_through(ns3, n, tup, rv) && ns3[n].path@.len() < j + 1
        implies has_child_key(ns3, n, encoding(tup[rv[ns3[n].path@.len() as int]]@)) by {
        if n < ns1.len() {
            assert(runs_through(ns1, n, tup, rv));
            if ns1[n].path@.len() < j {
                let want = encoding(tup[rv[ns1[n].path@.len() as int]]@);
                assert(has_child_key(ns1, n, want));
                let c = choose|c: int| 0 <= c < ns1[n].children@.len() && ns1[#[trigger] ns1[n].children@[c] as int].key@ == want;
                if n == node {
                    let c1 = if c < pos { c } else { c + 1 };
                    assert(k1[c1] == k0[c]);
                    assert(ns3[#[trigger] ns3[n].children@[c1] as int].key@ == want);
                } else {
                    assert(ns3[n].children@[c] == ns1[n].children@[c]);
                }
            } else {
                assert(ns1[n].path@ == ns1[node].path@);
                assert(n == node);
                assert(ns3[#[trigger] ns3[node].children@[pos] as int].key@ == key);
            }
        }
    }
    assert forall|n: int| 0 <= n < n0 && (#[trigger] ns3[n]).path@.len() >= 1 implies ns3[n].wit@ < t by {
        assert(ns1[n].path@.len() >= 1);
    }
    assert forall|n: int| n0 <= n < ns3.len() implies (#[trigger] ns3[n]).wit@ == t && 1 <= ns3[n].path@.len() <= j + 1
        && ns3[n].path@ == keys_of(tup, rv.take(ns3[n].path@.len() as int)) by {
        if n < ns1.len() {
            assert(ns1[n].wit@ == t);
        }
    }
    assert forall|n: int, x: int| n0 <= n < ns3.len() && 0 <= x < t implies !(binds_upto(r.tuples@[x]@, rv, ns3[n].path@.len() as int)
        && #[trigger] ns3[n].path@ == keys_of(#[trigger] r.tuples@[x]@, rv.take(ns3[n].path@.len() as int))) by {
        if n < ns1.len() {
            assert(ns3[n].path@ == ns1[n].path@);
        }
    }
}

/// Insert tuple `t` into the trie along its keys, stopping at the first variable it does not
/// bind.
fn insert_tuple(nodes: &mut Vec<TrieNode>, r: &Relation, t: usize, rel_vars: &Vec<u32>)
    requires
        t < r.tuples@.len(),
        rel_encodable(*r),
        idx_shape(old(nodes)@, *r, rel_vars@),
        idx_complete(old(nodes)@, *r, rel_vars@, t as int),
        wits_below(old(nodes)@, t as int),
    ensures
        idx_shape(final(nodes)@, *r, rel_vars@),
        idx_complete(final(nodes)@, *r, rel_vars@, t + 1),
        wits_below(final(nodes)@, t + 1),
{
    let tup = &r.tuples[t];
    let ghost rv = rel_vars@;
    let ghost n0 = nodes@.len() as int;
    let mut node: usize = 0;
    let mut j: usize = 0;
    proof {
        assert(keys_of(tup@, rv.take(0)) =~= Seq::<Seq<u8>>::empty());
        assert(nodes@[0].path@ =~= Seq::<Seq<u8>>::empty());
        assert(walk_inv(nodes@, *r, rv, t as int, n0, 0));
    }
    while j < rel_vars.len()
        invariant
            t < r.tuples@.len(),
            *tup == r.tuples@[t as int],
            rv == rel_vars@,
            rel_encodable(*r),
            j <= rv.len(),
            node < nodes@.len(),
            nodes@[node as int].path@ == keys_of(tup@, rv.take(j as int)),
            binds_upto(tup@, rv, j as int),
            idx_shape(nodes@, *r, rv),
            walk_inv(nodes@, *r, rv, t as int, n0, j as int),
        ensures
            walk_inv(nodes@, *r, rv, t as int, n0, j as int),
            idx_shape(nodes@, *r, rv),
            j <= rv.len(),
            j < rv.len() ==> !tup@.contains_key(rv[j as int]),
            binds_upto(tup@, rv, j as int),
        decreases rel_vars.len() - j,
    {
        let v = rel_vars[j];
        let val = match tup.get(&v) {
            Some(x) => x.clone(),
            None => {
                break;
            },
        };
        proof {
            assert(tup@.contains_key(v));
            assert(binds_upto(tup@, rv, j + 1));
        }
        let key = val.encode();
        let mut found: Option<usize> = None;
        let mut pos: usize = nodes[node].children.len();
        let mut c: usize = 0;
        let ghost ns1 = nodes@;
        while c < nodes[node].children.len()
            invariant_except_break
                pos == nodes@[node as int].children@.len(),
                found is None,
            invariant
                nodes@ == ns1,
                idx_shape(ns1, *r, rv),
                node < nodes@.len(),
                c <= nodes@[node as int].children@.len(),
                forall|y: int| 0 <= y < c ==> bytes_lt(ns1[#[trigger] ns1[node as int].children@[y] as int].key@, key@),
            ensures
                pos <= nodes@[node as int].children@.len(),
                found matches Some(ch) ==> exists|x: int| 0 <= x < ns1[node as int].children@.len()
                    && #[trigger] ns1[node as int].children@[x] == ch && ns1[ch as int].key@ == key@,
                found is None ==> forall|y: int| 0 <= y < pos ==> bytes_lt(ns1[#[trigger] ns1[node as int].children@[y] as int].key@, key@),
                found is None ==> forall|y: int| pos <= y < ns1[node as int].children@.len()
                    ==> bytes_lt(key@, ns1[#[trigger] ns1[node as int].children@[y] as int].key@),
            decreases nodes@[node as int].children@.len() - c,
        {
            let ch = nodes[node].children[c];
            if bytes_eq(&nodes[ch].key, &key) {
                found = Some(ch);
                proof {
                    assert(nodes@[node as int].children@[c as int] == ch);
                }
                break;
            }
            if bytes_less(&key, &nodes[ch].key) {
                pos = c;
                proof {
                    assert forall|y: int| c <= y < ns1[node as int].children@.len()
                        implies bytes_lt(key@, ns1[#[trigger] ns1[node as int].children@[y] as int].key@) by {
                        if y > c {
                            assert(bytes_lt(ns1[ns1[node as int].children@[c as int] as int].key@, ns1[ns1[node as int].children@[y] as int].key@));
                            lemma_bytes_lt_trans(key@, ns1[ns1[node as int].children@[c as int] as int].key@, ns1[ns1[node as int].children@[y] as int].key@);
                        }
                    }
                }
                break;
            }
            proof {
                lemma_bytes_lt_total(nodes@[ch as int].key@, key@);
            }
            c += 1;
        }
        proof {
            assert(key@ == encoding(tup@[rv[j as int]]@));
        }
        match found {
            Some(ch) => {
                proof {
                    let x = choose|x: int| 0 <= x < ns1[node as int].children@.len() && #[trigger] ns1[node as int].children@[x] == ch && ns1[ch as int].key@ == key@;
                    lemma_walk_follow(ns1, *r, rv, t as int, n0, j as int, node as int, x);
                }
                node = ch;
            }
            None => {
                proof {
                    assert forall|y: int| 0 <= y < ns1[node as int].children@.len()
                        implies ns1[#[trigger] ns1[node as int].children@[y] as int].key@ != encoding(tup@[rv[j as int]]@) by {
                        lemma_bytes_lt_irrefl(key@);
                    }
                }
                let id = nodes.len();
                let ghost np = keys_of(tup@, rv.take(j + 1));
                nodes.push(TrieNode { key, val, children: Vec::new(), path: Ghost(np), wit: Ghost(t as int) });
                let mut kids = Vec::new();
                std::mem::swap(&mut kids, &mut nodes[node].children);
                kids.insert(pos, id);
                std::mem::swap(&mut kids, &mut nodes[node].children);
                proof {
                    lemma_walk_add(ns1, nodes@, *r, rv, t as int, n0, j as int, node as int, pos as int);
                }
                node = id;
            }
        }
        j += 1;
    }
    proof {
        let ns = nodes@;
        assert forall|n: int, x: int| 0 <= n < ns.len() && 0 <= x < t + 1 && #[trigger] runs_through(ns, n, r.tuples@[x]@, rv)
            implies has_child_key(ns, n, encoding(r.tuples@[x]@[rv[ns[n].path@.len() as int]]@)) by {
            if x == t {
                if j < rv.len() && ns[n].path@.len() >= j {
                    assert(binds_upto(tup@, rv, ns[n].path@.len() + 1 as int));
                    assert(tup@.contains_key(rv[j as int]));
                }
            }
        }
        assert forall|n: int| 0 <= n < ns.len() && (#[trigger] ns[n]).path@.len() >= 1 implies ns[n].wit@ < t + 1 by {
            if n >= n0 {
                assert(ns[n].wit@ == t);
            }
        }
    }
}

/// Index one relation into a trie over its variables in `order`. A tuple that does not
/// bind one of the relation's join variables cannot complete a solution; the rest of its path
/// is not built.
fn index_relation(r: &Relation, order: &[u32]) -> (ri: RelInfo)
    requires
        rel_encodable(*r),
        r.tuples@.len() < usize::MAX,
    ensures
        ri.wf(),
        ri.rel_vars@ == restrict_order(order@, r.vars@),
        index_ok(ri, *r),
        idx_shape(ri.nodes@, *r, ri.rel_vars@),
        idx_complete(ri.nodes@, *r, ri.rel_vars@, r.tuples@.len() as int),
{
    let mut rel_vars: Vec<u32> = Vec::new();
    let mut k: usize = 0;
    while k < order.len()
        invariant
            k <= order@.len(),
            rel_vars@ == restrict_order(order@.take(k as int), r.vars@),
        decreases order.len() - k,
    {
        let v = order[k];
        proof {
            assert(order@.take(k + 1) =~= order@.take(k as int).push(v));
            reveal(Seq::filter);
            assert(order@.take(k + 1).drop_last() =~= order@.take(k as int));
        }
        if vec_contains(&r.vars, v) {
            rel_vars.push(v);
        }
        k += 1;
    }
    proof {
        assert(order@.take(order@.len() as int) =~= order@);
    }
    let mut nodes: Vec<TrieNode> = Vec::new();
    nodes.push(TrieNode { key: Vec::new(), val: Term::App(Vec::new()), children: Vec::new(), path: Ghost(Seq::empty()), wit: Ghost(0) });
    let mut t: usize = 0;
    while t < r.tuples.len()
        invariant
            t <= r.tuples@.len(),
            rel_encodable(*r),
            rel_vars@ == restrict_order(order@, r.vars@),
            idx_shape(nodes@, *r, rel_vars@),
            idx_complete(nodes@, *r, rel_vars@, t as int),
            wits_below(nodes@, t as int),
        decreases r.tuples.len() - t,
    {
        insert_tuple(&mut nodes, r, t, &rel_vars);
        t += 1;
    }
    RelInfo { rel_vars, nodes }
}

/// The variables bound in a partial solution after the first `i` variables of `order`.
pub open spec fn bound_after(order: Seq<u32>, i: int) -> Set<u32> {
    order.take(i).to_set()
}

/// `t` and `s` bind every variable of `vs`, to values with the same encodings.
pub open spec fn agrees(t: Map<u32, Term>, s: Map<u32, Term>, vs: Seq<u32>) -> bool {
    forall|l: int| 0 <= l < vs.len() ==> #[trigger] agrees_at(t, s, vs[l])
}

/// `t` and `s` bind `v`, to values with the same encoding.
pub open spec fn agrees_at(t: Map<u32, Term>, s: Map<u32, Term>, v: u32) -> bool {
    t.contains_key(v) && s.contains_key(v) && encoding(t[v]@) == encoding(s[v]@)
}

/// `s` agrees with one tuple of every relation that constrains a variable of `order`, on the
/// variables that relation constrains.
pub open spec fn supported(rels: Seq<Relation>, order: Seq<u32>, s: Map<u32, Term>) -> bool {
    forall|r: int| 0 <= r < rels.len() && restrict_order(order, rels[r].vars@).len() > 0
        ==> exists|x: int| 0 <= x < rels[r].tuples@.len()
            && #[trigger] agrees(rels[r].tuples@[x]@, s, restrict_order(order, rels[r].vars@))
}

proof fn lemma_agrees_from_path(t: Map<u32, Term>, m: Map<u32, Term>, rv: Seq<u32>, path: Seq<Seq<u8>>)
    requires
        path == keys_of(m, rv),
        agrees_keys(t, rv, path),
        forall|l: int| 0 <= l < rv.len() ==> #[trigger] m.contains_key(rv[l]),
    ensures
        agrees(t, m, rv),
{
    assert forall|l: int| 0 <= l < rv.len() implies #[trigger] agrees_at(t, m, rv[l]) by {
        assert(path[l] == encoding(t[rv[l]]@));
        assert(path[l] == encoding(m[rv[l]]@));
    }
}

/// Node `h` is a child of node `n` in index `ri`.
spec fn child_of(ri: RelInfo, n: int, h: int) -> bool {
    exists|c: int| 0 <= c < ri.nodes@[n].children@.len() && ri.nodes@[n].children@[c] == h
}

pub(crate) proof fn lemma_restrict_step(order: Seq<u32>, vars: Seq<u32>, i: int)
    requires
        0 <= i < order.len(),
    ensures
        restrict_order(order.take(i + 1), vars) == if vars.contains(order[i]) {
            restrict_order(order.take(i), vars).push(order[i])
        } else {
            restrict_order(order.take(i), vars)
        },
{
    reveal(Seq::filter);
    assert(order.take(i + 1).drop_last() =~= order.take(i));
    assert(order.take(i + 1).last() == order[i]);
}

pub(crate) proof fn lemma_restrict_in(order: Seq<u32>, vars: Seq<u32>, x: u32)
    ensures
        restrict_order(order, vars).contains(x) <==> order.contains(x) && vars.contains(x),
{
    let p = |v: u32| vars.contains(v);
    if restrict_order(order, vars).contains(x) {
        order.lemma_filter_contains_rev(p, x);
        let k = choose|k: int| 0 <= k < order.filter(p).len() && #[trigger] order.filter(p)[k] == x;
        order.lemma_filter_pred(p, k);
    }
    if order.contains(x) && vars.contains(x) {
        let k = choose|k: int| 0 <= k < order.len() && #[trigger] order[k] == x;
        order.lemma_filter_contains(p, k);
    }
}

/// Two assignments differ, by encoding, at some variable of `order`.
pub open spec fn differ(a: Map<u32, Term>, b: Map<u32, Term>, order: Seq<u32>) -> bool {
    exists|l: int| 0 <= l < order.len() && encoding(a[order[l]]@) != encoding(b[order[l]]@)
}

/// The assignments from index `from` on differ pairwise.
pub open spec fn distinct_from(out: Seq<BTreeMap<u32, Term>>, order: Seq<u32>, from: int) -> bool {
    forall|a: int, b: int| from <= a < out.len() && from <= b < out.len() && a != b
        ==> differ(#[trigger] out[a]@, #[trigger] out[b]@, order)
}

/// The worst-case-optimal join: every binding of every variable satisfying all relations.
/// `visits` counts the nodes of the search (saturating at the largest `u64`).
pub fn wco_join(rels: &[Relation], order: &[u32], visits: &mut u64) -> (out: Vec<BTreeMap<u32, Term>>)
    requires
        forall|i: int| 0 <= i < rels@.len() ==> #[trigger] rel_encodable(rels@[i]),
        forall|i: int| 0 <= i < rels@.len() ==> #[trigger] rels@[i].tuples@.len() < usize::MAX,
    ensures
        *old(visits) <= *final(visits),
        order@.no_duplicates() ==> forall|s: int| 0 <= s < out@.len() ==> #[trigger] out@[s]@.dom() == order@.to_set(),
        order@.no_duplicates() ==> forall|s: int| 0 <= s < out@.len() ==> supported(rels@, order@, #[trigger] out@[s]@),
        order@.no_duplicates() && all_constrained(rels@, order@) ==> forall|s: Map<u32, Term>|
            s.dom() == order@.to_set() && #[trigger] supported(rels@, order@, s) ==> covers(out@, order@, s),
        forall|s: int, v: u32| 0 <= s < out@.len() && #[trigger] out@[s]@.contains_key(v) ==> encodable(out@[s]@[v]@),
        order@.no_duplicates() ==> distinct_from(out@, order@, 0),
{
    let mut infos: Vec<RelInfo> = Vec::new();
    let mut i: usize = 0;
    while i < rels.len()
        invariant
            i <= rels@.len(),
            infos@.len() == i,
            forall|k: int| 0 <= k < rels@.len() ==> #[trigger] rel_encodable(rels@[k]),
            forall|k: int| 0 <= k < rels@.len() ==> #[trigger] rels@[k].tuples@.len() < usize::MAX,
            forall|k: int| 0 <= k < i ==> (#[trigger] infos@[k]).wf(),
            forall|k: int| 0 <= k < i ==> index_ok(#[trigger] infos@[k], rels@[k]),
            forall|k: int| 0 <= k < i ==> (#[trigger] infos@[k]).rel_vars@ == restrict_order(order@, rels@[k].vars@),
            forall|k: int| 0 <= k < i ==> idx_shape((#[trigger] infos@[k]).nodes@, rels@[k], infos@[k].rel_vars@)
                && idx_complete(infos@[k].nodes@, rels@[k], infos@[k].rel_vars@, rels@[k].tuples@.len() as int),
        decreases rels.len() - i,
    {
        infos.push(index_relation(&rels[i], order));
        i += 1;
    }
    // For each variable, the relations that constrain it.
    let mut participants: Vec<Vec<usize>> = Vec::new();
    let mut k: usize = 0;
    while k < order.len()
        invariant
            k <= order@.len(),
            participants@.len() == k,
            forall|x: int, y: int| 0 <= x < k && 0 <= y < participants@[x]@.len() ==> #[trigger] participants@[x]@[y] < infos@.len(),
            forall|x: int, r: int| 0 <= x < k && 0 <= r < infos@.len()
                ==> (#[trigger] participants@[x]@.contains(r as usize) <==> infos@[r].rel_vars@.contains(order@[x])),
        decreases order.len() - k,
    {
        let v = order[k];
        let mut parts: Vec<usize> = Vec::new();
        let mut r: usize = 0;
        while r < infos.len()
            invariant
                r <= infos@.len(),
                v == order@[k as int],
                forall|y: int| 0 <= y < parts@.len() ==> #[trigger] parts@[y] < r,
                forall|r2: int| 0 <= r2 < r ==> (parts@.contains(r2 as usize) <==> #[trigger] infos@[r2].rel_vars@.contains(v)),
            decreases infos.len() - r,
        {
            let ghost p0 = parts@;
            if vec_contains(&infos[r].rel_vars, v) {
                parts.push(r);
            }
            proof {
                assert forall|r2: int| 0 <= r2 < r + 1 implies (parts@.contains(r2 as usize) <==> #[trigger] infos@[r2].rel_vars@.contains(v)) by {
                    if parts@.contains(r2 as usize) {
                        let y = choose|y: int| 0 <= y < parts@.len() && #[trigger] parts@[y] == r2 as usize;
                        if y < p0.len() {
                            assert(p0[y] == r2 as usize);
                        }
                    }
                    if r2 < r && p0.contains(r2 as usize) {
                        let y = choose|y: int| 0 <= y < p0.len() && #[trigger] p0[y] == r2 as usize;
                        assert(parts@[y] == r2 as usize);
                    }
                    if r2 == r && infos@[r2].rel_vars@.contains(v) {
                        assert(parts@[parts@.len() - 1] == r);
                    }
                    if r2 == r && parts@.contains(r2 as usize) {
                        let y = choose|y: int| 0 <= y < parts@.len() && #[trigger] parts@[y] == r2 as usize;
                        if y < p0.len() {
                            assert(p0[y] < r);
                        }
                    }
                }
            }
            r += 1;
        }
        let ghost pk = participants@;
        participants.push(parts);
        proof {
            assert forall|x: int, r: int| 0 <= x < k + 1 && 0 <= r < infos@.len()
                implies (#[trigger] participants@[x]@.contains(r as usize) <==> infos@[r].rel_vars@.contains(order@[x])) by {
                if x < k {
                    assert(participants@[x] == pk[x]);
                }
            }
        }
        k += 1;
    }
    let mut out: Vec<BTreeMap<u32, Term>> = Vec::new();
    let mut partial: BTreeMap<u32, Term> = BTreeMap::new();
    let mut cursors: Vec<usize> = Vec::new();
    let mut r: usize = 0;
    while r < infos.len()
        invariant
            r <= infos@.len(),
            cursors@.len() == r,
            forall|x: int| 0 <= x < r ==> #[trigger] cursors@[x] == 0,
        decreases infos.len() - r,
    {
        cursors.push(0);
        r += 1;
    }
    proof {
        assert(partial@.dom() =~= bound_after(order@, 0));
        assert forall|r: int| 0 <= r < infos@.len()
            implies (#[trigger] infos@[r]).nodes@[cursors@[r] as int].path@ == keys_of(partial@, restrict_order(order@.take(0), rels@[r].vars@)) by {
            reveal(Seq::filter);
            assert(order@.take(0) =~= Seq::<u32>::empty());
            assert(index_ok(infos@[r], rels@[r]));
            assert(infos@[r].nodes@[0].path@ =~= Seq::<Seq<u8>>::empty());
            assert(keys_of(partial@, restrict_order(order@.take(0), rels@[r].vars@)) =~= Seq::<Seq<u8>>::empty());
        }
    }
    let ghost p_in = partial@;
    recurse(order, &participants, 0, rels, &infos, &mut cursors, &mut partial, &mut out, visits);
    proof {
        if order@.no_duplicates() && all_constrained(rels@, order@) {
            assert forall|s: Map<u32, Term>| s.dom() == order@.to_set() && #[trigger] supported(rels@, order@, s)
                implies covers(out@, order@, s) by {
                assert(reach(rels@, order@, 0, p_in, s));
            }
        }
    }
    out
}

/// Every variable of `order` is constrained by some relation.
pub open spec fn all_constrained(rels: Seq<Relation>, order: Seq<u32>) -> bool {
    forall|v: u32| #[trigger] order.contains(v) ==> exists|r: int| 0 <= r < rels.len() && #[trigger] rels[r].vars@.contains(v)
}

/// Some output binds every variable of `order` to a value with the encoding `s` gives it.
pub open spec fn covers(out: Seq<BTreeMap<u32, Term>>, order: Seq<u32>, s: Map<u32, Term>) -> bool {
    exists|o: int| 0 <= o < out.len() && #[trigger] agrees(out[o]@, s, order)
}

/// `s` is a full supported assignment that agrees with `partial` on the first `i` variables.
spec fn reach(rels: Seq<Relation>, order: Seq<u32>, i: int, partial: Map<u32, Term>, s: Map<u32, Term>) -> bool {
    &&& s.dom() == order.to_set()
    &&& supported(rels, order, s)
    &&& forall|l: int| 0 <= l < i ==> #[trigger] agrees_at(partial, s, order[l])
}

/// An assignment the search can still reach continues, at every relation that constrains the
/// next variable, into a child keyed with that variable's value.
proof fn lemma_next_child(rels: Seq<Relation>, infos: Seq<RelInfo>, order: Seq<u32>, i: int, p0m: Map<u32, Term>,
    cursors: Seq<usize>, s: Map<u32, Term>, r: int)
    requires
        0 <= i < order.len(),
        0 <= r < rels.len(),
        infos.len() == rels.len(),
        idx_shape(infos[r].nodes@, rels[r], infos[r].rel_vars@),
        idx_complete(infos[r].nodes@, rels[r], infos[r].rel_vars@, rels[r].tuples@.len() as int),
        infos[r].rel_vars@ == restrict_order(order, rels[r].vars@),
        cursors.len() == infos.len(),
        cursors[r] < infos[r].nodes@.len(),
        infos[r].nodes@[cursors[r] as int].path@ == keys_of(p0m, restrict_order(order.take(i), rels[r].vars@)),
        reach(rels, order, i, p0m, s),
        rels[r].vars@.contains(order[i]),
    ensures
        has_child_key(infos[r].nodes@, cursors[r] as int, encoding(s[order[i]]@)),
{
    let rv = restrict_order(order, rels[r].vars@);
    let rf = restrict_order(order.take(i), rels[r].vars@);
    let d = rf.len() as int;
    crate::unijoin::lemma_restrict_prefix(order, rels[r].vars@, i);
    crate::unijoin::lemma_next_var(order, rels[r].vars@, i);
    assert(rv.len() > 0);
    let x = choose|x: int| 0 <= x < rels[r].tuples@.len() && #[trigger] agrees(rels[r].tuples@[x]@, s, rv);
    let tx = rels[r].tuples@[x]@;
    assert(agrees(tx, s, rv));
    assert forall|l: int| 0 <= l < d + 1 implies tx.contains_key(#[trigger] rv[l]) by {
        assert(agrees_at(tx, s, rv[l]));
    }
    assert(rv.take(d) == rf);
    assert(keys_of(p0m, rf) =~= keys_of(tx, rv.take(d))) by {
        assert forall|l: int| 0 <= l < d implies #[trigger] keys_of(p0m, rf)[l] == keys_of(tx, rv.take(d))[l] by {
            let u = rf[l];
            assert(rv[l] == u);
            assert(agrees_at(tx, s, rv[l]));
            assert(rf.contains(u));
            lemma_restrict_in(order.take(i), rels[r].vars@, u);
            let l2 = choose|l2: int| 0 <= l2 < order.take(i).len() && order.take(i)[l2] == u;
            assert(order[l2] == u);
            assert(agrees_at(p0m, s, order[l2]));
        }
    }
    let nodes = infos[r].nodes@;
    let n = cursors[r] as int;
    assert(runs_through(nodes, n, tx, rv));
    assert(has_child_key(nodes, n, encoding(tx[rv[d]]@)));
    assert(agrees_at(tx, s, rv[d]));
}

fn recurse(
    order: &[u32],
    participants: &Vec<Vec<usize>>,
    i: usize,
    rels: &[Relation],
    infos: &Vec<RelInfo>,
    cursors: &mut Vec<usize>,
    partial: &mut BTreeMap<u32, Term>,
    out: &mut Vec<BTreeMap<u32, Term>>,
    visits: &mut u64,
)
    requires
        i <= order@.len(),
        participants@.len() == order@.len(),
        forall|x: int, y: int| 0 <= x < participants@.len() && 0 <= y < participants@[x]@.len() ==> #[trigger] participants@[x]@[y] < infos@.len(),
        forall|x: int, r: int| 0 <= x < order@.len() && 0 <= r < infos@.len()
            ==> (#[trigger] participants@[x]@.contains(r as usize) <==> infos@[r].rel_vars@.contains(order@[x])),
        forall|r: int| 0 <= r < infos@.len() ==> (#[trigger] infos@[r]).wf(),
        infos@.len() == rels@.len(),
        forall|r: int| 0 <= r < infos@.len() ==> index_ok(#[trigger] infos@[r], rels@[r]),
        forall|r: int| 0 <= r < infos@.len() ==> (#[trigger] infos@[r]).rel_vars@ == restrict_order(order@, rels@[r].vars@),
        old(cursors)@.len() == infos@.len(),
        forall|r: int| 0 <= r < infos@.len() ==> #[trigger] old(cursors)@[r] < infos@[r].nodes@.len(),
        order@.no_duplicates() ==> old(partial)@.dom() == bound_after(order@, i as int),
        order@.no_duplicates() ==> forall|r: int| 0 <= r < infos@.len()
            ==> (#[trigger] infos@[r]).nodes@[old(cursors)@[r] as int].path@ == keys_of(old(partial)@, restrict_order(order@.take(i as int), rels@[r].vars@)),
        order@.no_duplicates() ==> forall|s: int| 0 <= s < old(out)@.len() ==> #[trigger] old(out)@[s]@.dom() == order@.to_set(),
        order@.no_duplicates() ==> forall|s: int| 0 <= s < old(out)@.len() ==> supported(rels@, order@, #[trigger] old(out)@[s]@),
        forall|r: int| 0 <= r < infos@.len() ==> idx_shape((#[trigger] infos@[r]).nodes@, rels@[r], infos@[r].rel_vars@)
            && idx_complete(infos@[r].nodes@, rels@[r], infos@[r].rel_vars@, rels@[r].tuples@.len() as int),
        forall|v: u32| #[trigger] old(partial)@.contains_key(v) ==> encodable(old(partial)@[v]@),
        forall|s: int, v: u32| 0 <= s < old(out)@.len() && #[trigger] old(out)@[s]@.contains_key(v) ==> encodable(old(out)@[s]@[v]@),
    ensures
        forall|s: int, v: u32| 0 <= s < final(out)@.len() && #[trigger] final(out)@[s]@.contains_key(v) ==> encodable(final(out)@[s]@[v]@),
        forall|v: u32| #[trigger] final(partial)@.contains_key(v) ==> encodable(final(partial)@[v]@),
        final(cursors)@ == old(cursors)@,
        order@.no_duplicates() ==> final(partial)@ == old(partial)@,
        order@.no_duplicates() ==> forall|s: int| 0 <= s < final(out)@.len() ==> #[trigger] final(out)@[s]@.dom() == order@.to_set(),
        order@.no_duplicates() ==> forall|s: int| 0 <= s < final(out)@.len() ==> supported(rels@, order@, #[trigger] final(out)@[s]@),
        *old(visits) <= *final(visits),
        final(out)@.len() >= old(out)@.len(),
        forall|o: int| 0 <= o < old(out)@.len() ==> #[trigger] final(out)@[o] == old(out)@[o],
        order@.no_duplicates() && all_constrained(rels@, order@) ==> forall|s: Map<u32, Term>|
            #[trigger] reach(rels@, order@, i as int, old(partial)@, s) ==> covers(final(out)@, order@, s),
        order@.no_duplicates() ==> forall|o: int, l: int| old(out)@.len() <= o < final(out)@.len() && 0 <= l < i
            ==> #[trigger] final(out)@[o]@[order@[l]] == old(partial)@[order@[l]],
        order@.no_duplicates() ==> distinct_from(final(out)@, order@, old(out)@.len() as int),
    decreases order@.len() - i,
{
    *visits = visits.saturating_add(1);
    if i == order.len() {
        proof {
            assert(order@.take(i as int) =~= order@);
        }
        let snapshot = partial.clone();
        proof {
            if order@.no_duplicates() {
                assert forall|r: int| 0 <= r < rels@.len() && restrict_order(order@, rels@[r].vars@).len() > 0
                    implies exists|x: int| 0 <= x < rels@[r].tuples@.len()
                        && #[trigger] agrees(rels@[r].tuples@[x]@, partial@, restrict_order(order@, rels@[r].vars@)) by {
                    let rv = restrict_order(order@, rels@[r].vars@);
                    let nd = infos@[r].nodes@[cursors@[r] as int];
                    assert(index_ok(infos@[r], rels@[r]));
                    assert(node_ok(nd, rels@[r], infos@[r].rel_vars@));
                    assert(nd.path@ == keys_of(partial@, rv));
                    let x = nd.wit@;
                    assert(nd.path@.len() == rv.len());
                    assert(nd.path@.len() >= 1);
                    assert(0 <= x < rels@[r].tuples@.len());
                    assert(agrees_keys(rels@[r].tuples@[x]@, infos@[r].rel_vars@, nd.path@));
                    assert forall|l: int| 0 <= l < rv.len() implies #[trigger] partial@.contains_key(rv[l]) by {
                        lemma_restrict_in(order@, rels@[r].vars@, rv[l]);
                        assert(rv.contains(rv[l]));
                        assert(order@.to_set().contains(rv[l]));
                        assert(order@.take(i as int).to_set().contains(rv[l]));
                    }
                    lemma_agrees_from_path(rels@[r].tuples@[x]@, partial@, rv, nd.path@);
                    assert(agrees(rels@[r].tuples@[x]@, partial@, rv));
                }
            }
        }
        let ghost out0 = out@;
        let ghost pm = partial@;
        out.push(snapshot);
        proof {
            assert(out@[out0.len() as int]@ == pm);
            assert forall|s: Map<u32, Term>| #[trigger] reach(rels@, order@, i as int, pm, s) implies covers(out@, order@, s) by {
                assert(out@[out0.len() as int]@ == pm);
                assert(agrees(out@[out0.len() as int]@, s, order@));
            }
        }
        return;
    }
    let parts = &participants[i];
    if parts.len() == 0 {
        // a variable no relation constrains has no binding
        proof {
            if all_constrained(rels@, order@) {
                let r = choose|r: int| 0 <= r < rels@.len() && #[trigger] rels@[r].vars@.contains(order@[i as int]);
                lemma_restrict_in(order@, rels@[r].vars@, order@[i as int]);
                assert(order@.contains(order@[i as int]));
                assert(participants@[i as int]@.contains(r as usize));
            }
        }
        return;
    }
    // Drive the smallest participating cursor; keep keys present in every participant.
    let mut smallest = parts[0];
    let mut y: usize = 1;
    proof {
        assert(parts@[0] == smallest);
    }
    while y < parts.len()
        invariant
            *parts == participants@[i as int],
            1 <= y <= parts@.len(),
            smallest < infos@.len(),
            parts@.contains(smallest),
            cursors@.len() == infos@.len(),
            forall|r: int| 0 <= r < infos@.len() ==> #[trigger] cursors@[r] < infos@[r].nodes@.len(),
            forall|x: int, z: int| 0 <= x < participants@.len() && 0 <= z < participants@[x]@.len() ==> #[trigger] participants@[x]@[z] < infos@.len(),
            i < participants@.len(),
        decreases parts.len() - y,
    {
        let r = parts[y];
        proof {
            assert(parts@[y as int] == r);
        }
        if infos[r].nodes[cursors[r]].children.len() < infos[smallest].nodes[cursors[smallest]].children.len() {
            smallest = r;
        }
        y += 1;
    }
    let v = order[i];
    let next = i + 1;
    let ghost p0 = partial@.dom();
    let ghost p0m = partial@;
    let ghost c0 = cursors@;
    let lead = cursors[smallest];
    let nkeys = infos[smallest].nodes[lead].children.len();
    let mut kx: usize = 0;
    let ghost out_in = out@;
    proof {
        if order@.no_duplicates() {
            assert(!p0.contains(v)) by {
                if p0.contains(v) {
                    let x = choose|x: int| 0 <= x < i && #[trigger] order@.take(i as int)[x] == v;
                    assert(order@[x] == order@[i as int]);
                }
            }
            assert(partial@.remove(v) =~= p0m);
        }
    }
    while kx < nkeys
        invariant
            kx <= nkeys,
            nkeys == infos@[smallest as int].nodes@[lead as int].children@.len(),
            smallest < infos@.len(),
            lead < infos@[smallest as int].nodes@.len(),
            lead == c0[smallest as int],
            *parts == participants@[i as int],
            i < order@.len(),
            next == i + 1,
            v == order@[i as int],
            participants@.len() == order@.len(),
            forall|x: int, z: int| 0 <= x < participants@.len() && 0 <= z < participants@[x]@.len() ==> #[trigger] participants@[x]@[z] < infos@.len(),
            forall|x: int, r: int| 0 <= x < order@.len() && 0 <= r < infos@.len()
                ==> (#[trigger] participants@[x]@.contains(r as usize) <==> infos@[r].rel_vars@.contains(order@[x])),
            forall|r: int| 0 <= r < infos@.len() ==> (#[trigger] infos@[r]).wf(),
            infos@.len() == rels@.len(),
            forall|r: int| 0 <= r < infos@.len() ==> index_ok(#[trigger] infos@[r], rels@[r]),
            forall|r: int| 0 <= r < infos@.len() ==> (#[trigger] infos@[r]).rel_vars@ == restrict_order(order@, rels@[r].vars@),
            cursors@ == c0,
            c0.len() == infos@.len(),
            forall|r: int| 0 <= r < infos@.len() ==> #[trigger] c0[r] < infos@[r].nodes@.len(),
            order@.no_duplicates() ==> partial@.remove(v) == p0m,
            order@.no_duplicates() ==> !p0m.contains_key(v),
            order@.no_duplicates() ==> p0 == p0m.dom(),
            order@.no_duplicates() ==> p0 == bound_after(order@, i as int),
            order@.no_duplicates() ==> forall|r: int| 0 <= r < infos@.len()
                ==> (#[trigger] infos@[r]).nodes@[c0[r] as int].path@ == keys_of(p0m, restrict_order(order@.take(i as int), rels@[r].vars@)),
            order@.no_duplicates() ==> forall|s: int| 0 <= s < out@.len() ==> #[trigger] out@[s]@.dom() == order@.to_set(),
            order@.no_duplicates() ==> forall|s: int| 0 <= s < out@.len() ==> supported(rels@, order@, #[trigger] out@[s]@),
            *old(visits) <= *visits,
            forall|r: int| 0 <= r < infos@.len() ==> idx_shape((#[trigger] infos@[r]).nodes@, rels@[r], infos@[r].rel_vars@)
                && idx_complete(infos@[r].nodes@, rels@[r], infos@[r].rel_vars@, rels@[r].tuples@.len() as int),
            parts@.contains(smallest),
            forall|v2: u32| #[trigger] partial@.contains_key(v2) ==> encodable(partial@[v2]@),
            forall|s: int, v2: u32| 0 <= s < out@.len() && #[trigger] out@[s]@.contains_key(v2) ==> encodable(out@[s]@[v2]@),
            out@.len() >= out_in.len(),
            forall|o: int| 0 <= o < out_in.len() ==> #[trigger] out@[o] == out_in[o],
            order@.no_duplicates() ==> forall|o: int, l: int| out_in.len() <= o < out@.len() && 0 <= l < i
                ==> #[trigger] out@[o]@[order@[l]] == p0m[order@[l]],
            order@.no_duplicates() ==> distinct_from(out@, order@, out_in.len() as int),
            order@.no_duplicates() ==> forall|o: int| #![trigger out@[o]] out_in.len() <= o < out@.len() ==> exists|c: int| 0 <= c < kx
                && encoding(out@[o]@[v]@) == infos@[smallest as int].nodes@[#[trigger] infos@[smallest as int].nodes@[lead as int].children@[c] as int].key@,
            order@.no_duplicates() && all_constrained(rels@, order@) ==> forall|s: Map<u32, Term>|
                #[trigger] reach(rels@, order@, i as int, p0m, s)
                && (exists|c: int| 0 <= c < kx && infos@[smallest as int].nodes@[#[trigger] infos@[smallest as int].nodes@[lead as int].children@[c] as int].key@
                    == encoding(s[v]@))
                ==> covers(out@, order@, s),
        decreases nkeys - kx,
    {
        let ghost outk = out@;
        let kid = infos[smallest].nodes[lead].children[kx];
        let key = &infos[smallest].nodes[kid].key;
        let mut advanced: Vec<usize> = cursors.clone();
        let mut val: Option<Term> = None;
        let mut ok = true;
        let mut y: usize = 0;
        proof {
            assert(parts@.take(0) =~= Seq::<usize>::empty());
        }
        while y < parts.len()
            invariant
                *parts == participants@[i as int],
                i < participants@.len(),
                y <= parts@.len(),
                advanced@.len() == infos@.len(),
                forall|x: int, z: int| 0 <= x < participants@.len() && 0 <= z < participants@[x]@.len() ==> #[trigger] participants@[x]@[z] < infos@.len(),
                forall|r: int| 0 <= r < infos@.len() ==> (#[trigger] infos@[r]).wf(),
                forall|r: int| 0 <= r < infos@.len() ==> #[trigger] advanced@[r] < infos@[r].nodes@.len(),
                cursors@ == c0,
                c0.len() == infos@.len(),
                forall|r: int| 0 <= r < infos@.len() ==> #[trigger] c0[r] < infos@[r].nodes@.len(),
                ok ==> (y > 0 ==> val is Some),
                ok ==> (val matches Some(x) ==> encoding(x@) == key@),
                val matches Some(x) ==> encodable(x@),
                forall|r: int| 0 <= r < infos@.len() && !parts@.take(y as int).contains(r as usize) ==> #[trigger] advanced@[r] == c0[r],
                ok ==> forall|r: int| 0 <= r < infos@.len() && parts@.take(y as int).contains(r as usize)
                    ==> child_of(infos@[r], c0[r] as int, #[trigger] advanced@[r] as int) && infos@[r].nodes@[advanced@[r] as int].key@ == key@,
                forall|r: int| 0 <= r < infos@.len() ==> index_ok(#[trigger] infos@[r], rels@[r]),
                infos@.len() == rels@.len(),
                !ok ==> exists|r: int| 0 <= r < infos@.len() && parts@.contains(r as usize)
                    && !has_child_key(infos@[r].nodes@, c0[r] as int, key@),
            ensures
                ok ==> y == parts@.len(),
                !ok ==> exists|r: int| 0 <= r < infos@.len() && parts@.contains(r as usize)
                    && !has_child_key(infos@[r].nodes@, c0[r] as int, key@),
            decreases parts.len() - y,
        {
            let r = parts[y];
            let node = cursors[r];
            let mut hit: Option<usize> = None;
            let mut c: usize = 0;
            while c < infos[r].nodes[node].children.len()
                invariant_except_break
                    hit is None,
                invariant
                    r < infos@.len(),
                    node < infos@[r as int].nodes@.len(),
                    infos@[r as int].wf(),
                    c <= infos@[r as int].nodes@[node as int].children@.len(),
                    forall|z: int| 0 <= z < c ==> infos@[r as int].nodes@[#[trigger] infos@[r as int].nodes@[node as int].children@[z] as int].key@ != key@,
                ensures
                    hit matches Some(h) ==> h < infos@[r as int].nodes@.len()
                        && child_of(infos@[r as int], node as int, h as int)
                        && infos@[r as int].nodes@[h as int].key@ == key@,
                    hit is None ==> !has_child_key(infos@[r as int].nodes@, node as int, key@),
                decreases infos@[r as int].nodes@[node as int].children@.len() - c,
            {
                let ch = infos[r].nodes[node].children[c];
                if bytes_eq(&infos[r].nodes[ch].key, key) {
                    hit = Some(ch);
                    proof {
                        assert(infos@[r as int].nodes@[node as int].children@[c as int] == ch);
                    }
                    break;
                }
                c += 1;
            }
            let ghost a0 = advanced@;
            match hit {
                Some(h) => {
                    proof {
                        let ri = infos@[r as int];
                        assert(index_ok(ri, rels@[r as int]));
                        let cc = choose|cc: int| 0 <= cc < ri.nodes@[node as int].children@.len() && #[trigger] ri.nodes@[node as int].children@[cc] == h;
                        assert(ri.nodes@[h as int].path@ == ri.nodes@[node as int].path@.push(ri.nodes@[h as int].key@));
                        assert(node_ok(ri.nodes@[h as int], rels@[r as int], ri.rel_vars@));
                    }
                    if val.is_none() {
                        val = Some(infos[r].nodes[h].val.clone());
                    }
                    advanced.set(r, h);
                }
                None => {
                    ok = false;
                    proof {
                        assert(parts@[y as int] == r);
                        assert(node == c0[r as int]);
                    }
                    break;
                }
            }
            proof {
                assert(parts@.take(y + 1) =~= parts@.take(y as int).push(r));
                assert(parts@.take(y + 1)[y as int] == r);
                assert forall|r2: int| 0 <= r2 < infos@.len() && !parts@.take(y + 1).contains(r2 as usize) implies #[trigger] advanced@[r2] == c0[r2] by {
                    assert(!parts@.take(y as int).contains(r2 as usize)) by {
                        if parts@.take(y as int).contains(r2 as usize) {
                            let z = choose|z: int| 0 <= z < parts@.take(y as int).len() && #[trigger] parts@.take(y as int)[z] == r2 as usize;
                            assert(parts@.take(y + 1)[z] == r2 as usize);
                        }
                    }
                    assert(r2 != r);
                }
                if ok {
                    assert forall|r2: int| 0 <= r2 < infos@.len() && parts@.take(y + 1).contains(r2 as usize)
                        implies child_of(infos@[r2], c0[r2] as int, #[trigger] advanced@[r2] as int) && infos@[r2].nodes@[advanced@[r2] as int].key@ == key@ by {
                        if r2 != r {
                            assert(infos@.len() == infos.len());
                            assert((r2 as usize) as int == r2);
                            let z = choose|z: int| 0 <= z < parts@.take(y + 1).len() && #[trigger] parts@.take(y + 1)[z] == r2 as usize;
                            assert(z < y);
                            assert(parts@.take(y as int)[z] == r2 as usize);
                            assert(parts@.take(y as int).contains(r2 as usize));
                        }
                    }
                }
            }
            y += 1;
        }
        if ok {
            match val {
                Some(value) => {
                    let saved = cursors.clone();
                    *cursors = advanced;
                    let ghost pm = partial@;
                    partial.insert(v, value);
                    proof {
                        if order@.no_duplicates() {
                            assert(parts@.take(parts@.len() as int) =~= parts@);
                            assert(partial@ =~= p0m.insert(v, value)) by {
                                assert(pm.remove(v) == p0m);
                            }
                            assert(partial@.dom() =~= p0.insert(v));
                            assert(order@.take(i + 1) =~= order@.take(i as int).push(v));
                            order@.take(i as int).lemma_push_to_set_commute(v);
                            assert(p0.insert(v) =~= bound_after(order@, i + 1));
                            assert forall|r: int| 0 <= r < infos@.len()
                                implies (#[trigger] infos@[r]).nodes@[cursors@[r] as int].path@ == keys_of(partial@, restrict_order(order@.take(i + 1), rels@[r].vars@)) by {
                                let rp = restrict_order(order@.take(i as int), rels@[r].vars@);
                                lemma_restrict_step(order@, rels@[r].vars@, i as int);
                                lemma_restrict_in(order@, rels@[r].vars@, v);
                                assert(order@.contains(v)) by {
                                    assert(order@[i as int] == v);
                                }
                                assert(!rp.contains(v)) by {
                                    lemma_restrict_in(order@.take(i as int), rels@[r].vars@, v);
                                    assert(!p0.contains(v));
                                    if order@.take(i as int).contains(v) {
                                        let x = choose|x: int| 0 <= x < order@.take(i as int).len() && #[trigger] order@.take(i as int)[x] == v;
                                        assert(order@.take(i as int).to_set().contains(v));
                                    }
                                }
                                assert(keys_of(partial@, rp) =~= keys_of(p0m, rp)) by {
                                    assert forall|l: int| 0 <= l < rp.len() implies #[trigger] keys_of(partial@, rp)[l] == keys_of(p0m, rp)[l] by {
                                        assert(rp[l] != v) by {
                                            assert(rp.contains(rp[l]));
                                        }
                                    }
                                }
                                if rels@[r].vars@.contains(v) {
                                    assert(infos@[r].rel_vars@.contains(v));
                                    assert(participants@[i as int]@.contains(r as usize));
                                    assert(parts@.take(parts@.len() as int).contains(r as usize));
                                    let ri = infos@[r];
                                    let h = cursors@[r] as int;
                                    assert(child_of(ri, c0[r] as int, h));
                                    let cc = choose|cc: int| 0 <= cc < ri.nodes@[c0[r] as int].children@.len() && #[trigger] ri.nodes@[c0[r] as int].children@[cc] == h;
                                    assert(ri.nodes@[h].path@ == ri.nodes@[c0[r] as int].path@.push(ri.nodes@[h].key@));
                                    assert(keys_of(partial@, rp.push(v)) =~= keys_of(partial@, rp).push(encoding(partial@[v]@)));
                                } else {
                                    assert(!infos@[r].rel_vars@.contains(v));
                                    assert(!participants@[i as int]@.contains(r as usize));
                                    assert(!parts@.take(parts@.len() as int).contains(r as usize));
                                    assert(cursors@[r] == c0[r]);
                                }
                            }
                        }
                    }
                    let ghost pins = partial@;
                    let ghost outr = out@;
                    recurse(order, participants, next, rels, infos, cursors, partial, out, visits);
                    *cursors = saved;
                    proof {
                        if order@.no_duplicates() {
                            assert(partial@.remove(v) =~= p0m);
                            assert(outr == outk);
                            assert(pins == pm.insert(v, value));
                            assert(encoding(value@) == key@);
                            let ri = infos@[smallest as int];
                            let kids = ri.nodes@[lead as int].children@;
                            assert(kids[kx as int] == kid);
                            assert forall|o: int, l: int| out_in.len() <= o < out@.len() && 0 <= l < i
                                implies #[trigger] out@[o]@[order@[l]] == p0m[order@[l]] by {
                                if o < outk.len() {
                                    assert(out@[o] == outk[o]);
                                } else {
                                    assert(out@[o]@[order@[l]] == pins[order@[l]]);
                                    assert(order@[l] != v);
                                    assert(order@.take(i as int)[l] == order@[l]);
                                    assert(p0m.dom().contains(order@[l]));
                                }
                            }
                            assert forall|o: int| #![trigger out@[o]] out_in.len() <= o < out@.len() implies exists|c: int| 0 <= c < kx + 1
                                && encoding(out@[o]@[v]@) == ri.nodes@[#[trigger] kids[c] as int].key@ by {
                                if o < outk.len() {
                                    assert(out@[o] == outk[o]);
                                    let c = choose|c: int| 0 <= c < kx
                                        && encoding(outk[o]@[v]@) == ri.nodes@[#[trigger] kids[c] as int].key@;
                                    assert(0 <= c < kx + 1);
                                } else {
                                    assert(out@[o]@[order@[i as int]] == pins[order@[i as int]]);
                                    assert(out@[o]@[v] == value);
                                }
                            }
                            assert forall|a: int, b: int| out_in.len() <= a < out@.len() && out_in.len() <= b < out@.len() && a != b
                                implies differ(#[trigger] out@[a]@, #[trigger] out@[b]@, order@) by {
                                if a < outk.len() && b < outk.len() {
                                    assert(out@[a] == outk[a] && out@[b] == outk[b]);
                                    assert(differ(outk[a]@, outk[b]@, order@));
                                } else if a >= outk.len() && b >= outk.len() {
                                } else {
                                    let (x, y) = if a < outk.len() { (a, b) } else { (b, a) };
                                    assert(out@[x] == outk[x]);
                                    let c = choose|c: int| 0 <= c < kx
                                        && encoding(outk[x]@[v]@) == ri.nodes@[#[trigger] kids[c] as int].key@;
                                    assert(out@[y]@[order@[i as int]] == pins[order@[i as int]]);
                                    assert(out@[y]@[v] == value);
                                    assert(idx_shape(ri.nodes@, rels@[smallest as int], ri.rel_vars@));
                                    assert(bytes_lt(ri.nodes@[kids[c] as int].key@, ri.nodes@[kids[kx as int] as int].key@));
                                    lemma_bytes_lt_irrefl(ri.nodes@[kids[c] as int].key@);
                                    assert(encoding(out@[x]@[order@[i as int]]@) != encoding(out@[y]@[order@[i as int]]@));
                                    assert(differ(out@[x]@, out@[y]@, order@));
                                }
                            }
                        }
                        if order@.no_duplicates() && all_constrained(rels@, order@) {
                            assert forall|s: Map<u32, Term>| reach(rels@, order@, i as int, p0m, s) && encoding(s[v]@) == key@
                                implies covers(out@, order@, s) by {
                                assert forall|l: int| 0 <= l < i + 1 implies #[trigger] agrees_at(pins, s, order@[l]) by {
                                    if l < i {
                                        assert(agrees_at(p0m, s, order@[l]));
                                        assert(order@[l] != v);
                                    } else {
                                        assert(s.dom().contains(v)) by {
                                            assert(order@.to_set().contains(order@[i as int]));
                                        }
                                    }
                                }
                                assert(reach(rels@, order@, i + 1, pins, s));
                            }
                        }
                    }
                }
                None => {
                    proof {
                        assert(parts@.len() > 0);
                    }
                }
            }
        }
        proof {
            if order@.no_duplicates() && all_constrained(rels@, order@) {
                assert forall|s: Map<u32, Term>| reach(rels@, order@, i as int, p0m, s) && encoding(s[v]@) == key@
                    implies covers(out@, order@, s) by {
                    if !ok {
                        let r = choose|r: int| 0 <= r < infos@.len() && parts@.contains(r as usize)
                            && !has_child_key(infos@[r].nodes@, c0[r] as int, key@);
                        assert(participants@[i as int]@.contains(r as usize));
                        assert(infos@[r].rel_vars@.contains(v));
                        lemma_restrict_in(order@, rels@[r].vars@, v);
                        assert(idx_shape(infos@[r].nodes@, rels@[r], infos@[r].rel_vars@));
                        lemma_next_child(rels@, infos@, order@, i as int, p0m, c0, s, r);
                    }
                }
                assert forall|s: Map<u32, Term>| #[trigger] reach(rels@, order@, i as int, p0m, s)
                    && (exists|c: int| 0 <= c < kx + 1 && infos@[smallest as int].nodes@[#[trigger] infos@[smallest as int].nodes@[lead as int].children@[c] as int].key@
                        == encoding(s[v]@))
                    implies covers(out@, order@, s) by {
                    let c = choose|c: int| 0 <= c < kx + 1 && infos@[smallest as int].nodes@[#[trigger] infos@[smallest as int].nodes@[lead as int].children@[c] as int].key@
                        == encoding(s[v]@);
                    if c < kx {
                        assert(covers(outk, order@, s));
                        let o = choose|o: int| 0 <= o < outk.len() && #[trigger] agrees(outk[o]@, s, order@);
                        assert(out@[o] == outk[o]);
                    } else {
                        assert(infos@[smallest as int].nodes@[lead as int].children@[c] == kid);
                    }
                }
            }
        }
        proof {
            if order@.no_duplicates() && out@ == outk {
                assert forall|o: int| #![trigger out@[o]] out_in.len() <= o < out@.len() implies exists|c: int| 0 <= c < kx + 1
                    && encoding(out@[o]@[v]@) == infos@[smallest as int].nodes@[#[trigger] infos@[smallest as int].nodes@[lead as int].children@[c] as int].key@ by {
                    let c = choose|c: int| 0 <= c < kx
                        && encoding(outk[o]@[v]@) == infos@[smallest as int].nodes@[#[trigger] infos@[smallest as int].nodes@[lead as int].children@[c] as int].key@;
                    assert(0 <= c < kx + 1);
                }
            }
        }
        kx += 1;
    }
    proof {
        if order@.no_duplicates() && all_constrained(rels@, order@) {
            assert forall|s: Map<u32, Term>| #[trigger] reach(rels@, order@, i as int, p0m, s) implies covers(out@, order@, s) by {
                let r = smallest as int;
                assert(participants@[i as int]@.contains(smallest));
                assert(participants@[i as int]@.contains(r as usize));
                assert(infos@[r].rel_vars@.contains(v));
                lemma_restrict_in(order@, rels@[r].vars@, v);
                assert(idx_shape(infos@[r].nodes@, rels@[r], infos@[r].rel_vars@));
                lemma_next_child(rels@, infos@, order@, i as int, p0m, c0, s, r);
                let c = choose|c: int| 0 <= c < infos@[r].nodes@[c0[r] as int].children@.len()
                    && infos@[r].nodes@[#[trigger] infos@[r].nodes@[c0[r] as int].children@[c] as int].key@ == encoding(s[v]@);
                assert(0 <= c < kx);
            }
        }
    }
    partial.remove(&v);
    proof {
        if order@.no_duplicates() {
            assert(partial@ =~= p0m);
        }
    }
}

} // verus!
