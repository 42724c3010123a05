//! The unification-aware join, executed lazily over a byte-trie with no materialized
//! per-pattern domain: a trie descent carrying full two-sided unification, so a data-side
//! variable in a stored fact captures a query subterm.
//!
//! Each query factor is matched against the trie by descending the index, unifying the query
//! against the stored term and threading one backtrackable substitution (substitution-tree
//! retrieval; the read-mode `unify_variable` / `unify_value` split). A stored wildcard byte is
//! a data variable that captures; the occurs check happens when the binding is made
//! (`Env::unify`); the conjunction shares the substitution, so a capture forced at one factor
//! propagates to the others.
//!
//! The descent is written as a recursion over an explicit stack of pending argument lists
//! (what remains of the enclosing compound patterns), and the stored subterms at a node are
//! read into a list of alternatives, each with the node after it and the stored-variable slots
//! it introduced.

use vstd::prelude::*;
use std::collections::BTreeSet;
use crate::term::{Term, TermV, views, lemma_view_app, collect, collect_seq, enc, enc_seq, shape_ok, lemma_shape_all, ground, lemma_ground_all, encoding, encodable};
use crate::trie::{ByteTrie, TrieZipper, TOP2, TAG_ARITY, TAG_VARREF, NEWVAR_BYTE, LOW6, lemma_header_bits};
use crate::unify::{Env, extends, law_rollback_restores};
use crate::subst::{subst, instance_of, vimg, lemma_subst_noop, lemma_fv_subst, lemma_subst_app, lemma_instance_absorbs};
use crate::term::{fv, fv_all, lemma_fv_all, lemma_ground_fv, lemma_not_ground_fv};
use crate::oracle::{Conj, answer_tuple, to_key_set, has_key, key_of, tuple_of, var_tuple, lemma_tuple_of};
use crate::text::{string_bytes, string_from_utf8};
use vstd::utf8::encode_utf8;

verus! {

/// The tag of a symbol header byte.
pub const TAG_SYMSIZE: u8 = 0xC0u8;

/// One way to read a complete stored subterm: the term (stored variables named by the fact's
/// slots), the node after its last byte, the slots afterwards (a `NewVar` adds one), and the
/// next free stored-variable id.
struct Reading {
    term: Term,
    end: usize,
    slots: Vec<u32>,
    fresh: u32,
}

/// A reading starting at `node` with `fresh` ends further down and uses at most one id per byte.
spec fn reading_bounds(r: Reading, node: int, fresh: int, size: int) -> bool {
    &&& node < r.end < size
    &&& fresh <= r.fresh <= fresh + (r.end - node)
}

/// The slots after a subterm whose `k` new variables were given `fresh`, `fresh + 1`, ...
spec fn with_new(slots: Seq<u32>, fresh: int, k: nat) -> Seq<u32> {
    slots + Seq::new(k, |i: int| (fresh + i) as u32)
}

/// The slots are distinct and below the next free id.
spec fn slots_ok(slots: Seq<u32>, fresh: int) -> bool {
    &&& slots.no_duplicates()
    &&& forall|i: int| 0 <= i < slots.len() ==> slots[i] < fresh
}

/// `t` refers to the earlier variables by `slots` and names its new ones, in order of first
/// occurrence, `fresh`, `fresh + 1`, ...; with at most 64 variables in all, whose ids fit.
spec fn named(t: TermV, slots: Seq<u32>, fresh: int) -> bool {
    let c = collect(t, slots);
    &&& c == with_new(slots, fresh, (c.len() - slots.len()) as nat)
    &&& c.len() <= 64
    &&& fresh + (c.len() - slots.len()) <= u32::MAX
}

/// `named` for a list of subterms read in turn.
spec fn named_seq(ts: Seq<TermV>, slots: Seq<u32>, fresh: int) -> bool {
    let c = collect_seq(ts, slots);
    &&& c == with_new(slots, fresh, (c.len() - slots.len()) as nat)
    &&& c.len() <= 64
    &&& fresh + (c.len() - slots.len()) <= u32::MAX
}

/// A well-shaped subterm, named from the slots, stored from `node` along its encoding.
spec fn readable(trie: ByteTrie, node: int, t: TermV, slots: Seq<u32>, fresh: int) -> bool {
    &&& shape_ok(t)
    &&& named(t, slots, fresh)
    &&& trie.walk_from(node, enc(t, slots)) is Some
}

/// A list of well-shaped subterms, named from the slots, stored in turn from `node`.
spec fn readable_seq(trie: ByteTrie, node: int, ts: Seq<TermV>, slots: Seq<u32>, fresh: int) -> bool {
    &&& forall|i: int| 0 <= i < ts.len() ==> #[trigger] shape_ok(ts[i])
    &&& named_seq(ts, slots, fresh)
    &&& trie.walk_from(node, enc_seq(ts, slots)) is Some
}

/// `r` reads `t`: it ends where `t`'s encoding leads, with `t`'s slots and next free id.
spec fn got(r: Reading, trie: ByteTrie, node: int, t: TermV, slots: Seq<u32>, fresh: int) -> bool {
    &&& r.term@ == t
    &&& trie.walk_from(node, enc(t, slots)) == Some(r.end as int)
    &&& r.slots@ == collect(t, slots)
    &&& r.fresh == fresh + (collect(t, slots).len() - slots.len())
}

/// `e` reads the list `ts`.
spec fn got_seq(e: (Vec<Term>, usize, Vec<u32>, u32), trie: ByteTrie, node: int, ts: Seq<TermV>, slots: Seq<u32>, fresh: int) -> bool {
    &&& views(e.0@) == ts
    &&& trie.walk_from(node, enc_seq(ts, slots)) == Some(e.1 as int)
    &&& e.2@ == collect_seq(ts, slots)
    &&& e.3 == fresh + (collect_seq(ts, slots).len() - slots.len())
}

/// `r` reads a well-shaped term stored at `node`: its own term, whose new variables are named
/// `fresh`, `fresh + 1`, ... in order of first occurrence.
spec fn sound(r: Reading, trie: ByteTrie, node: int, slots: Seq<u32>, fresh: int) -> bool {
    let c = collect(r.term@, slots);
    &&& shape_ok(r.term@)
    &&& c == with_new(slots, fresh, (c.len() - slots.len()) as nat)
    &&& got(r, trie, node, r.term@, slots, fresh)
}

/// `e` reads a list of well-shaped terms stored in turn from `node`, its new variables named
/// in order from `fresh`.
spec fn sound_seq(e: (Vec<Term>, usize, Vec<u32>, u32), trie: ByteTrie, node: int, slots: Seq<u32>, fresh: int) -> bool {
    let ts = views(e.0@);
    let c = collect_seq(ts, slots);
    &&& forall|i: int| 0 <= i < ts.len() ==> #[trigger] shape_ok(ts[i])
    &&& c == with_new(slots, fresh, (c.len() - slots.len()) as nat)
    &&& got_seq(e, trie, node, ts, slots, fresh)
}

/// A subterm read at `node` followed by a list read after it is a list read at `node`.
proof fn lemma_sound_cons(
    r: Reading,
    e: (Vec<Term>, usize, Vec<u32>, u32),
    out: (Vec<Term>, usize, Vec<u32>, u32),
    trie: ByteTrie,
    node: int,
    slots: Seq<u32>,
    fresh: int,
)
    requires
        sound(r, trie, node, slots, fresh),
        sound_seq(e, trie, r.end as int, r.slots@, r.fresh as int),
        views(out.0@) == seq![r.term@] + views(e.0@),
        out.1 == e.1,
        out.2@ == e.2@,
        out.3 == e.3,
    ensures
        sound_seq(out, trie, node, slots, fresh),
{
    let ts = views(out.0@);
    let t0 = r.term@;
    let rest = views(e.0@);
    let c0 = collect(t0, slots);
    let k0 = (c0.len() - slots.len()) as nat;
    let c1 = collect_seq(rest, c0);
    let k1 = (c1.len() - c0.len()) as nat;
    assert(ts.subrange(1, ts.len() as int) =~= rest);
    assert(ts[0] == t0);
    assert(collect_seq(ts, slots) == c1);
    assert(enc_seq(ts, slots) == enc(t0, slots) + enc_seq(rest, c0));
    trie.lemma_walk_append(node, enc(t0, slots), enc_seq(rest, c0));
    assert(c1 =~= with_new(slots, fresh, k0 + k1)) by {
        assert forall|i: int| 0 <= i < c1.len() implies c1[i] == with_new(slots, fresh, k0 + k1)[i] by {
            if i < c0.len() {
                assert(c1[i] == c0[i]);
            }
        }
    }
    assert forall|i: int| 0 <= i < ts.len() implies #[trigger] shape_ok(ts[i]) by {
        if i > 0 {
            assert(ts[i] == rest[i - 1]);
        }
    }
}

/// A compound header byte `b` from `node` to `child`, followed by a list of `b` subterms read
/// at `child`, reads the compound at `node`.
proof fn lemma_sound_app(
    e: (Vec<Term>, usize, Vec<u32>, u32),
    r: Reading,
    trie: ByteTrie,
    node: int,
    b: u8,
    child: int,
    slots: Seq<u32>,
    fresh: int,
)
    requires
        sound_seq(e, trie, child, slots, fresh),
        views(e.0@).len() == b as nat,
        b < 0x40u8,
        trie.step_to(node, b) == Some(child),
        r.term@ == TermV::App(views(e.0@)),
        r.end == e.1,
        r.slots@ == e.2@,
        r.fresh == e.3,
    ensures
        sound(r, trie, node, slots, fresh),
{
    let a = views(e.0@);
    assert(enc(r.term@, slots) == seq![a.len() as u8] + enc_seq(a, slots));
    trie.lemma_walk_cons(node, b, enc_seq(a, slots));
    lemma_shape_all(a, a.len());
}

/// The first subterm of a named list is named from the slots, and the rest from the slots after it.
proof fn lemma_named_split(ts: Seq<TermV>, slots: Seq<u32>, fresh: int)
    requires
        ts.len() > 0,
        named_seq(ts, slots, fresh),
    ensures
        named(ts[0], slots, fresh),
        named_seq(ts.subrange(1, ts.len() as int), collect(ts[0], slots), fresh + (collect(ts[0], slots).len() - slots.len())),
        collect_seq(ts, slots) == collect_seq(ts.subrange(1, ts.len() as int), collect(ts[0], slots)),
        enc_seq(ts, slots) == enc(ts[0], slots) + enc_seq(ts.subrange(1, ts.len() as int), collect(ts[0], slots)),
{
    let rest = ts.subrange(1, ts.len() as int);
    let c0 = collect(ts[0], slots);
    let c = collect_seq(ts, slots);
    crate::term::lemma_collect(ts[0], slots);
    crate::term::lemma_collect_seq(rest, c0);
    assert(c == collect_seq(rest, c0));
    let k0 = (c0.len() - slots.len()) as nat;
    let k = (c.len() - slots.len()) as nat;
    assert(c0 =~= with_new(slots, fresh, k0)) by {
        assert forall|i: int| 0 <= i < c0.len() implies c0[i] == with_new(slots, fresh, k0)[i] by {
            assert(c.subrange(0, c0.len() as int)[i] == c[i]);
            if i < slots.len() {
                assert(c0.subrange(0, slots.len() as int)[i] == c0[i]);
            }
        }
    }
    assert(c =~= with_new(c0, fresh + k0, (k - k0) as nat)) by {
        assert forall|i: int| 0 <= i < c.len() implies c[i] == with_new(c0, fresh + k0, (k - k0) as nat)[i] by {
            if i < c0.len() {
                assert(c.subrange(0, c0.len() as int)[i] == c[i]);
            }
        }
    }
}

/// Extending distinct slots below `fresh` by new ids from `fresh` keeps them distinct and below
/// the next free id.
proof fn lemma_slots_ext(slots: Seq<u32>, fresh: int, k: nat)
    requires
        slots_ok(slots, fresh),
        fresh + k <= u32::MAX,
        fresh >= 0,
    ensures
        slots_ok(with_new(slots, fresh, k), fresh + k),
{
    let w = with_new(slots, fresh, k);
    assert forall|i: int, j: int| 0 <= i < w.len() && 0 <= j < w.len() && i != j implies w[i] != w[j] by {
        if i < slots.len() && j < slots.len() {
        } else if i < slots.len() {
            assert(slots[i] < fresh);
        } else if j < slots.len() {
            assert(slots[j] < fresh);
        }
    }
}

/// A copy of a list of slots.
fn copy_slots(v: &Vec<u32>) -> (r: Vec<u32>)
    ensures
        r@ == v@,
{
    let mut r: Vec<u32> = Vec::new();
    let mut i: usize = 0;
    while i < v.len()
        invariant
            i <= v@.len(),
            r@ == v@.take(i as int),
        decreases v.len() - i,
    {
        r.push(v[i]);
        proof {
            assert(v@.take(i + 1) =~= v@.take(i as int).push(v@[i as int]));
        }
        i += 1;
    }
    proof {
        assert(v@.take(v@.len() as int) =~= v@);
    }
    r
}

/// A copy of a list of terms.
fn copy_terms(v: &Vec<Term>) -> (r: Vec<Term>)
    ensures
        views(r@) == views(v@),
{
    let mut r: Vec<Term> = Vec::new();
    let mut i: usize = 0;
    while i < v.len()
        invariant
            i <= v@.len(),
            views(r@) == views(v@).take(i as int),
        decreases v.len() - i,
    {
        let ghost r0 = r@;
        let c = v[i].clone();
        r.push(c);
        proof {
            assert(c@ == v@[i as int]@);
            assert(views(r@) =~= views(r0).push(c@));
            assert(views(v@).take(i + 1) =~= views(v@).take(i as int).push(v@[i as int]@));
        }
        i += 1;
    }
    proof {
        assert(views(v@).take(v@.len() as int) =~= views(v@));
    }
    r
}

/// Every complete stored subterm at `node`, in ascending byte order. A `NewVar` allocates a
/// fresh id, a `VarRef` reads an earlier slot (a reference to a slot the path has not
/// introduced, a header byte of the unused class `0x40..0x80`, or a symbol whose bytes are not
/// UTF-8, cannot come from an encoded term and is not read). Every well-shaped term stored at
/// `node` along its encoding, with its variables named from the slots and `fresh`, is among the
/// readings, ending where its encoding leads; and every reading is such a term.
fn read_one_subterm(trie: &ByteTrie, node: usize, slots: &Vec<u32>, fresh: u32) -> (rs: Vec<Reading>)
    requires
        trie.wf(),
        node < trie.size(),
        fresh + (trie.size() - node) <= u32::MAX,
    ensures
        forall|i: int| 0 <= i < rs@.len() ==> reading_bounds(#[trigger] rs@[i], node as int, fresh as int, trie.size() as int),
        slots_ok(slots@, fresh as int) ==> forall|t: TermV| #[trigger] readable(*trie, node as int, t, slots@, fresh as int)
            ==> exists|i: int| 0 <= i < rs@.len() && got(rs@[i], *trie, node as int, t, slots@, fresh as int),
        slots_ok(slots@, fresh as int) ==> forall|i: int| 0 <= i < rs@.len() ==> sound(#[trigger] rs@[i], *trie, node as int, slots@, fresh as int),
        trie.labels(node as int).len() == 0 ==> rs@.len() == 0,
    decreases trie.size() - node, 0int, 0int,
{
    let (labels, kids) = trie.children(node);
    let mut rs: Vec<Reading> = Vec::new();
    let mut c: usize = 0;
    while c < labels.len()
        invariant
            trie.wf(),
            node < trie.size(),
            fresh + (trie.size() - node) <= u32::MAX,
            labels@ == trie.labels(node as int),
            kids@ == trie.kids(node as int),
            labels@.len() == kids@.len(),
            forall|x: int| 0 <= x < kids@.len() ==> node < #[trigger] kids@[x] < trie.size(),
            c <= labels@.len(),
            forall|i: int| 0 <= i < rs@.len() ==> reading_bounds(#[trigger] rs@[i], node as int, fresh as int, trie.size() as int),
            slots_ok(slots@, fresh as int) ==> forall|t: TermV| #[trigger] readable(*trie, node as int, t, slots@, fresh as int)
                && labels@.take(c as int).contains(enc(t, slots@)[0])
                ==> exists|i: int| 0 <= i < rs@.len() && got(rs@[i], *trie, node as int, t, slots@, fresh as int),
            slots_ok(slots@, fresh as int) ==> forall|i: int| 0 <= i < rs@.len() ==> sound(#[trigger] rs@[i], *trie, node as int, slots@, fresh as int),
            c == 0 ==> rs@.len() == 0,
        decreases labels.len() - c,
    {
        let b = labels[c];
        let child = kids[c];
        proof {
            trie.lemma_step_child(node as int, c as int);
        }
        let ghost r0 = rs@;
        let tag = b & TOP2;
        if tag == TAG_ARITY {
            let n = (b & LOW6) as usize;
            proof {
                lemma_header_bits(b);
            }
            let lists = read_n_subterms(trie, child, n, slots, fresh);
            let mut x: usize = 0;
            while x < lists.len()
                invariant
                    node < child < trie.size(),
                    x <= lists@.len(),
                    rs@.len() == r0.len() + x,
                    forall|i: int| 0 <= i < r0.len() ==> #[trigger] rs@[i] == r0[i],
                    forall|i: int| 0 <= i < lists@.len() ==> child <= (#[trigger] lists@[i]).1 < trie.size()
                        && fresh <= lists@[i].3 <= fresh + (lists@[i].1 - child),
                    forall|i: int| 0 <= i < x ==> (#[trigger] rs@[r0.len() + i]).term@ == TermV::App(views(lists@[i].0@))
                        && rs@[r0.len() + i].end == lists@[i].1 && rs@[r0.len() + i].slots@ == lists@[i].2@
                        && rs@[r0.len() + i].fresh == lists@[i].3,
                    forall|i: int| 0 <= i < rs@.len() ==> reading_bounds(#[trigger] rs@[i], node as int, fresh as int, trie.size() as int),
                    b < 0x40u8,
                    n == b,
                    trie.step_to(node as int, b) == Some(child as int),
                    forall|i: int| 0 <= i < lists@.len() ==> views((#[trigger] lists@[i]).0@).len() == n,
                    slots_ok(slots@, fresh as int) ==> forall|i: int| 0 <= i < lists@.len() ==> sound_seq(#[trigger] lists@[i], *trie, child as int, slots@, fresh as int),
                    slots_ok(slots@, fresh as int) ==> forall|i: int| 0 <= i < rs@.len() ==> sound(#[trigger] rs@[i], *trie, node as int, slots@, fresh as int),
                decreases lists.len() - x,
            {
                let ts = copy_terms(&lists[x].0);
                let sl = copy_slots(&lists[x].2);
                let (end, fr) = (lists[x].1, lists[x].3);
                proof {
                    lemma_view_app(ts);
                }
                let ghost rb = rs@;
                rs.push(Reading { term: Term::App(ts), end, slots: sl, fresh: fr });
                proof {
                    if slots_ok(slots@, fresh as int) {
                        lemma_sound_app(lists@[x as int], rs@[rb.len() as int], *trie, node as int, b, child as int, slots@, fresh as int);
                    }
                }
                x += 1;
            }
            proof {
                if slots_ok(slots@, fresh as int) {
                    assert forall|t: TermV| #[trigger] readable(*trie, node as int, t, slots@, fresh as int)
                        && enc(t, slots@)[0] == b
                        implies exists|i: int| 0 <= i < rs@.len() && got(rs@[i], *trie, node as int, t, slots@, fresh as int) by {
                        match t {
                            TermV::App(a) => {
                                let e = enc_seq(a, slots@);
                                assert(enc(t, slots@) == seq![a.len() as u8] + e);
                                lemma_shape_all(a, a.len());
                                lemma_header_bits(b);
                                assert(b == a.len() as u8);
                                assert(n == a.len());
                                trie.lemma_walk_cons(node as int, b, e);
                                assert(collect(t, slots@) == collect_seq(a, slots@));
                                assert(named_seq(a, slots@, fresh as int));
                                assert(trie.walk_from(child as int, e) is Some);
                                assert(readable_seq(*trie, child as int, a, slots@, fresh as int));
                                let x0 = choose|x0: int| 0 <= x0 < lists@.len() && got_seq(lists@[x0], *trie, child as int, a, slots@, fresh as int);
                                assert(got(rs@[r0.len() + x0], *trie, node as int, t, slots@, fresh as int));
                            }
                            TermV::Var(v) => {
                                if slots@.contains(v) {
                                    let i = slots@.index_of(v);
                                    crate::term::lemma_collect(t, slots@);
                                    assert(0 <= i < slots@.len());
                                    lemma_header_bits(b);
                                } else {
                                    lemma_header_bits(b);
                                }
                            }
                            TermV::Sym(sy) => {
                                let l = vstd::utf8::encode_utf8(sy).len();
                                lemma_header_bits(b);
                            }
                        }
                    }
                }
            }
        } else if tag == TAG_VARREF {
            let idx = (b & LOW6) as usize;
            if idx < slots.len() {
                let sl = copy_slots(slots);
                rs.push(Reading { term: Term::Var(slots[idx]), end: child, slots: sl, fresh });
                proof {
                    if slots_ok(slots@, fresh as int) {
                        let v = slots@[idx as int];
                        let t = TermV::Var(v);
                        let j = slots@.index_of(v);
                        assert(slots@.contains(v));
                        assert(0 <= j < slots@.len() && slots@[j] == v);
                        assert(j == idx);
                        lemma_header_bits(b);
                        assert(enc(t, slots@) =~= seq![b]);
                        trie.lemma_walk_cons(node as int, b, Seq::<u8>::empty());
                        trie.lemma_walk_push(child as int, Seq::<u8>::empty(), 0u8);
                        assert(seq![b] + Seq::<u8>::empty() =~= seq![b]);
                        assert(slots@ =~= with_new(slots@, fresh as int, 0));
                        assert(sound(rs@[r0.len() as int], *trie, node as int, slots@, fresh as int));
                    }
                }
            }
            proof {
                if slots_ok(slots@, fresh as int) {
                    assert forall|t: TermV| #[trigger] readable(*trie, node as int, t, slots@, fresh as int)
                        && enc(t, slots@)[0] == b
                        implies exists|i: int| 0 <= i < rs@.len() && got(rs@[i], *trie, node as int, t, slots@, fresh as int) by {
                        match t {
                            TermV::Var(v) => {
                                if slots@.contains(v) {
                                    let i = slots@.index_of(v);
                                    assert(0 <= i < slots@.len() && slots@[i] == v);
                                    crate::term::lemma_collect(t, slots@);
                                    lemma_header_bits(b);
                                    assert(idx == i);
                                    assert(enc(t, slots@) =~= seq![b]);
                                    trie.lemma_walk_cons(node as int, b, Seq::<u8>::empty());
                                    trie.lemma_walk_push(child as int, Seq::<u8>::empty(), 0u8);
                                    assert(seq![b] + Seq::<u8>::empty() =~= seq![b]);
                                    assert(got(rs@[r0.len() as int], *trie, node as int, t, slots@, fresh as int));
                                } else {
                                    lemma_header_bits(b);
                                }
                            }
                            TermV::App(a) => {
                                lemma_header_bits(b);
                            }
                            TermV::Sym(sy) => {
                                let l = vstd::utf8::encode_utf8(sy).len();
                                lemma_header_bits(b);
                            }
                        }
                    }
                }
            }
        } else if b == NEWVAR_BYTE {
            let mut sl = copy_slots(slots);
            sl.push(fresh);
            rs.push(Reading { term: Term::Var(fresh), end: child, slots: sl, fresh: fresh + 1 });
            proof {
                if slots_ok(slots@, fresh as int) {
                    let t = TermV::Var(fresh);
                    assert(!slots@.contains(fresh)) by {
                        if slots@.contains(fresh) {
                            let j = choose|j: int| 0 <= j < slots@.len() && slots@[j] == fresh;
                            assert(slots@[j] < fresh);
                        }
                    }
                    assert(enc(t, slots@) =~= seq![b]);
                    trie.lemma_walk_cons(node as int, b, Seq::<u8>::empty());
                    trie.lemma_walk_push(child as int, Seq::<u8>::empty(), 0u8);
                    assert(seq![b] + Seq::<u8>::empty() =~= seq![b]);
                    assert(slots@.push(fresh) =~= with_new(slots@, fresh as int, 1));
                    assert(rs@[r0.len() as int].slots@ =~= slots@.push(fresh));
                    assert(sound(rs@[r0.len() as int], *trie, node as int, slots@, fresh as int));
                }
            }
            proof {
                if slots_ok(slots@, fresh as int) {
                    assert forall|t: TermV| #[trigger] readable(*trie, node as int, t, slots@, fresh as int)
                        && enc(t, slots@)[0] == b
                        implies exists|i: int| 0 <= i < rs@.len() && got(rs@[i], *trie, node as int, t, slots@, fresh as int) by {
                        match t {
                            TermV::Var(v) => {
                                if slots@.contains(v) {
                                    let i = slots@.index_of(v);
                                    crate::term::lemma_collect(t, slots@);
                                    assert(0 <= i < slots@.len());
                                    lemma_header_bits(b);
                                } else {
                                    let cl = collect(t, slots@);
                                    assert(cl == slots@.push(v));
                                    assert(cl[slots@.len() as int] == with_new(slots@, fresh as int, 1)[slots@.len() as int]);
                                    assert(v == fresh);
                                    assert(enc(t, slots@) =~= seq![b]);
                                    trie.lemma_walk_cons(node as int, b, Seq::<u8>::empty());
                                    trie.lemma_walk_push(child as int, Seq::<u8>::empty(), 0u8);
                                    assert(seq![b] + Seq::<u8>::empty() =~= seq![b]);
                                    assert(rs@[r0.len() as int].slots@ =~= slots@.push(fresh));
                                    assert(got(rs@[r0.len() as int], *trie, node as int, t, slots@, fresh as int));
                                }
                            }
                            TermV::App(a) => {
                                lemma_header_bits(b);
                            }
                            TermV::Sym(sy) => {
                                let l = vstd::utf8::encode_utf8(sy).len();
                                lemma_header_bits(b);
                            }
                        }
                    }
                }
            }
        } else if tag == TOP2 {
            let len = (b & LOW6) as usize;
            proof {
                lemma_header_bits(b);
            }
            let payloads = read_payload(trie, child, len);
            let mut x: usize = 0;
            while x < payloads.len()
                invariant
                    node < child < trie.size(),
                    x <= payloads@.len(),
                    rs@.len() >= r0.len(),
                    forall|i: int| 0 <= i < r0.len() ==> #[trigger] rs@[i] == r0[i],
                    forall|i: int| 0 <= i < payloads@.len() ==> child <= (#[trigger] payloads@[i]).1 < trie.size(),
                    forall|i: int| 0 <= i < x && vstd::utf8::valid_utf8(#[trigger] payloads@[i].0@) ==> exists|j: int| r0.len() <= j < rs@.len()
                        && rs@[j].term@ == TermV::Sym(vstd::utf8::decode_utf8(payloads@[i].0@)) && rs@[j].end == payloads@[i].1
                        && rs@[j].slots@ == slots@ && rs@[j].fresh == fresh,
                    forall|i: int| 0 <= i < rs@.len() ==> reading_bounds(#[trigger] rs@[i], node as int, fresh as int, trie.size() as int),
                    b == 0xC0u8 + len,
                    1 <= len <= 63,
                    trie.step_to(node as int, b) == Some(child as int),
                    forall|i: int| 0 <= i < payloads@.len() ==> (#[trigger] payloads@[i]).0@.len() == len
                        && trie.walk_from(child as int, payloads@[i].0@) == Some(payloads@[i].1 as int),
                    slots_ok(slots@, fresh as int) ==> forall|i: int| 0 <= i < rs@.len() ==> sound(#[trigger] rs@[i], *trie, node as int, slots@, fresh as int),
                decreases payloads.len() - x,
            {
                let bytes = copy_bytes(&payloads[x].0);
                let end = payloads[x].1;
                let ghost rx = rs@;
                let ghost bv = bytes@;
                match string_from_utf8(bytes) {
                    Ok(s) => {
                        let sl = copy_slots(slots);
                        rs.push(Reading { term: Term::Sym(s), end, slots: sl, fresh });
                        proof {
                            if slots_ok(slots@, fresh as int) {
                                let t = TermV::Sym(s@);
                                vstd::utf8::decode_utf8_encode_utf8(bv);
                                assert(vstd::utf8::encode_utf8(s@) == bv);
                                assert(enc(t, slots@) == seq![b] + bv);
                                trie.lemma_walk_cons(node as int, b, bv);
                                assert(slots@ =~= with_new(slots@, fresh as int, 0));
                                assert(sound(rs@[rx.len() as int], *trie, node as int, slots@, fresh as int));
                            }
                        }
                    }
                    Err(_) => {}
                }
                proof {
                    assert forall|i: int| 0 <= i < x + 1 && vstd::utf8::valid_utf8(#[trigger] payloads@[i].0@) implies exists|j: int| r0.len() <= j < rs@.len()
                        && rs@[j].term@ == TermV::Sym(vstd::utf8::decode_utf8(payloads@[i].0@)) && rs@[j].end == payloads@[i].1
                        && rs@[j].slots@ == slots@ && rs@[j].fresh == fresh by {
                        if i < x {
                            let j = choose|j: int| r0.len() <= j < rx.len()
                                && rx[j].term@ == TermV::Sym(vstd::utf8::decode_utf8(payloads@[i].0@)) && rx[j].end == payloads@[i].1
                                && rx[j].slots@ == slots@ && rx[j].fresh == fresh;
                            assert(rs@[j] == rx[j]);
                        } else {
                            assert(rs@[rx.len() as int].end == payloads@[i].1);
                        }
                    }
                }
                x += 1;
            }
            proof {
                if slots_ok(slots@, fresh as int) {
                    assert forall|t: TermV| #[trigger] readable(*trie, node as int, t, slots@, fresh as int)
                        && enc(t, slots@)[0] == b
                        implies exists|i: int| 0 <= i < rs@.len() && got(rs@[i], *trie, node as int, t, slots@, fresh as int) by {
                        match t {
                            TermV::Sym(sy) => {
                                let p = vstd::utf8::encode_utf8(sy);
                                let l = p.len();
                                lemma_header_bits(b);
                                assert(enc(t, slots@) == seq![b] + p);
                                assert(len == l);
                                trie.lemma_walk_cons(node as int, b, p);
                                let x0 = choose|x0: int| 0 <= x0 < payloads@.len() && #[trigger] payloads@[x0].0@ == p;
                                vstd::utf8::encode_utf8_valid_utf8(sy);
                                vstd::utf8::encode_utf8_decode_utf8(sy);
                                let j = choose|j: int| r0.len() <= j < rs@.len()
                                    && rs@[j].term@ == TermV::Sym(vstd::utf8::decode_utf8(payloads@[x0].0@)) && rs@[j].end == payloads@[x0].1
                                    && rs@[j].slots@ == slots@ && rs@[j].fresh == fresh;
                                assert(got(rs@[j], *trie, node as int, t, slots@, fresh as int));
                            }
                            TermV::Var(v) => {
                                if slots@.contains(v) {
                                    let i = slots@.index_of(v);
                                    crate::term::lemma_collect(t, slots@);
                                    assert(0 <= i < slots@.len());
                                    lemma_header_bits(b);
                                } else {
                                    lemma_header_bits(b);
                                }
                            }
                            TermV::App(a) => {
                                lemma_header_bits(b);
                            }
                        }
                    }
                }
            }
        } else {
            proof {
                if slots_ok(slots@, fresh as int) {
                    assert forall|t: TermV| #[trigger] readable(*trie, node as int, t, slots@, fresh as int)
                        && enc(t, slots@)[0] == b
                        implies exists|i: int| 0 <= i < rs@.len() && got(rs@[i], *trie, node as int, t, slots@, fresh as int) by {
                        lemma_header_bits(b);
                        match t {
                            TermV::Sym(sy) => {
                                let l = vstd::utf8::encode_utf8(sy).len();
                            }
                            TermV::Var(v) => {
                                if slots@.contains(v) {
                                    let i = slots@.index_of(v);
                                    crate::term::lemma_collect(t, slots@);
                                    assert(0 <= i < slots@.len());
                                }
                            }
                            TermV::App(a) => {}
                        }
                    }
                }
            }
        }
        proof {
            if slots_ok(slots@, fresh as int) {
                assert forall|t: TermV| #[trigger] readable(*trie, node as int, t, slots@, fresh as int)
                    && labels@.take(c + 1).contains(enc(t, slots@)[0])
                    implies exists|i: int| 0 <= i < rs@.len() && got(rs@[i], *trie, node as int, t, slots@, fresh as int) by {
                    let x = choose|x: int| 0 <= x < c + 1 && #[trigger] labels@.take(c + 1)[x] == enc(t, slots@)[0];
                    if x < c {
                        assert(labels@.take(c as int)[x] == enc(t, slots@)[0]);
                        let i = choose|i: int| 0 <= i < r0.len() && got(r0[i], *trie, node as int, t, slots@, fresh as int);
                        assert(rs@[i] == r0[i]);
                    }
                }
            }
        }
        c += 1;
    }
    proof {
        if slots_ok(slots@, fresh as int) {
            assert forall|t: TermV| #[trigger] readable(*trie, node as int, t, slots@, fresh as int)
                implies exists|i: int| 0 <= i < rs@.len() && got(rs@[i], *trie, node as int, t, slots@, fresh as int) by {
                let e = enc(t, slots@);
                crate::term::lemma_enc_len_pos(t, slots@);
                assert(e =~= seq![e[0]] + e.drop_first());
                trie.lemma_walk_cons(node as int, e[0], e.drop_first());
                trie.lemma_step_label(node as int, e[0]);
                assert(labels@.take(labels@.len() as int) =~= labels@);
            }
        }
    }
    rs
}

/// A copy of a list of bytes.
fn copy_bytes(v: &Vec<u8>) -> (r: Vec<u8>)
    ensures
        r@ == v@,
{
    let mut r: Vec<u8> = Vec::new();
    let mut i: usize = 0;
    while i < v.len()
        invariant
            i <= v@.len(),
            r@ == v@.take(i as int),
        decreases v.len() - i,
    {
        r.push(v[i]);
        proof {
            assert(v@.take(i + 1) =~= v@.take(i as int).push(v@[i as int]));
        }
        i += 1;
    }
    proof {
        assert(v@.take(v@.len() as int) =~= v@);
    }
    r
}

/// Every way to read `n` complete stored subterms in sequence from `node`: the list of terms,
/// the node after the last, the slots, and the next free id. Every list of `n` well-shaped
/// terms stored in turn from `node` along their encodings, named from the slots and `fresh`,
/// is among them, and each of them is such a list.
fn read_n_subterms(trie: &ByteTrie, node: usize, n: usize, slots: &Vec<u32>, fresh: u32)
    -> (rs: Vec<(Vec<Term>, usize, Vec<u32>, u32)>)
    requires
        trie.wf(),
        node < trie.size(),
        fresh + (trie.size() - node) <= u32::MAX,
    ensures
        forall|i: int| 0 <= i < rs@.len() ==> node <= (#[trigger] rs@[i]).1 < trie.size()
            && fresh <= rs@[i].3 <= fresh + (rs@[i].1 - node),
        slots_ok(slots@, fresh as int) ==> forall|ts: Seq<TermV>| ts.len() == n && #[trigger] readable_seq(*trie, node as int, ts, slots@, fresh as int)
            ==> exists|i: int| 0 <= i < rs@.len() && got_seq(rs@[i], *trie, node as int, ts, slots@, fresh as int),
        forall|i: int| 0 <= i < rs@.len() ==> views((#[trigger] rs@[i]).0@).len() == n,
        slots_ok(slots@, fresh as int) ==> forall|i: int| 0 <= i < rs@.len() ==> sound_seq(#[trigger] rs@[i], *trie, node as int, slots@, fresh as int),
    decreases trie.size() - node, 1int, n,
{
    let mut rs: Vec<(Vec<Term>, usize, Vec<u32>, u32)> = Vec::new();
    if n == 0 {
        let sl = copy_slots(slots);
        rs.push((Vec::new(), node, sl, fresh));
        proof {
            trie.lemma_walk_push(node as int, Seq::<u8>::empty(), 0u8);
            assert(views(rs@[0].0@) =~= Seq::<TermV>::empty());
            assert(slots@ =~= with_new(slots@, fresh as int, 0));
            assert(sound_seq(rs@[0], *trie, node as int, slots@, fresh as int));
            assert forall|ts: Seq<TermV>| ts.len() == n && #[trigger] readable_seq(*trie, node as int, ts, slots@, fresh as int)
                implies exists|i: int| 0 <= i < rs@.len() && got_seq(rs@[i], *trie, node as int, ts, slots@, fresh as int) by {
                assert(views(rs@[0].0@) =~= ts);
                assert(enc_seq(ts, slots@) =~= Seq::<u8>::empty());
                assert(got_seq(rs@[0], *trie, node as int, ts, slots@, fresh as int));
            }
        }
        return rs;
    }
    let firsts = read_one_subterm(trie, node, slots, fresh);
    let mut x: usize = 0;
    while x < firsts.len()
        invariant
            trie.wf(),
            node < trie.size(),
            n > 0,
            fresh + (trie.size() - node) <= u32::MAX,
            x <= firsts@.len(),
            forall|i: int| 0 <= i < firsts@.len() ==> reading_bounds(#[trigger] firsts@[i], node as int, fresh as int, trie.size() as int),
            forall|i: int| 0 <= i < rs@.len() ==> node <= (#[trigger] rs@[i]).1 < trie.size()
                && fresh <= rs@[i].3 <= fresh + (rs@[i].1 - node),
            slots_ok(slots@, fresh as int) ==> forall|ts: Seq<TermV>| ts.len() == n && #[trigger] readable_seq(*trie, node as int, ts, slots@, fresh as int)
                && (exists|x2: int| 0 <= x2 < x && got(firsts@[x2], *trie, node as int, ts[0], slots@, fresh as int))
                ==> exists|i: int| 0 <= i < rs@.len() && got_seq(rs@[i], *trie, node as int, ts, slots@, fresh as int),
            slots_ok(slots@, fresh as int) ==> forall|i: int| 0 <= i < firsts@.len() ==> sound(#[trigger] firsts@[i], *trie, node as int, slots@, fresh as int),
            forall|i: int| 0 <= i < rs@.len() ==> views((#[trigger] rs@[i]).0@).len() == n,
            slots_ok(slots@, fresh as int) ==> forall|i: int| 0 <= i < rs@.len() ==> sound_seq(#[trigger] rs@[i], *trie, node as int, slots@, fresh as int),
        decreases firsts.len() - x,
    {
        let r = &firsts[x];
        proof {
            assert(reading_bounds(firsts@[x as int], node as int, fresh as int, trie.size() as int));
            if slots_ok(slots@, fresh as int) {
                assert(sound(firsts@[x as int], *trie, node as int, slots@, fresh as int));
                let k0 = (collect(r.term@, slots@).len() - slots@.len()) as nat;
                lemma_slots_ext(slots@, fresh as int, k0);
            }
        }
        let rests = read_n_subterms(trie, r.end, n - 1, &r.slots, r.fresh);
        let ghost r0 = rs@;
        let mut y: usize = 0;
        while y < rests.len()
            invariant
                node < r.end < trie.size(),
                fresh <= r.fresh <= fresh + (r.end - node),
                y <= rests@.len(),
                rs@.len() == r0.len() + y,
                forall|i: int| 0 <= i < r0.len() ==> #[trigger] rs@[i] == r0[i],
                forall|i: int| 0 <= i < rests@.len() ==> r.end <= (#[trigger] rests@[i]).1 < trie.size()
                    && r.fresh <= rests@[i].3 <= r.fresh + (rests@[i].1 - r.end),
                forall|i: int| 0 <= i < y ==> views((#[trigger] rs@[r0.len() + i]).0@) == seq![r.term@] + views(rests@[i].0@)
                    && rs@[r0.len() + i].1 == rests@[i].1 && rs@[r0.len() + i].2@ == rests@[i].2@ && rs@[r0.len() + i].3 == rests@[i].3,
                forall|i: int| 0 <= i < rs@.len() ==> node <= (#[trigger] rs@[i]).1 < trie.size()
                    && fresh <= rs@[i].3 <= fresh + (rs@[i].1 - node),
                n > 0,
                forall|i: int| 0 <= i < rests@.len() ==> views((#[trigger] rests@[i]).0@).len() == n - 1,
                forall|i: int| 0 <= i < rs@.len() ==> views((#[trigger] rs@[i]).0@).len() == n,
                slots_ok(slots@, fresh as int) ==> sound(*r, *trie, node as int, slots@, fresh as int)
                    && forall|i: int| 0 <= i < rests@.len() ==> sound_seq(#[trigger] rests@[i], *trie, r.end as int, r.slots@, r.fresh as int),
                slots_ok(slots@, fresh as int) ==> forall|i: int| 0 <= i < rs@.len() ==> sound_seq(#[trigger] rs@[i], *trie, node as int, slots@, fresh as int),
            decreases rests.len() - y,
        {
            let mut ts: Vec<Term> = Vec::new();
            ts.push(r.term.clone());
            let rest = &rests[y].0;
            let mut z: usize = 0;
            while z < rest.len()
                invariant
                    z <= rest@.len(),
                    views(ts@) == seq![r.term@] + views(rest@).take(z as int),
                decreases rest.len() - z,
            {
                let ghost t0 = ts@;
                let c = rest[z].clone();
                ts.push(c);
                proof {
                    assert(c@ == rest@[z as int]@);
                    assert(views(ts@) =~= views(t0).push(c@));
                    assert(views(rest@).take(z + 1) =~= views(rest@).take(z as int).push(rest@[z as int]@));
                    assert(views(ts@) =~= seq![r.term@] + views(rest@).take(z + 1));
                }
                z += 1;
            }
            proof {
                assert(views(rest@).take(rest@.len() as int) =~= views(rest@));
            }
            let sl = copy_slots(&rests[y].2);
            let ghost rb = rs@;
            rs.push((ts, rests[y].1, sl, rests[y].3));
            proof {
                assert(rs@[rb.len() as int] == (ts, rests@[y as int].1, sl, rests@[y as int].3));
                if slots_ok(slots@, fresh as int) {
                    lemma_sound_cons(*r, rests@[y as int], rs@[rb.len() as int], *trie, node as int, slots@, fresh as int);
                }
            }
            y += 1;
        }
        proof {
            if slots_ok(slots@, fresh as int) {
                assert forall|ts: Seq<TermV>| ts.len() == n && #[trigger] readable_seq(*trie, node as int, ts, slots@, fresh as int)
                    && (exists|x2: int| 0 <= x2 < x + 1 && got(firsts@[x2], *trie, node as int, ts[0], slots@, fresh as int))
                    implies exists|i: int| 0 <= i < rs@.len() && got_seq(rs@[i], *trie, node as int, ts, slots@, fresh as int) by {
                    let x2 = choose|x2: int| 0 <= x2 < x + 1 && got(firsts@[x2], *trie, node as int, ts[0], slots@, fresh as int);
                    if x2 < x {
                        let i = choose|i: int| 0 <= i < r0.len() && got_seq(r0[i], *trie, node as int, ts, slots@, fresh as int);
                        assert(rs@[i] == r0[i]);
                    } else {
                        let rest = ts.subrange(1, ts.len() as int);
                        let c0 = collect(ts[0], slots@);
                        let k0 = (c0.len() - slots@.len()) as nat;
                        lemma_named_split(ts, slots@, fresh as int);
                        lemma_slots_ext(slots@, fresh as int, k0);
                        trie.lemma_walk_append(node as int, enc(ts[0], slots@), enc_seq(rest, c0));
                        assert forall|i: int| 0 <= i < rest.len() implies #[trigger] shape_ok(rest[i]) by {
                            assert(shape_ok(ts[i + 1]));
                        }
                        assert(readable_seq(*trie, r.end as int, rest, c0, fresh + k0));
                        let y0 = choose|y0: int| 0 <= y0 < rests@.len() && got_seq(rests@[y0], *trie, r.end as int, rest, c0, fresh + k0);
                        assert(ts =~= seq![ts[0]] + rest);
                        assert(got_seq(rs@[r0.len() + y0], *trie, node as int, ts, slots@, fresh as int));
                    }
                }
            }
        }
        x += 1;
    }
    proof {
        if slots_ok(slots@, fresh as int) {
            assert forall|ts: Seq<TermV>| ts.len() == n && #[trigger] readable_seq(*trie, node as int, ts, slots@, fresh as int)
                implies exists|i: int| 0 <= i < rs@.len() && got_seq(rs@[i], *trie, node as int, ts, slots@, fresh as int) by {
                let rest = ts.subrange(1, ts.len() as int);
                let c0 = collect(ts[0], slots@);
                lemma_named_split(ts, slots@, fresh as int);
                trie.lemma_walk_append(node as int, enc(ts[0], slots@), enc_seq(rest, c0));
                assert(shape_ok(ts[0]));
                assert(readable(*trie, node as int, ts[0], slots@, fresh as int));
            }
        }
    }
    rs
}

/// Every way to read `len` raw payload bytes (each a trie branch) from `node`, with the node
/// after the last: exactly the paths of `len` bytes from `node`.
fn read_payload(trie: &ByteTrie, node: usize, len: usize) -> (rs: Vec<(Vec<u8>, usize)>)
    requires
        trie.wf(),
        node < trie.size(),
    ensures
        forall|i: int| 0 <= i < rs@.len() ==> node <= (#[trigger] rs@[i]).1 < trie.size()
            && rs@[i].0@.len() == len && trie.walk_from(node as int, rs@[i].0@) == Some(rs@[i].1 as int),
        forall|p: Seq<u8>| p.len() == len && #[trigger] trie.walk_from(node as int, p) is Some
            ==> exists|i: int| 0 <= i < rs@.len() && #[trigger] rs@[i].0@ == p,
    decreases len,
{
    let mut rs: Vec<(Vec<u8>, usize)> = Vec::new();
    if len == 0 {
        rs.push((Vec::new(), node));
        proof {
            trie.lemma_walk_push(node as int, Seq::<u8>::empty(), 0u8);
            assert(rs@[0].0@ =~= Seq::<u8>::empty());
            assert forall|p: Seq<u8>| p.len() == len && #[trigger] trie.walk_from(node as int, p) is Some
                implies exists|i: int| 0 <= i < rs@.len() && #[trigger] rs@[i].0@ == p by {
                assert(p =~= rs@[0].0@);
            }
        }
        return rs;
    }
    let (labels, kids) = trie.children(node);
    let mut c: usize = 0;
    while c < labels.len()
        invariant
            trie.wf(),
            node < trie.size(),
            len > 0,
            labels@ == trie.labels(node as int),
            kids@ == trie.kids(node as int),
            labels@.len() == kids@.len(),
            forall|x: int| 0 <= x < kids@.len() ==> node < #[trigger] kids@[x] < trie.size(),
            c <= labels@.len(),
            forall|i: int| 0 <= i < rs@.len() ==> node <= (#[trigger] rs@[i]).1 < trie.size()
                && rs@[i].0@.len() == len && trie.walk_from(node as int, rs@[i].0@) == Some(rs@[i].1 as int),
            forall|p: Seq<u8>| p.len() == len && #[trigger] trie.walk_from(node as int, p) is Some
                && labels@.take(c as int).contains(p[0])
                ==> exists|i: int| 0 <= i < rs@.len() && #[trigger] rs@[i].0@ == p,
        decreases labels.len() - c,
    {
        let b = labels[c];
        let child = kids[c];
        proof {
            trie.lemma_step_child(node as int, c as int);
        }
        let rests = read_payload(trie, child, len - 1);
        let ghost r0 = rs@;
        let mut y: usize = 0;
        while y < rests.len()
            invariant
                trie.wf(),
                node < child < trie.size(),
                len > 0,
                trie.step_to(node as int, b) == Some(child as int),
                y <= rests@.len(),
                rs@.len() == r0.len() + y,
                forall|i: int| 0 <= i < r0.len() ==> #[trigger] rs@[i] == r0[i],
                forall|i: int| 0 <= i < rests@.len() ==> child <= (#[trigger] rests@[i]).1 < trie.size()
                    && rests@[i].0@.len() == len - 1 && trie.walk_from(child as int, rests@[i].0@) == Some(rests@[i].1 as int),
                forall|i: int| 0 <= i < y ==> #[trigger] rs@[r0.len() + i].0@ == seq![b] + rests@[i].0@,
                forall|i: int| 0 <= i < rs@.len() ==> node <= (#[trigger] rs@[i]).1 < trie.size()
                    && rs@[i].0@.len() == len && trie.walk_from(node as int, rs@[i].0@) == Some(rs@[i].1 as int),
            decreases rests.len() - y,
        {
            let mut bs: Vec<u8> = Vec::new();
            bs.push(b);
            let rest = &rests[y].0;
            let mut z: usize = 0;
            while z < rest.len()
                invariant
                    z <= rest@.len(),
                    bs@ == seq![b] + rest@.take(z as int),
                decreases rest.len() - z,
            {
                bs.push(rest[z]);
                proof {
                    assert(rest@.take(z + 1) =~= rest@.take(z as int).push(rest@[z as int]));
                }
                z += 1;
            }
            proof {
                assert(rest@.take(rest@.len() as int) =~= rest@);
                trie.lemma_walk_cons(node as int, b, rest@);
            }
            rs.push((bs, rests[y].1));
            y += 1;
        }
        proof {
            assert forall|p: Seq<u8>| p.len() == len && #[trigger] trie.walk_from(node as int, p) is Some
                && labels@.take(c + 1).contains(p[0])
                implies exists|i: int| 0 <= i < rs@.len() && #[trigger] rs@[i].0@ == p by {
                let x = choose|x: int| 0 <= x < c + 1 && #[trigger] labels@.take(c + 1)[x] == p[0];
                if x < c {
                    assert(labels@.take(c as int)[x] == p[0]);
                    let i = choose|i: int| 0 <= i < r0.len() && #[trigger] r0[i].0@ == p;
                    assert(rs@[i] == r0[i]);
                } else {
                    assert(p =~= seq![b] + p.drop_first());
                    trie.lemma_walk_cons(node as int, b, p.drop_first());
                    let i = choose|i: int| 0 <= i < rests@.len() && #[trigger] rests@[i].0@ == p.drop_first();
                    assert(rs@[r0.len() + i].0@ == p);
                }
            }
        }
        c += 1;
    }
    proof {
        assert forall|p: Seq<u8>| p.len() == len && #[trigger] trie.walk_from(node as int, p) is Some
            implies exists|i: int| 0 <= i < rs@.len() && #[trigger] rs@[i].0@ == p by {
            assert(p =~= seq![p[0]] + p.drop_first());
            trie.lemma_walk_cons(node as int, p[0], p.drop_first());
            trie.lemma_step_label(node as int, p[0]);
            assert(labels@.take(labels@.len() as int) =~= labels@);
        }
    }
    rs
}

/// Descend exactly the bytes of `bytes` from `node`: the node the path leads to, or `None` if
/// the trie has no such path.
fn descend_exact(trie: &ByteTrie, node: usize, bytes: &Vec<u8>) -> (r: Option<usize>)
    requires
        trie.wf(),
        node < trie.size(),
    ensures
        r matches Some(e) ==> node <= e < trie.size() && trie.walk_from(node as int, bytes@) == Some(e as int),
        r is None ==> trie.walk_from(node as int, bytes@) is None,
{
    let mut cur = node;
    let mut i: usize = 0;
    proof {
        trie.lemma_walk_push(node as int, Seq::<u8>::empty(), 0u8);
        assert(bytes@.take(0) =~= Seq::<u8>::empty());
    }
    while i < bytes.len()
        invariant
            trie.wf(),
            node <= cur < trie.size(),
            i <= bytes@.len(),
            trie.walk_from(node as int, bytes@.take(i as int)) == Some(cur as int),
        decreases bytes.len() - i,
    {
        proof {
            assert(bytes@.take(i + 1) =~= bytes@.take(i as int).push(bytes@[i as int]));
            trie.lemma_walk_push(node as int, bytes@.take(i as int), bytes@[i as int]);
        }
        match trie.child(cur, bytes[i]) {
            Some(x) => {
                cur = x;
            }
            None => {
                proof {
                    trie.lemma_walk_append(node as int, bytes@.take(i + 1), bytes@.skip(i + 1));
                    assert(bytes@.take(i + 1) + bytes@.skip(i + 1) =~= bytes@);
                }
                return None;
            }
        }
        i += 1;
    }
    proof {
        assert(bytes@.take(i as int) =~= bytes@);
    }
    Some(cur)
}

/// What stays fixed during one join: the factors, the query variables, the trie, and whether a
/// stored wildcard may capture a structured query subterm.
struct Ctx<'a> {
    factors: &'a Vec<Term>,
    query_vars: &'a Vec<u32>,
    trie: &'a ByteTrie,
    capture: bool,
    base: u32,
}

/// The mutable state of one join: the shared backtrackable substitution, the next stored
/// variable id, the current fact's stored-variable slots (for coreference), and the answers.
struct State {
    env: Env,
    fresh: u32,
    slots: Vec<u32>,
    out: Vec<Vec<u8>>,
}

/// A pending argument list of an enclosing compound pattern: its arguments and the next one
/// to match.
struct Frame {
    args: Vec<Term>,
    next: usize,
}

/// The state is usable: the substitution is well formed and the next id leaves room for one
/// id per byte of the rest of this factor and of every later factor.
spec fn state_ok(ctx: &Ctx, st: &State, fi: int, node: int, lim: int) -> bool {
    &&& st.env.wf()
    &&& ctx.trie.wf()
    &&& 0 <= fi < ctx.factors@.len()
    &&& 0 <= node < ctx.trie.size()
    &&& st.fresh <= lim + node
    &&& lim + ctx.trie.size() * (ctx.factors@.len() - fi) <= u32::MAX
    &&& ctx.base <= st.fresh
    &&& slots_ok(st.slots@, st.fresh as int)
}

proof fn lemma_room(s: int, k: int)
    requires
        s >= 0,
        k >= 1,
    ensures
        s <= s * k,
        s * k == s + s * (k - 1),
{
    assert(s <= s * k) by (nonlinear_arith)
        requires
            s >= 0,
            k >= 1,
    ;
    assert(s * k == s + s * (k - 1)) by (nonlinear_arith);
}

/// The encodings of the terms of `a`, one after another.
spec fn cat_enc(a: Seq<TermV>) -> Seq<u8>
    decreases a.len(),
{
    if a.len() == 0 {
        Seq::empty()
    } else {
        encoding(a[0]) + cat_enc(a.subrange(1, a.len() as int))
    }
}

/// A ground term is encoded alike whatever variables came before it, and introduces none.
proof fn lemma_ground_enc(t: TermV, s: Seq<u32>)
    requires
        ground(t),
    ensures
        collect(t, s) == s,
        enc(t, s) == encoding(t),
    decreases t, 1nat,
{
    if let TermV::App(a) = t {
        lemma_ground_all(a, a.len());
        lemma_ground_enc_seq(a, s);
        lemma_ground_enc_seq(a, Seq::empty());
    }
}

/// A list of ground terms is encoded as the encodings of its terms in turn.
proof fn lemma_ground_enc_seq(a: Seq<TermV>, s: Seq<u32>)
    requires
        forall|i: int| 0 <= i < a.len() ==> #[trigger] ground(a[i]),
    ensures
        collect_seq(a, s) == s,
        enc_seq(a, s) == cat_enc(a),
    decreases a, 0nat,
{
    if a.len() > 0 {
        let r = a.subrange(1, a.len() as int);
        assert(ground(a[0]));
        lemma_ground_enc(a[0], s);
        assert forall|i: int| 0 <= i < r.len() implies #[trigger] ground(r[i]) by {
            assert(ground(a[i + 1]));
        }
        lemma_ground_enc_seq(r, s);
    }
}

/// The same key in a list that keeps everything an earlier list held.
proof fn lemma_has_key_mono(v1: Seq<Vec<u8>>, v2: Seq<Vec<u8>>, k: Seq<u8>)
    requires
        forall|x: Vec<u8>| v1.contains(x) ==> #[trigger] v2.contains(x),
        has_key(v1, k),
    ensures
        has_key(v2, k),
{
    let j = choose|j: int| 0 <= j < v1.len() && #[trigger] v1[j]@ == k;
    assert(v1.contains(v1[j]));
    assert(v2.contains(v1[j]));
    let i = choose|i: int| 0 <= i < v2.len() && v2[i] == v1[j];
    assert(v2[i]@ == k);
}

/// Sound slots with `k` new ids after them are sound below the next free id.
proof fn lemma_with_new_ok(slots: Seq<u32>, fresh: int, k: nat)
    requires
        slots_ok(slots, fresh),
        0 <= fresh,
        fresh + k <= u32::MAX,
    ensures
        slots_ok(with_new(slots, fresh, k), fresh + k),
{
    let w = with_new(slots, fresh, k);
    assert forall|i: int| slots.len() <= i < w.len() implies w[i] == fresh + (i - slots.len()) by {}
    assert forall|i: int, j: int| 0 <= i < w.len() && 0 <= j < w.len() && i != j implies w[i] != w[j] by {
        if i < slots.len() && j < slots.len() {
        } else if i < slots.len() {
            assert(slots[i] < fresh);
        } else if j < slots.len() {
            assert(slots[j] < fresh);
        }
    }
    assert(w.no_duplicates());
}

/// A header byte is its tag with the low six bits or-ed in.
proof fn lemma_tag_or(x: u8)
    by (bit_vector)
    requires
        x < 64u8,
    ensures
        (0xC0u8 | x) == 0xC0u8 + x,
        (0x00u8 | x) == x,
{
}

/// The image of variable `v` under `th`.
spec fn tv(th: Map<u32, TermV>, v: u32) -> TermV {
    subst(th, TermV::Var(v))
}

/// `th` sends `v` to a ground, well-shaped term.
spec fn okv(th: Map<u32, TermV>, v: u32) -> bool {
    ground(tv(th, v)) && shape_ok(tv(th, v))
}

/// The image of `t` under `th` is well-shaped, and every variable of `t` goes to a ground,
/// well-shaped term.
spec fn term_ok(th: Map<u32, TermV>, t: TermV) -> bool {
    &&& shape_ok(subst(th, t))
    &&& forall|v: u32| #[trigger] fv(t).contains(v) ==> okv(th, v)
}

/// The images of the terms of `a` under `th`.
spec fn mapped(a: Seq<TermV>, th: Map<u32, TermV>) -> Seq<TermV> {
    Seq::new(a.len(), |i: int| subst(th, a[i]))
}

/// Every argument still pending is fine under `th`.
spec fn frames_ok(ks: Seq<Frame>, th: Map<u32, TermV>) -> bool {
    forall|i: int, j: int| 0 <= i < ks.len() && ks[i].next <= j < ks[i].args@.len()
        ==> term_ok(th, #[trigger] ks[i].args@[j]@)
}

/// `v` occurs in an argument still pending.
spec fn pend_var(ks: Seq<Frame>, v: u32) -> bool {
    exists|i: int, j: int| 0 <= i < ks.len() && ks[i].next <= j < ks[i].args@.len()
        && #[trigger] fv(ks[i].args@[j]@).contains(v)
}

/// The factors from `from` on are fine under `th`, and each has a stored path that its image
/// follows, up to what the path captures.
spec fn later_ok(ctx: &Ctx, from: int, th: Map<u32, TermV>) -> bool {
    forall|j: int| from <= j < ctx.factors@.len() ==> term_ok(th, #[trigger] ctx.factors@[j]@)
        && exists|w: Seq<u8>| #[trigger] crel(capm(ctx, th), seq![ctx.factors@[j]@], th, w, 64) && ctx.trie.walk_from(0, w) is Some
}

/// `th` binds only ids below `base`.
pub open spec fn dom_below(th: Map<u32, TermV>, base: int) -> bool {
    forall|v: u32| #[trigger] th.contains_key(v) ==> v < base
}

/// Along the path of `th` a stored wildcard may capture: the join captures, and `th` and the
/// query variables use only ids below the stored-variable ids.
spec fn capm(ctx: &Ctx, th: Map<u32, TermV>) -> bool {
    &&& ctx.capture
    &&& dom_below(th, ctx.base as int)
    &&& forall|x: int| 0 <= x < ctx.query_vars@.len() ==> #[trigger] ctx.query_vars@[x] < ctx.base
}

/// No id from `fresh` on is bound.
spec fn fresh_unbound(sub: Map<u32, TermV>, fresh: int) -> bool {
    forall|v: u32| v >= fresh ==> #[trigger] subst(sub, TermV::Var(v)) == TermV::Var(v)
}

/// The stored bytes `w` spell the images under `th` of the query terms `items`, one after
/// another, except that where `cap` allows, at most `k` ground structured query terms are
/// each met by a stored wildcard (a `NewVar` byte) that captures them.
pub open spec fn crel(cap: bool, items: Seq<TermV>, th: Map<u32, TermV>, w: Seq<u8>, k: nat) -> bool
    decreases w.len(),
{
    if items.len() == 0 {
        w.len() == 0
    } else if w.len() == 0 {
        false
    } else {
        let q = items[0];
        let rest = items.subrange(1, items.len() as int);
        ||| cap && k > 0 && !(q is Var) && ground(q) && shape_ok(q) && w[0] == 0xC0u8
            && crel(cap, rest, th, w.subrange(1, w.len() as int), (k - 1) as nat)
        ||| match q {
            TermV::Var(x) => {
                let e = encoding(subst(th, q));
                &&& 0 < e.len() <= w.len()
                &&& w.subrange(0, e.len() as int) == e
                &&& crel(cap, rest, th, w.subrange(e.len() as int, w.len() as int), k)
            },
            TermV::Sym(_) => {
                let e = encoding(q);
                &&& 0 < e.len() <= w.len()
                &&& w.subrange(0, e.len() as int) == e
                &&& crel(cap, rest, th, w.subrange(e.len() as int, w.len() as int), k)
            },
            TermV::App(a) => w[0] == (0x00u8 | (a.len() as u8)) && crel(cap, a + rest, th, w.subrange(1, w.len() as int), k),
        }
    }
}

/// The stored bytes `w` can be what the query terms `items` matched, in turn: a query
/// variable any nonempty run of stored bytes (its length taken from `sp` in turn), a symbol
/// its size header and then exactly its own bytes, a compound its arity byte and then its
/// arguments; and, where
/// `cap` holds, a symbol or compound a single stored-variable byte (new or repeated) that
/// captures it.
pub open spec fn scomp(cap: bool, items: Seq<TermV>, w: Seq<u8>, sp: Seq<nat>) -> bool
    decreases w.len(),
{
    if items.len() == 0 {
        w.len() == 0
    } else if w.len() == 0 {
        false
    } else {
        let q = items[0];
        let rest = items.subrange(1, items.len() as int);
        match q {
            TermV::Var(_) => sp.len() > 0 && 1 <= sp[0] <= w.len()
                && scomp(cap, rest, w.subrange(sp[0] as int, w.len() as int), sp.subrange(1, sp.len() as int)),
            _ => {
                ||| cap && 0x80u8 <= w[0] <= 0xC0u8 && scomp(cap, rest, w.subrange(1, w.len() as int), sp)
                ||| match q {
                    TermV::App(a) => w[0] == (0x00u8 | (a.len() as u8)) && scomp(cap, a + rest, w.subrange(1, w.len() as int), sp),
                    TermV::Sym(x) => {
                        let e = seq![0xC0u8 | (encode_utf8(x).len() as u8)] + encode_utf8(x);
                        &&& e.len() <= w.len()
                        &&& w.subrange(0, e.len() as int) == e
                        &&& scomp(cap, rest, w.subrange(e.len() as int, w.len() as int), sp)
                    },
                    TermV::Var(_) => false,
                }
            },
        }
    }
}

/// Every factor from `from` on can be matched along a stored path from the root.
spec fn later_comp(ctx: &Ctx, from: int) -> bool {
    forall|j: int| from <= j < ctx.factors@.len() ==> #[trigger] comp_from(ctx, seq![ctx.factors@[j]@], 0)
}

/// The query terms `items` can be matched along a stored path from `node`.
spec fn comp_from(ctx: &Ctx, items: Seq<TermV>, node: int) -> bool {
    exists|w: Seq<u8>, sp: Seq<nat>| #[trigger] scomp(ctx.capture, items, w, sp) && ctx.trie.walk_from(node, w) is Some
}

/// A path for a nonempty list of leading terms and then `p` holds, after at least one byte, a
/// path for `p`.
proof fn lemma_scomp_drop(cap: bool, a: Seq<TermV>, p: Seq<TermV>, w: Seq<u8>, sp: Seq<nat>) -> (r: (int, Seq<nat>))
    requires
        a.len() > 0,
        scomp(cap, a + p, w, sp),
    ensures
        1 <= r.0 <= w.len(),
        scomp(cap, p, w.subrange(r.0, w.len() as int), r.1),
    decreases w.len(),
{
    let items = a + p;
    let q = a[0];
    let a1 = a.subrange(1, a.len() as int);
    assert(items[0] == q);
    assert(items.subrange(1, items.len() as int) =~= a1 + p);
    let (n, w2, sp2, a2): (int, Seq<u8>, Seq<nat>, Seq<TermV>) = match q {
        TermV::Var(_) => (sp[0] as int, w.subrange(sp[0] as int, w.len() as int), sp.subrange(1, sp.len() as int), a1),
        _ => {
            if cap && 0x80u8 <= w[0] <= 0xC0u8 && scomp(cap, a1 + p, w.subrange(1, w.len() as int), sp) {
                (1, w.subrange(1, w.len() as int), sp, a1)
            } else {
                match q {
                    TermV::App(b) => {
                        assert(b + (a1 + p) =~= (b + a1) + p);
                        (1, w.subrange(1, w.len() as int), sp, b + a1)
                    },
                    TermV::Sym(x) => {
                        let e = seq![0xC0u8 | (encode_utf8(x).len() as u8)] + encode_utf8(x);
                        (e.len() as int, w.subrange(e.len() as int, w.len() as int), sp, a1)
                    },
                    TermV::Var(_) => (1, w, sp, a1),
                }
            }
        },
    };
    assert(scomp(cap, a2 + p, w2, sp2));
    assert(w2 =~= w.subrange(n, w.len() as int));
    if a2.len() == 0 {
        assert(a2 + p =~= p);
        (n, sp2)
    } else {
        let (n2, sp3) = lemma_scomp_drop(cap, a2, p, w2, sp2);
        assert(w2.subrange(n2, w2.len() as int) =~= w.subrange(n + n2, w.len() as int));
        (n + n2, sp3)
    }
}

/// The images under `s` of the query terms `items`.
spec fn substs(s: Map<u32, TermV>, items: Seq<TermV>) -> Seq<TermV> {
    Seq::new(items.len(), |i: int| subst(s, items[i]))
}

/// Stored bytes that the images of query terms under a substitution can match, the terms
/// themselves can match: a variable takes whatever run its image took.
proof fn lemma_scomp_gen(cap: bool, s: Map<u32, TermV>, items: Seq<TermV>, w: Seq<u8>, sp: Seq<nat>) -> (sp2: Seq<nat>)
    requires
        scomp(cap, substs(s, items), w, sp),
    ensures
        scomp(cap, items, w, sp2),
    decreases w.len(),
{
    let ii = substs(s, items);
    if items.len() == 0 {
        sp
    } else {
        let q = items[0];
        let rest = items.subrange(1, items.len() as int);
        assert(ii[0] == subst(s, q));
        assert(ii.subrange(1, ii.len() as int) =~= substs(s, rest));
        assert(ii =~= seq![subst(s, q)] + substs(s, rest));
        match q {
            TermV::Var(_) => {
                let (n, sp3) = lemma_scomp_drop(cap, seq![subst(s, q)], substs(s, rest), w, sp);
                let sp4 = lemma_scomp_gen(cap, s, rest, w.subrange(n, w.len() as int), sp3);
                let r = seq![n as nat] + sp4;
                assert(r.subrange(1, r.len() as int) =~= sp4);
                r
            },
            TermV::Sym(x) => {
                if cap && 0x80u8 <= w[0] <= 0xC0u8 && scomp(cap, substs(s, rest), w.subrange(1, w.len() as int), sp) {
                    lemma_scomp_gen(cap, s, rest, w.subrange(1, w.len() as int), sp)
                } else {
                    let e = seq![0xC0u8 | (encode_utf8(x).len() as u8)] + encode_utf8(x);
                    lemma_scomp_gen(cap, s, rest, w.subrange(e.len() as int, w.len() as int), sp)
                }
            },
            TermV::App(a) => {
                let a2 = substs(s, a);
                lemma_subst_app(s, a);
                assert(Seq::new(a.len(), |j: int| subst(s, a[j])) =~= a2);
                assert(subst(s, q) == TermV::App(a2));
                if cap && 0x80u8 <= w[0] <= 0xC0u8 && scomp(cap, substs(s, rest), w.subrange(1, w.len() as int), sp) {
                    lemma_scomp_gen(cap, s, rest, w.subrange(1, w.len() as int), sp)
                } else {
                    assert(substs(s, a + rest) =~= a2 + substs(s, rest));
                    lemma_scomp_gen(cap, s, a + rest, w.subrange(1, w.len() as int), sp)
                }
            },
        }
    }
}

/// A path from `node` for the images under `s` of the query terms is a path for the terms.
proof fn lemma_comp_gen(ctx: &Ctx, s: Map<u32, TermV>, items: Seq<TermV>, node: int)
    requires
        comp_from(ctx, substs(s, items), node),
    ensures
        comp_from(ctx, items, node),
{
    let (w, sp) = choose|w: Seq<u8>, sp: Seq<nat>| #[trigger] scomp(ctx.capture, substs(s, items), w, sp)
        && ctx.trie.walk_from(node, w) is Some;
    let sp2 = lemma_scomp_gen(ctx.capture, s, items, w, sp);
}

/// A path for the images under an instance of `s0` is a path for the images under `s0`.
proof fn lemma_comp_inst(ctx: &Ctx, s0: Map<u32, TermV>, s1: Map<u32, TermV>, items: Seq<TermV>, node: int)
    requires
        instance_of(s1, s0),
        comp_from(ctx, substs(s1, items), node),
    ensures
        comp_from(ctx, substs(s0, items), node),
{
    assert(substs(s1, items) =~= substs(s1, substs(s0, items))) by {
        assert forall|i: int| 0 <= i < items.len() implies substs(s1, items)[i] == substs(s1, substs(s0, items))[i] by {
            lemma_instance_absorbs(s1, s0, items[i]);
        }
    }
    lemma_comp_gen(ctx, s1, substs(s0, items), node);
}

/// A query variable can be matched by a stored run of bytes from `node` to `end`, before a
/// path for the rest.
proof fn lemma_var_path(ctx: &Ctx, q: TermV, p: Seq<TermV>, node: int, end: int, e: Seq<u8>)
    requires
        q is Var,
        e.len() >= 1,
        ctx.trie.walk_from(node, e) == Some(end),
        comp_from(ctx, p, end),
    ensures
        comp_from(ctx, seq![q] + p, node),
{
    let (w2, sp2) = choose|w: Seq<u8>, sp: Seq<nat>| #[trigger] scomp(ctx.capture, p, w, sp) && ctx.trie.walk_from(end, w) is Some;
    let w = e + w2;
    let sp = seq![e.len() as nat] + sp2;
    let items = seq![q] + p;
    assert(items[0] == q);
    assert(items.subrange(1, items.len() as int) =~= p);
    assert(w.subrange(e.len() as int, w.len() as int) =~= w2);
    assert(sp.subrange(1, sp.len() as int) =~= sp2);
    assert(scomp(ctx.capture, items, w, sp));
    ctx.trie.lemma_walk_append(node, e, w2);
}

/// A structured query term can be matched by a single step from `node` to `child` along a
/// stored-variable byte, where the join captures, before a path for the rest.
proof fn lemma_cap_path(ctx: &Ctx, q: TermV, p: Seq<TermV>, node: int, child: int, b: u8)
    requires
        !(q is Var),
        ctx.capture,
        0x80u8 <= b <= 0xC0u8,
        ctx.trie.step_to(node, b) == Some(child),
        comp_from(ctx, p, child),
    ensures
        comp_from(ctx, seq![q] + p, node),
{
    let (w2, sp2) = choose|w: Seq<u8>, sp: Seq<nat>| #[trigger] scomp(ctx.capture, p, w, sp) && ctx.trie.walk_from(child, w) is Some;
    let w = seq![b] + w2;
    let items = seq![q] + p;
    assert(items[0] == q);
    assert(items.subrange(1, items.len() as int) =~= p);
    assert(w.subrange(1, w.len() as int) =~= w2);
    assert(scomp(ctx.capture, items, w, sp2));
    ctx.trie.lemma_walk_cons(node, b, w2);
}

/// A symbol can be matched by its own encoding from `node` to `end`, before a path for the
/// rest.
proof fn lemma_sym_path(ctx: &Ctx, q: TermV, p: Seq<TermV>, node: int, end: int)
    requires
        q is Sym,
        ctx.trie.walk_from(node, seq![0xC0u8 | (encode_utf8(q->Sym_0).len() as u8)] + encode_utf8(q->Sym_0)) == Some(end),
        comp_from(ctx, p, end),
    ensures
        comp_from(ctx, seq![q] + p, node),
{
    let (w2, sp2) = choose|w: Seq<u8>, sp: Seq<nat>| #[trigger] scomp(ctx.capture, p, w, sp) && ctx.trie.walk_from(end, w) is Some;
    let e = seq![0xC0u8 | (encode_utf8(q->Sym_0).len() as u8)] + encode_utf8(q->Sym_0);
    let w = e + w2;
    let items = seq![q] + p;
    assert(items[0] == q);
    assert(items.subrange(1, items.len() as int) =~= p);
    assert(w.subrange(0, e.len() as int) =~= e);
    assert(w.subrange(e.len() as int, w.len() as int) =~= w2);
    assert(scomp(ctx.capture, items, w, sp2));
    ctx.trie.lemma_walk_append(node, e, w2);
}

/// A compound can be matched by its arity byte from `node` to `child`, before a path for its
/// arguments and the rest.
proof fn lemma_app_path(ctx: &Ctx, q: TermV, a: Seq<TermV>, p: Seq<TermV>, node: int, child: int, head: u8)
    requires
        q == TermV::App(a),
        head == (0x00u8 | (a.len() as u8)),
        ctx.trie.step_to(node, head) == Some(child),
        comp_from(ctx, a + p, child),
    ensures
        comp_from(ctx, seq![q] + p, node),
{
    let (w2, sp2) = choose|w: Seq<u8>, sp: Seq<nat>| #[trigger] scomp(ctx.capture, a + p, w, sp) && ctx.trie.walk_from(child, w) is Some;
    let w = seq![head] + w2;
    let items = seq![q] + p;
    assert(items[0] == q);
    assert(items.subrange(1, items.len() as int) =~= p);
    assert(w.subrange(1, w.len() as int) =~= w2);
    assert(scomp(ctx.capture, items, w, sp2));
    ctx.trie.lemma_walk_cons(node, head, w2);
}

/// The query terms the pending argument lists still have to match, innermost first.
spec fn pitems(ks: Seq<Frame>) -> Seq<TermV>
    decreases ks.len(),
{
    if ks.len() == 0 {
        Seq::empty()
    } else {
        let f = ks.last();
        let a = views(f.args@);
        let rest = if f.next <= a.len() { a.subrange(f.next as int, a.len() as int) } else { Seq::empty() };
        rest + pitems(ks.drop_last())
    }
}

/// `v` occurs in a factor from `from` on.
spec fn later_var(ctx: &Ctx, from: int, v: u32) -> bool {
    exists|j: int| from <= j < ctx.factors@.len() && #[trigger] fv(ctx.factors@[j]@).contains(v)
}

/// Every variable is unresolved under `sub`, or resolved to a ground term: its image under
/// `th` where `th` binds it.
spec fn agrees_on(sub: Map<u32, TermV>, th: Map<u32, TermV>) -> bool {
    forall|v: u32| #[trigger] subst(sub, TermV::Var(v)) == TermV::Var(v)
        || (ground(subst(sub, TermV::Var(v))) && (subst(sub, TermV::Var(v)) == tv(th, v) || !th.contains_key(v)))
}

/// Every query variable is resolved to its image under `th`, or still to be met: in `qs`, in
/// a pending argument, or in a factor from `from` on.
spec fn covered(sub: Map<u32, TermV>, th: Map<u32, TermV>, qs: Set<u32>, ks: Seq<Frame>, ctx: &Ctx, from: int) -> bool {
    forall|x: int| 0 <= x < ctx.query_vars@.len() ==> subst(sub, TermV::Var(#[trigger] ctx.query_vars@[x])) == tv(th, ctx.query_vars@[x])
        || qs.contains(ctx.query_vars@[x]) || pend_var(ks, ctx.query_vars@[x]) || later_var(ctx, from, ctx.query_vars@[x])
}

/// What the search needs to reach the answer `th` gives: the pending arguments and the later
/// factors are fine under it, the substitution agrees with it, every query variable is met,
/// the stored bytes `w` from `node` spell the query terms still to match (up to captures),
/// its tuple can be encoded, the fact's slots are sound, and where captures are allowed the
/// ids from `fresh` on are unbound.
spec fn on_track(ctx: &Ctx, sub: Map<u32, TermV>, slots: Seq<u32>, fresh: int, th: Map<u32, TermV>, qs: Set<u32>,
    ks: Seq<Frame>, from: int, node: int, items: Seq<TermV>, w: Seq<u8>) -> bool {
    &&& frames_ok(ks, th)
    &&& later_ok(ctx, from, th)
    &&& agrees_on(sub, th)
    &&& covered(sub, th, qs, ks, ctx, from)
    &&& crel(capm(ctx, th), items, th, w, (64 - slots.len()) as nat)
    &&& ctx.trie.walk_from(node, w) is Some
    &&& encodable(tuple_of(th, ctx.query_vars@))
    &&& slots_ok(slots, fresh)
    &&& slots.len() <= 64
    &&& capm(ctx, th) ==> fresh_unbound(sub, fresh)
}

/// `on_track` for matching `q` at `node` within factor `fi`.
spec fn m_track(ctx: &Ctx, sub: Map<u32, TermV>, slots: Seq<u32>, fresh: int, th: Map<u32, TermV>, q: TermV, ks: Seq<Frame>, fi: int,
    node: int, w: Seq<u8>) -> bool {
    &&& term_ok(th, q)
    &&& on_track(ctx, sub, slots, fresh, th, fv(q), ks, fi + 1, node, seq![q] + pitems(ks), w)
}

/// `on_track` for going on at `node` within factor `fi`.
spec fn r_track(ctx: &Ctx, sub: Map<u32, TermV>, slots: Seq<u32>, fresh: int, th: Map<u32, TermV>, ks: Seq<Frame>, fi: int, node: int,
    w: Seq<u8>) -> bool {
    on_track(ctx, sub, slots, fresh, th, Set::<u32>::empty(), ks, fi + 1, node, pitems(ks), w)
}

/// On the path `w` of `th` a stored wildcard captures the structured query term `q`, and the
/// bytes after it spell the pending query terms.
spec fn capd(ctx: &Ctx, slots: Seq<u32>, th: Map<u32, TermV>, q: TermV, ks: Seq<Frame>, w: Seq<u8>) -> bool {
    let k = (64 - slots.len()) as nat;
    &&& capm(ctx, th)
    &&& k > 0
    &&& !(q is Var)
    &&& ground(q)
    &&& shape_ok(q)
    &&& w.len() > 0
    &&& w[0] == 0xC0u8
    &&& crel(capm(ctx, th), pitems(ks), th, w.subrange(1, w.len() as int), (k - 1) as nat)
}

/// The image of a compound whose variables go to ground terms is encoded as its arity byte
/// followed by the encodings of its arguments' images, and each argument is fine under `th`.
proof fn lemma_app_track(th: Map<u32, TermV>, a: Seq<TermV>, q: TermV, head: u8)
    requires
        q == TermV::App(a),
        term_ok(th, q),
        head == (0x00u8 | (a.len() as u8)),
    ensures
        encoding(subst(th, q)) == seq![head] + cat_enc(mapped(a, th)),
        forall|j: int| 0 <= j < a.len() ==> term_ok(th, #[trigger] a[j]),
{
    let m = mapped(a, th);
    lemma_subst_app(th, a);
    assert(subst(th, q) == TermV::App(m));
    lemma_fv_all(a, a.len());
    assert forall|j: int| 0 <= j < m.len() implies #[trigger] ground(m[j]) by {
        assert forall|v: u32| fv(a[j]).contains(v) implies ground(#[trigger] tv(th, v)) by {
            assert(fv_all(a, a.len()).contains(v));
            assert(fv(q).contains(v));
            assert(okv(th, v));
        }
        lemma_image_ground(th, a[j]);
    }
    lemma_ground_enc_seq(m, Seq::empty());
    lemma_shape_all(m, m.len());
    lemma_tag_or(a.len() as u8);
    assert forall|j: int| 0 <= j < a.len() implies term_ok(th, #[trigger] a[j]) by {
        assert(shape_ok(m[j]));
        assert forall|v: u32| #[trigger] fv(a[j]).contains(v) implies okv(th, v) by {
            assert(fv_all(a, a.len()).contains(v));
            assert(fv(q).contains(v));
        }
    }
}

/// A term whose variables all go to ground terms has a ground image.
proof fn lemma_image_ground(th: Map<u32, TermV>, t: TermV)
    requires
        forall|v: u32| fv(t).contains(v) ==> ground(#[trigger] tv(th, v)),
    ensures
        ground(subst(th, t)),
{
    lemma_fv_subst(th, t);
    assert forall|u: u32| !#[trigger] fv(subst(th, t)).contains(u) by {
        if fv(subst(th, t)).contains(u) {
            let w = choose|w: u32| fv(t).contains(w) && vimg(th, w, u);
            assert(ground(tv(th, w)));
            if th.contains_key(w) {
                lemma_ground_fv(th[w]);
            }
        }
    }
    if !ground(subst(th, t)) {
        lemma_not_ground_fv(subst(th, t));
    }
}

/// A variable of a term with a ground, well-shaped image goes to a ground, well-shaped term.
proof fn lemma_image_parts(th: Map<u32, TermV>, t: TermV, v: u32)
    requires
        ground(subst(th, t)),
        shape_ok(subst(th, t)),
        fv(t).contains(v),
    ensures
        okv(th, v),
    decreases t,
{
    match t {
        TermV::Var(w) => {}
        TermV::Sym(_) => {}
        TermV::App(a) => {
            lemma_subst_app(th, a);
            lemma_fv_all(a, a.len());
            assert(fv_all(a, a.len()).contains(v));
            let i = choose|i: int| 0 <= i < a.len() && #[trigger] fv(a[i]).contains(v);
            let b = Seq::new(a.len(), |j: int| subst(th, a[j]));
            lemma_ground_all(b, b.len());
            lemma_shape_all(b, b.len());
            assert(b[i] == subst(th, a[i]));
            lemma_image_parts(th, a[i], v);
        }
    }
}

/// A ground term is its own image.
proof fn lemma_ground_image(s: Map<u32, TermV>, t: TermV)
    requires
        ground(t),
    ensures
        subst(s, t) == t,
{
    lemma_ground_fv(t);
    lemma_subst_noop(s, t);
}

/// Binding the unresolved variable `x` to its ground image under `th` is possible from `sub`.
proof fn lemma_bind_possible(sub: Map<u32, TermV>, th: Map<u32, TermV>, x: u32, t: TermV)
    requires
        agrees_on(sub, th),
        subst(sub, TermV::Var(x)) == TermV::Var(x),
        ground(t),
    ensures
        instance_of(sub.insert(x, t), sub),
        subst(sub.insert(x, t), TermV::Var(x)) == subst(sub.insert(x, t), t),
{
    let th2 = sub.insert(x, t);
    lemma_ground_image(th2, t);
    assert forall|u: u32| #[trigger] sub.contains_key(u) implies subst(th2, sub[u]) == subst(th2, TermV::Var(u)) by {
        assert(subst(sub, TermV::Var(u)) == sub[u]);
        if sub[u] != TermV::Var(u) {
            assert(ground(sub[u]));
            lemma_ground_image(th2, sub[u]);
            assert(u != x);
        }
    }
}

/// A term whose image is a variable is a variable.
proof fn lemma_image_var(m: Map<u32, TermV>, t: TermV, v: u32)
    requires
        subst(m, t) == TermV::Var(v),
    ensures
        t is Var,
{
}

/// A most general step that binds the unresolved `x` to a ground term (its image under `th`
/// where `th` binds it) keeps the substitution agreeing with `th`, keeps what was resolved,
/// and resolves `x`.
proof fn lemma_bind_agrees(sub: Map<u32, TermV>, sub2: Map<u32, TermV>, th: Map<u32, TermV>, x: u32, t: TermV)
    requires
        agrees_on(sub, th),
        subst(sub, TermV::Var(x)) == TermV::Var(x),
        ground(t),
        t == tv(th, x) || !th.contains_key(x),
        subst(sub2, TermV::Var(x)) == subst(sub2, t),
        instance_of(sub2, sub),
        instance_of(sub.insert(x, t), sub2),
    ensures
        agrees_on(sub2, th),
        subst(sub2, TermV::Var(x)) == t,
        forall|v: u32| subst(sub, TermV::Var(v)) == tv(th, v) && ground(tv(th, v))
            ==> #[trigger] subst(sub2, TermV::Var(v)) == tv(th, v),
{
    lemma_ground_image(sub2, t);
    assert forall|v: u32| subst(sub, TermV::Var(v)) == tv(th, v) && ground(tv(th, v))
        implies #[trigger] subst(sub2, TermV::Var(v)) == tv(th, v) by {
        lemma_instance_absorbs(sub2, sub, TermV::Var(v));
        lemma_ground_image(sub2, tv(th, v));
    }
    assert forall|v: u32| #[trigger] subst(sub2, TermV::Var(v)) == TermV::Var(v)
        || (ground(subst(sub2, TermV::Var(v))) && (subst(sub2, TermV::Var(v)) == tv(th, v) || !th.contains_key(v))) by {
        if v == x {
        } else if subst(sub, TermV::Var(v)) != TermV::Var(v) {
            lemma_instance_absorbs(sub2, sub, TermV::Var(v));
            lemma_ground_image(sub2, subst(sub, TermV::Var(v)));
        } else {
            lemma_stays_unbound(sub, sub2, th, x, t, v);
        }
    }
}

/// A variable left unbound by `sub`, other than `x`, stays unbound after a most general step
/// that binds `x` to a ground term.
proof fn lemma_stays_unbound(sub: Map<u32, TermV>, sub2: Map<u32, TermV>, th: Map<u32, TermV>, x: u32, t: TermV, v: u32)
    requires
        agrees_on(sub, th),
        ground(t),
        instance_of(sub.insert(x, t), sub2),
        v != x,
        subst(sub, TermV::Var(v)) == TermV::Var(v),
    ensures
        subst(sub2, TermV::Var(v)) == TermV::Var(v),
{
    let th2 = sub.insert(x, t);
    let xx = subst(sub2, TermV::Var(v));
    lemma_instance_absorbs(th2, sub2, TermV::Var(v));
    assert(subst(th2, TermV::Var(v)) == TermV::Var(v)) by {
        if sub.contains_key(v) {
            assert(sub[v] == TermV::Var(v));
        }
    }
    lemma_image_var(th2, xx, v);
    let u = xx->Var_0;
    if u != v {
        assert(subst(th2, TermV::Var(u)) == TermV::Var(v));
        if u == x {
        } else if sub.contains_key(u) {
            assert(subst(sub, TermV::Var(u)) == sub[u]);
            if sub[u] != TermV::Var(u) {
                assert(ground(subst(sub, TermV::Var(u))));
            }
        }
    }
}

/// A most general step that binds `x`, below `fresh`, to a ground term leaves the ids from
/// `fresh` on unbound.
proof fn lemma_fresh_keep(sub: Map<u32, TermV>, sub2: Map<u32, TermV>, th: Map<u32, TermV>, x: u32, t: TermV, fresh: int)
    requires
        agrees_on(sub, th),
        fresh_unbound(sub, fresh),
        x < fresh,
        ground(t),
        instance_of(sub.insert(x, t), sub2),
    ensures
        fresh_unbound(sub2, fresh),
{
    assert forall|v: u32| v >= fresh implies #[trigger] subst(sub2, TermV::Var(v)) == TermV::Var(v) by {
        assert(subst(sub, TermV::Var(v)) == TermV::Var(v));
        lemma_stays_unbound(sub, sub2, th, x, t, v);
    }
}

/// The encodings of two lists one after the other.
proof fn lemma_cat_enc_app(x: Seq<TermV>, y: Seq<TermV>)
    ensures
        cat_enc(x + y) == cat_enc(x) + cat_enc(y),
    decreases x.len(),
{
    if x.len() == 0 {
        assert(x + y =~= y);
        assert(cat_enc(x) + cat_enc(y) =~= cat_enc(y));
    } else {
        let x1 = x.subrange(1, x.len() as int);
        lemma_cat_enc_app(x1, y);
        assert((x + y).subrange(1, (x + y).len() as int) =~= x1 + y);
        assert((x + y)[0] == x[0]);
        assert(cat_enc(x + y) == encoding(x[0]) + cat_enc(x1 + y));
        assert(encoding(x[0]) + (cat_enc(x1) + cat_enc(y)) =~= (encoding(x[0]) + cat_enc(x1)) + cat_enc(y));
    }
}

/// A pattern of an instance, stored exactly or up to captures, has a path in the trie that
/// its image follows.
proof fn lemma_factor_path(ctx: &Ctx, q: &Conj, trie: ByteTrie, th: Map<u32, TermV>, capture: bool, j: int)
    requires
        *ctx.trie == trie,
        ctx.factors == &q.patterns,
        ctx.query_vars == &q.query_vars,
        0 <= j < q.patterns@.len(),
        stored_instance(q, trie, th) || (cap_instance(q, trie, th, capture) && capm(ctx, th) == capture),
    ensures
        term_ok(th, ctx.factors@[j]@),
        exists|w: Seq<u8>| #[trigger] crel(capm(ctx, th), seq![ctx.factors@[j]@], th, w, 64) && ctx.trie.walk_from(0, w) is Some,
{
    let f = ctx.factors@[j]@;
    assert(q.patterns@[j] == ctx.factors@[j]);
    if stored_instance(q, trie, th) {
        lemma_crel_prefix(capm(ctx, th), seq![f], Seq::<TermV>::empty(), th, Seq::<u8>::empty(), 64);
        assert(seq![f] + Seq::<TermV>::empty() =~= seq![f]);
        assert(mapped(seq![f], th) =~= seq![subst(th, f)]);
        lemma_cat_enc_one(subst(th, f));
        let w = encoding(subst(th, f));
        assert(w + Seq::<u8>::empty() =~= w);
        assert(crel(capm(ctx, th), seq![f], th, w, 64));
    } else {
        let w = choose|w: Seq<u8>| #[trigger] crel(capture, seq![q.patterns@[j]@], th, w, 64) && trie.walk_from(0, w) is Some;
        assert(crel(capm(ctx, th), seq![f], th, w, 64));
    }
}

/// The encodings of a list of one term are that term's encoding.
proof fn lemma_cat_enc_one(t: TermV)
    ensures
        cat_enc(seq![t]) == encoding(t),
{
    assert(seq![t].subrange(1, 1) =~= Seq::<TermV>::empty());
    assert(cat_enc(Seq::<TermV>::empty()) =~= Seq::<u8>::empty());
    assert(encoding(t) + Seq::<u8>::empty() =~= encoding(t));
}

/// Query terms whose images are followed by bytes that spell the rest: their images' encodings
/// then those bytes spell the whole list.
proof fn lemma_crel_prefix(cap: bool, pre: Seq<TermV>, rest: Seq<TermV>, th: Map<u32, TermV>, w2: Seq<u8>, k: nat)
    requires
        forall|i: int| 0 <= i < pre.len() ==> term_ok(th, #[trigger] pre[i]),
        crel(cap, rest, th, w2, k),
    ensures
        crel(cap, pre + rest, th, cat_enc(mapped(pre, th)) + w2, k),
    decreases cat_enc(mapped(pre, th)).len(),
{
    let items = pre + rest;
    let w = cat_enc(mapped(pre, th)) + w2;
    if pre.len() == 0 {
        assert(items =~= rest);
        assert(mapped(pre, th) =~= Seq::<TermV>::empty());
        assert(w =~= w2);
    } else {
        let p = pre[0];
        let pre1 = pre.subrange(1, pre.len() as int);
        let m = mapped(pre, th);
        assert(m.subrange(1, m.len() as int) =~= mapped(pre1, th));
        assert(m[0] == subst(th, p));
        assert(cat_enc(m) == encoding(subst(th, p)) + cat_enc(mapped(pre1, th)));
        assert(items[0] == p);
        assert(items.subrange(1, items.len() as int) =~= pre1 + rest);
        assert(term_ok(th, p));
        assert forall|i: int| 0 <= i < pre1.len() implies term_ok(th, #[trigger] pre1[i]) by {
            assert(pre1[i] == pre[i + 1]);
        }
        match p {
            TermV::App(a) => {
                let head = 0x00u8 | (a.len() as u8);
                lemma_app_track(th, a, p, head);
                let a2 = a + pre1;
                assert forall|i: int| 0 <= i < a2.len() implies term_ok(th, #[trigger] a2[i]) by {
                    if i < a.len() {
                        assert(a2[i] == a[i]);
                    } else {
                        assert(a2[i] == pre1[i - a.len()]);
                    }
                }
                assert(mapped(a2, th) =~= mapped(a, th) + mapped(pre1, th));
                lemma_cat_enc_app(mapped(a, th), mapped(pre1, th));
                lemma_crel_prefix(cap, a2, rest, th, w2, k);
                assert(w =~= seq![head] + (cat_enc(mapped(a2, th)) + w2));
                assert(w[0] == head);
                assert(w.subrange(1, w.len() as int) =~= cat_enc(mapped(a2, th)) + w2);
                assert(a + (pre1 + rest) =~= a2 + rest);
            },
            _ => {
                let e = encoding(subst(th, p));
                crate::term::lemma_enc_len_pos(subst(th, p), Seq::empty());
                lemma_crel_prefix(cap, pre1, rest, th, w2, k);
                assert(w =~= e + (cat_enc(mapped(pre1, th)) + w2));
                assert(w.subrange(0, e.len() as int) =~= e);
                assert(w.subrange(e.len() as int, w.len() as int) =~= cat_enc(mapped(pre1, th)) + w2);
                if p is Sym {
                    assert(subst(th, p) == p);
                }
            },
        }
    }
}

/// A stored wildcard at `node` that captures `q` on the path of `th` leads on to `child` with
/// the search still on that path: `q` bound to the fresh id, the id added to the slots.
proof fn lemma_capture_track(ctx: &Ctx, sub0: Map<u32, TermV>, sub2: Map<u32, TermV>, slots: Seq<u32>, fresh: int, dv: u32,
    th: Map<u32, TermV>, q: TermV, ks: Seq<Frame>, fi: int, node: int, child: int, w: Seq<u8>)
    requires
        m_track(ctx, sub0, slots, fresh, th, q, ks, fi, node, w),
        capd(ctx, slots, th, q, ks, w),
        ctx.base <= fresh,
        dv == fresh,
        child == ctx.trie.step_to(node, 0xC0u8).unwrap(),
        subst(sub2, TermV::Var(dv)) == subst(sub2, q),
        instance_of(sub2, sub0),
        instance_of(sub0.insert(dv, q), sub2),
    ensures
        r_track(ctx, sub2, slots.push(dv), fresh + 1, th, ks, fi, child, w.subrange(1, w.len() as int)),
{
    let w1 = w.subrange(1, w.len() as int);
    let slots2 = slots.push(dv);
    let qv = ctx.query_vars@;
    assert(fresh_unbound(sub0, fresh));
    assert(subst(sub0, TermV::Var(dv)) == TermV::Var(dv));
    assert(!th.contains_key(dv));
    lemma_ground_fv(q);
    lemma_bind_agrees(sub0, sub2, th, dv, q);
    lemma_fresh_keep(sub0, sub2, th, dv, q, fresh + 1);
    assert forall|x: int| 0 <= x < qv.len() implies subst(sub2, TermV::Var(#[trigger] qv[x])) == tv(th, qv[x])
        || Set::<u32>::empty().contains(qv[x]) || pend_var(ks, qv[x]) || later_var(ctx, fi + 1, qv[x]) by {
        let v = qv[x];
        assert(v < ctx.base);
        if subst(sub0, TermV::Var(v)) == tv(th, v) {
            if subst(sub0, TermV::Var(v)) == TermV::Var(v) {
                lemma_stays_unbound(sub0, sub2, th, dv, q, v);
            } else {
                assert(ground(subst(sub0, TermV::Var(v))));
            }
        } else {
            assert(!fv(q).contains(v));
        }
    }
    assert forall|i: int, j: int| 0 <= i < slots2.len() && 0 <= j < slots2.len() && i != j implies slots2[i] != slots2[j] by {
        if i < slots.len() && j < slots.len() {
        } else if i < slots.len() {
            assert(slots[i] < fresh);
        } else {
            assert(slots[j] < fresh);
        }
    }
    assert(slots2.no_duplicates());
    assert(w =~= seq![0xC0u8] + w1);
    ctx.trie.lemma_walk_cons(node, 0xC0u8, w1);
    assert((64 - slots2.len()) as nat == ((64 - slots.len()) as nat - 1) as nat);
}

/// On a path that spells a query variable and then the pending terms, the variable's image is
/// stored first and the pending terms follow.
proof fn lemma_var_step(ctx: &Ctx, th: Map<u32, TermV>, q: TermV, p: Seq<TermV>, w: Seq<u8>, k: nat)
    requires
        q is Var,
        crel(capm(ctx, th), seq![q] + p, th, w, k),
    ensures
        ({
            let e = encoding(subst(th, q));
            let w2 = w.subrange(e.len() as int, w.len() as int);
            &&& 0 < e.len() <= w.len()
            &&& w == e + w2
            &&& crel(capm(ctx, th), p, th, w2, k)
            &&& forall|n: int| ctx.trie.walk_from(n, w) == match ctx.trie.walk_from(n, e) {
                Some(m) => ctx.trie.walk_from(m, w2),
                None => None,
            }
        }),
{
    let items = seq![q] + p;
    assert(items[0] == q);
    assert(items.subrange(1, items.len() as int) =~= p);
    let e = encoding(subst(th, q));
    let w2 = w.subrange(e.len() as int, w.len() as int);
    assert(w =~= e + w2);
    assert forall|n: int| ctx.trie.walk_from(n, w) == match ctx.trie.walk_from(n, e) {
        Some(m) => ctx.trie.walk_from(m, w2),
        None => None,
    } by {
        ctx.trie.lemma_walk_append(n, e, w2);
    }
}

/// On a path that spells a structured query term and then the pending terms, without a
/// wildcard capturing it: a symbol is stored whole first, a compound's arity byte comes first
/// and its arguments and the pending terms follow.
proof fn lemma_struct_step(cap: bool, q: TermV, p: Seq<TermV>, th: Map<u32, TermV>, w: Seq<u8>, k: nat)
    requires
        crel(cap, seq![q] + p, th, w, k),
        !(q is Var),
        !(cap && k > 0 && ground(q) && shape_ok(q) && w.len() > 0 && w[0] == 0xC0u8
            && crel(cap, p, th, w.subrange(1, w.len() as int), (k - 1) as nat)),
    ensures
        w.len() > 0,
        q is Sym ==> ({
            let e = encoding(q);
            let w2 = w.subrange(e.len() as int, w.len() as int);
            &&& 0 < e.len() <= w.len()
            &&& w == e + w2
            &&& crel(cap, p, th, w2, k)
        }),
        q matches TermV::App(a) ==> w[0] == (0x00u8 | (a.len() as u8)) && crel(cap, a + p, th, w.subrange(1, w.len() as int), k),
{
    let items = seq![q] + p;
    assert(items[0] == q);
    assert(items.subrange(1, items.len() as int) =~= p);
    if q is Sym {
        let e = encoding(q);
        let w2 = w.subrange(e.len() as int, w.len() as int);
        assert(w =~= e + w2);
    }
}

/// Once every factor is matched and nothing is pending, every query variable is resolved to
/// its image: the answer tuple is that of `th`.
proof fn lemma_tuples_meet(ctx: &Ctx, sub: Map<u32, TermV>, th: Map<u32, TermV>, from: int)
    requires
        from >= ctx.factors@.len(),
        covered(sub, th, Set::<u32>::empty(), Seq::<Frame>::empty(), ctx, from),
    ensures
        tuple_of(sub, ctx.query_vars@) == tuple_of(th, ctx.query_vars@),
{
    let qv = ctx.query_vars@;
    assert forall|k: int| 0 <= k < qv.len() implies subst(sub, TermV::Var(qv[k])) == subst(th, TermV::Var(qv[k])) by {
        assert(!later_var(ctx, from, qv[k]));
        assert(!pend_var(Seq::<Frame>::empty(), qv[k]));
    }
    assert(tuple_of(sub, qv)->App_0 =~= tuple_of(th, qv)->App_0);
}

/// Pushing onto a list keeps what it held and adds the new item.
proof fn lemma_push_keeps(v: Seq<Vec<u8>>, x: Vec<u8>)
    ensures
        forall|y: Vec<u8>| v.contains(y) ==> #[trigger] v.push(x).contains(y),
        v.push(x).contains(x),
{
    assert(v.push(x)[v.len() as int] == x);
    assert forall|y: Vec<u8>| v.contains(y) implies #[trigger] v.push(x).contains(y) by {
        let i = choose|i: int| 0 <= i < v.len() && v[i] == y;
        assert(v.push(x)[i] == y);
    }
}

/// A failed or undone attempt leaves the environment it started from; rolling back to the mark
/// taken there restores it.
proof fn lemma_undo(e1: Env, e2: Env, e3: Env)
    requires
        e1.wf(),
        extends(e2, e1),
        e3.trail_seq() == e2.trail_seq().take(e1.trail_seq().len() as int),
        e3.frames() == e2.frames().take(e1.trail_seq().len() + 1 as int),
    ensures
        e3.trail_seq() == e1.trail_seq(),
        e3.frames() == e1.frames(),
{
    law_rollback_restores(e1, e2, e3);
}

/// An environment extends itself.
proof fn lemma_extends_refl(e: Env)
    ensures
        extends(e, e),
{
    assert(e.trail_seq().take(e.trail_seq().len() as int) =~= e.trail_seq());
    assert(e.frames().take(e.frames().len() as int) =~= e.frames());
}

/// The conjunctive driver: match factor `fi` against the whole trie, and on each full match go
/// on to the next factor under the shared substitution; record the answer at the end. The
/// slots are per fact: a factor starts with none and the caller's are restored. The
/// substitution is restored and answers are only added; past the last factor exactly the
/// current answer is added (when it can be encoded); and for every substitution `th` that the
/// current one agrees with, under which the remaining factors have ground images stored
/// whole, up to captures of ground structured subterms by stored wildcards, the answer of
/// `th` is among the answers.
fn solve(ctx: &Ctx, st: &mut State, fi: usize, Ghost(lim): Ghost<int>)
    requires
        old(st).env.wf(),
        ctx.trie.wf(),
        fi <= ctx.factors@.len(),
        old(st).fresh <= lim,
        lim + ctx.trie.size() * (ctx.factors@.len() - fi) <= u32::MAX,
        ctx.base <= old(st).fresh,
    ensures
        final(st).env.wf(),
        final(st).fresh == old(st).fresh,
        final(st).slots@ == old(st).slots@,
        final(st).env.trail_seq() == old(st).env.trail_seq(),
        final(st).env.frames() == old(st).env.frames(),
        forall|x: Vec<u8>| old(st).out@.contains(x) ==> #[trigger] final(st).out@.contains(x),
        fi < ctx.factors@.len() && ctx.trie.labels(0).len() == 0 ==> final(st).out@ == old(st).out@,
        final(st).out@ != old(st).out@ ==> later_comp(ctx, fi as int),
        fi == ctx.factors@.len() ==> forall|x: Vec<u8>| #[trigger] final(st).out@.contains(x)
            ==> old(st).out@.contains(x) || (x@ == key_of(old(st).env.sub(), ctx.query_vars@)
                && encodable(tuple_of(old(st).env.sub(), ctx.query_vars@))),
        forall|th: Map<u32, TermV>| #![trigger key_of(th, ctx.query_vars@)]
            on_track(ctx, old(st).env.sub(), Seq::<u32>::empty(), old(st).fresh as int, th, Set::<u32>::empty(), Seq::<Frame>::empty(),
                fi as int, 0, Seq::<TermV>::empty(), Seq::<u8>::empty())
            ==> has_key(final(st).out@, key_of(th, ctx.query_vars@)),
    decreases ctx.factors@.len() - fi, ctx.trie.size() + 1, 0int, 0int,
{
    if fi == ctx.factors.len() {
        let t = answer_tuple(&st.env, ctx.query_vars);
        if t.is_encodable() {
            let key = t.encode();
            proof {
                lemma_push_keeps(st.out@, key);
            }
            let ghost o0 = st.out@;
            st.out.push(key);
            proof {
                assert(st.out@[st.out@.len() - 1]@ == key_of(old(st).env.sub(), ctx.query_vars@));
                assert forall|x: Vec<u8>| #[trigger] st.out@.contains(x) implies o0.contains(x) || (x@ == key_of(old(st).env.sub(), ctx.query_vars@)
                    && encodable(tuple_of(old(st).env.sub(), ctx.query_vars@))) by {
                    let i = choose|i: int| 0 <= i < st.out@.len() && st.out@[i] == x;
                    if i < o0.len() {
                        assert(o0[i] == x);
                    }
                }
                assert(has_key(st.out@, key_of(old(st).env.sub(), ctx.query_vars@)));
            }
        }
        proof {
            let sub = old(st).env.sub();
            assert forall|th: Map<u32, TermV>| #![trigger key_of(th, ctx.query_vars@)]
                on_track(ctx, sub, Seq::<u32>::empty(), old(st).fresh as int, th, Set::<u32>::empty(), Seq::<Frame>::empty(), fi as int, 0,
                    Seq::<TermV>::empty(), Seq::<u8>::empty())
                implies has_key(st.out@, key_of(th, ctx.query_vars@)) by {
                lemma_tuples_meet(ctx, sub, th, fi as int);
            }
        }
        return;
    }
    let mut saved: Vec<u32> = Vec::new();
    std::mem::swap(&mut saved, &mut st.slots);
    let factor = ctx.factors[fi].clone();
    let mut ks: Vec<Frame> = Vec::new();
    proof {
        lemma_room(ctx.trie.size() as int, ctx.factors@.len() - fi);
        ctx.trie.lemma_size_pos();
        assert(state_ok(ctx, st, fi as int, 0, lim));
    }
    let ghost sub0 = st.env.sub();
    let ghost sl0 = st.slots@;
    proof {
        assert(sl0.len() == 0);
    }
    let ghost out0 = st.out@;
    match_subterm(ctx, st, &factor, 0, &mut ks, fi, Ghost(lim));
    std::mem::swap(&mut saved, &mut st.slots);
    proof {
        if st.out@ != out0 {
            lemma_comp_gen(ctx, sub0, seq![factor@] + pitems(Seq::<Frame>::empty()), 0);
            assert(seq![factor@] + pitems(Seq::<Frame>::empty()) =~= seq![factor@]);
            assert(factor@ == ctx.factors@[fi as int]@);
            assert forall|j: int| fi <= j < ctx.factors@.len() implies #[trigger] comp_from(ctx, seq![ctx.factors@[j]@], 0) by {
                if j > fi {
                    assert(later_comp(ctx, fi + 1));
                }
            }
        }
    }
    proof {
        let f = ctx.factors@[fi as int]@;
        assert(factor@ == f);
        assert forall|th: Map<u32, TermV>| #![trigger key_of(th, ctx.query_vars@)]
            on_track(ctx, sub0, Seq::<u32>::empty(), old(st).fresh as int, th, Set::<u32>::empty(), Seq::<Frame>::empty(), fi as int, 0,
                Seq::<TermV>::empty(), Seq::<u8>::empty())
            implies has_key(st.out@, key_of(th, ctx.query_vars@)) by {
            assert(term_ok(th, f));
            let w = choose|w: Seq<u8>| #[trigger] crel(capm(ctx, th), seq![f], th, w, 64) && ctx.trie.walk_from(0, w) is Some;
            assert(later_ok(ctx, fi + 1, th));
            assert(covered(sub0, th, fv(f), Seq::<Frame>::empty(), ctx, fi + 1)) by {
                assert forall|x: int| 0 <= x < ctx.query_vars@.len() implies subst(sub0, TermV::Var(#[trigger] ctx.query_vars@[x])) == tv(th, ctx.query_vars@[x])
                    || fv(f).contains(ctx.query_vars@[x]) || pend_var(Seq::<Frame>::empty(), ctx.query_vars@[x])
                    || later_var(ctx, fi + 1, ctx.query_vars@[x]) by {
                    let v = ctx.query_vars@[x];
                    if later_var(ctx, fi as int, v) {
                        let j = choose|j: int| fi <= j < ctx.factors@.len() && #[trigger] fv(ctx.factors@[j]@).contains(v);
                        if j > fi {
                            assert(later_var(ctx, fi + 1, v));
                        }
                    }
                }
            }
            assert(ks@ == Seq::<Frame>::empty());
            assert(seq![f] + pitems(ks@) =~= seq![f]);
            assert(m_track(ctx, sub0, sl0, old(st).fresh as int, th, f, ks@, fi as int, 0, w));
        }
    }
}

/// Go on after a matched subterm at `node`: match the next pending argument, or when no
/// argument is pending the factor is matched and the next factor starts. The substitution is
/// restored and answers are only added; and for every substitution `th` that the current one
/// agrees with, under which the pending arguments and the later factors have ground images
/// stored in turn from `node` (up to captures), the answer of `th` is among the answers.
fn resume(ctx: &Ctx, st: &mut State, node: usize, ks: &mut Vec<Frame>, fi: usize, Ghost(lim): Ghost<int>)
    requires
        state_ok(ctx, old(st), fi as int, node as int, lim),
    ensures
        final(st).env.wf(),
        final(st).fresh == old(st).fresh,
        final(st).slots@ == old(st).slots@,
        final(ks)@ == old(ks)@,
        final(st).env.trail_seq() == old(st).env.trail_seq(),
        final(st).env.frames() == old(st).env.frames(),
        forall|x: Vec<u8>| old(st).out@.contains(x) ==> #[trigger] final(st).out@.contains(x),
        forall|th: Map<u32, TermV>, w: Seq<u8>|
            #[trigger] r_track(ctx, old(st).env.sub(), old(st).slots@, old(st).fresh as int, th, old(ks)@, fi as int, node as int, w)
            ==> has_key(final(st).out@, key_of(th, ctx.query_vars@)),
        final(st).out@ != old(st).out@ ==> comp_from(ctx, substs(old(st).env.sub(), pitems(old(ks)@)), node as int) && later_comp(ctx, fi + 1),
    decreases ctx.factors@.len() - fi, ctx.trie.size() - node, 2int, old(ks)@.len(),
{
    if ks.len() == 0 {
        proof {
            lemma_room(ctx.trie.size() as int, ctx.factors@.len() - fi);
            assert(ctx.factors@.len() == ctx.factors.len());
        }
        let ghost sub0 = st.env.sub();
        solve(ctx, st, fi + 1, Ghost(lim + ctx.trie.size()));
        proof {
            ctx.trie.lemma_walk_push(node as int, Seq::<u8>::empty(), 0u8);
            assert(pitems(old(ks)@) =~= Seq::<TermV>::empty()) by {
                assert(old(ks)@ =~= Seq::<Frame>::empty());
            }
            assert(substs(old(st).env.sub(), pitems(old(ks)@)) =~= Seq::<TermV>::empty());
            assert(scomp(ctx.capture, Seq::<TermV>::empty(), Seq::<u8>::empty(), Seq::<nat>::empty()));
            ctx.trie.lemma_size_pos();
            ctx.trie.lemma_walk_push(0, Seq::<u8>::empty(), 0u8);
            ctx.trie.lemma_walk_push(node as int, Seq::<u8>::empty(), 0u8);
            assert(old(ks)@ =~= Seq::<Frame>::empty());
            assert forall|th: Map<u32, TermV>, w: Seq<u8>|
                #[trigger] r_track(ctx, sub0, old(st).slots@, old(st).fresh as int, th, old(ks)@, fi as int, node as int, w)
                implies has_key(st.out@, key_of(th, ctx.query_vars@)) by {
                assert(pitems(old(ks)@) =~= Seq::<TermV>::empty());
                assert(w.len() == 0);
                assert(crel(capm(ctx, th), Seq::<TermV>::empty(), th, Seq::<u8>::empty(), 64));
                assert(slots_ok(Seq::<u32>::empty(), old(st).fresh as int));
                assert(on_track(ctx, sub0, Seq::<u32>::empty(), old(st).fresh as int, th, Set::<u32>::empty(), Seq::<Frame>::empty(),
                    fi + 1, 0, Seq::<TermV>::empty(), Seq::<u8>::empty()));
            }
        }
        return;
    }
    let top = match ks.pop() {
        Some(f) => f,
        None => {
            return;
        },
    };
    let ghost k1 = ks@;
    proof {
        assert(k1 == old(ks)@.drop_last());
        assert(top == old(ks)@.last());
    }
    if top.next >= top.args.len() {
        proof {
            let a = views(top.args@);
            if top.next == a.len() {
                assert(a.subrange(top.next as int, a.len() as int) =~= Seq::<TermV>::empty());
            }
        }
        let ghost sub0 = st.env.sub();
        resume(ctx, st, node, ks, fi, Ghost(lim));
        proof {
            let a = views(top.args@);
            if top.next == a.len() {
                assert(a.subrange(top.next as int, a.len() as int) =~= Seq::<TermV>::empty());
            }
            assert(pitems(old(ks)@) =~= pitems(k1));
            assert forall|th: Map<u32, TermV>, w: Seq<u8>|
                #[trigger] r_track(ctx, sub0, old(st).slots@, old(st).fresh as int, th, old(ks)@, fi as int, node as int, w)
                implies has_key(st.out@, key_of(th, ctx.query_vars@)) by {
                if top.next == a.len() {
                    assert(a.subrange(top.next as int, a.len() as int) =~= Seq::<TermV>::empty());
                }
                assert(pitems(old(ks)@) =~= pitems(k1));
                assert forall|ii: int, j: int| 0 <= ii < k1.len() && k1[ii].next <= j < k1[ii].args@.len()
                    implies term_ok(th, #[trigger] k1[ii].args@[j]@) by {
                    assert(k1[ii] == old(ks)@[ii]);
                }
                assert forall|x: int| 0 <= x < ctx.query_vars@.len() implies subst(sub0, TermV::Var(#[trigger] ctx.query_vars@[x])) == tv(th, ctx.query_vars@[x])
                    || Set::<u32>::empty().contains(ctx.query_vars@[x]) || pend_var(k1, ctx.query_vars@[x])
                    || later_var(ctx, fi + 1, ctx.query_vars@[x]) by {
                    let v = ctx.query_vars@[x];
                    if pend_var(old(ks)@, v) {
                        let (ii, j) = choose|ii: int, j: int| 0 <= ii < old(ks)@.len() && old(ks)@[ii].next <= j < old(ks)@[ii].args@.len()
                            && #[trigger] fv(old(ks)@[ii].args@[j]@).contains(v);
                        assert(ii < k1.len());
                        assert(k1[ii] == old(ks)@[ii]);
                    }
                }
                assert(r_track(ctx, sub0, old(st).slots@, old(st).fresh as int, th, k1, fi as int, node as int, w));
            }
        }
        ks.push(top);
        proof {
            assert(ks@ =~= old(ks)@);
        }
        return;
    }
    let i = top.next;
    let arg = top.args[i].clone();
    let ghost targs = top.args@;
    ks.push(Frame { args: top.args, next: i + 1 });
    proof {
        let a = views(targs);
        let n = ks@.len() - 1;
        assert(ks@[n].args@ == targs);
        assert(ks@.drop_last() =~= k1);
        assert(arg@ == a[i as int]);
    }
    let ghost ks2 = ks@;
    let ghost sub0 = st.env.sub();
    match_subterm(ctx, st, &arg, node, ks, fi, Ghost(lim));
    proof {
        let a = views(targs);
        assert(ks2[k1.len() as int].args@ == targs);
        assert(ks2.drop_last() =~= k1);
        assert(pitems(ks2) == a.subrange(i + 1, a.len() as int) + pitems(k1));
        assert(pitems(old(ks)@) == a.subrange(i as int, a.len() as int) + pitems(k1));
        assert(seq![arg@] + pitems(ks2) =~= pitems(old(ks)@));
        assert(sub0 == old(st).env.sub());
    }
    proof {
        let a = views(targs);
        let n = k1.len() as int;
        let nn = a.len() as int;
        assert forall|th: Map<u32, TermV>, w: Seq<u8>|
            #[trigger] r_track(ctx, sub0, old(st).slots@, old(st).fresh as int, th, old(ks)@, fi as int, node as int, w)
            implies has_key(st.out@, key_of(th, ctx.query_vars@)) by {
            assert(ks2[n].args@ == targs);
            assert(ks2.drop_last() =~= k1);
            assert(pitems(ks2) == a.subrange(i + 1, nn) + pitems(k1));
            assert(pitems(old(ks)@) == a.subrange(i as int, nn) + pitems(k1));
            assert(seq![arg@] + pitems(ks2) =~= pitems(old(ks)@));
            assert(old(ks)@[n].args@ == targs);
            assert(old(ks)@[n].next == i);
            assert(term_ok(th, old(ks)@[n].args@[i as int]@));
            assert forall|ii: int, j: int| 0 <= ii < ks2.len() && ks2[ii].next <= j < ks2[ii].args@.len()
                implies term_ok(th, #[trigger] ks2[ii].args@[j]@) by {
                if ii < n {
                    assert(ks2[ii] == old(ks)@[ii]);
                } else {
                    assert(ks2[ii].args@[j] == old(ks)@[n].args@[j]);
                }
            }
            assert forall|x: int| 0 <= x < ctx.query_vars@.len() implies subst(sub0, TermV::Var(#[trigger] ctx.query_vars@[x])) == tv(th, ctx.query_vars@[x])
                || fv(arg@).contains(ctx.query_vars@[x]) || pend_var(ks2, ctx.query_vars@[x])
                || later_var(ctx, fi + 1, ctx.query_vars@[x]) by {
                let v = ctx.query_vars@[x];
                if pend_var(old(ks)@, v) {
                    let (ii, j) = choose|ii: int, j: int| 0 <= ii < old(ks)@.len() && old(ks)@[ii].next <= j < old(ks)@[ii].args@.len()
                        && #[trigger] fv(old(ks)@[ii].args@[j]@).contains(v);
                    if ii < n {
                        assert(ks2[ii] == old(ks)@[ii]);
                        assert(pend_var(ks2, v));
                    } else if j > i {
                        assert(ks2[n].args@[j] == old(ks)@[n].args@[j]);
                        assert(pend_var(ks2, v));
                    } else {
                        assert(old(ks)@[n].args@[j]@ == arg@);
                    }
                }
            }
            assert(m_track(ctx, sub0, old(st).slots@, old(st).fresh as int, th, arg@, ks2, fi as int, node as int, w));
        }
    }
    let back = match ks.pop() {
        Some(f) => f,
        None => {
            return;
        },
    };
    ks.push(Frame { args: back.args, next: i });
    proof {
        assert(ks@ =~= old(ks)@);
    }
}

/// Match query subterm `q` against one stored subterm at `node`, threading the shared
/// substitution, and go on (`resume`) for every way it unifies, at the node after the matched
/// stored subterm. The substitution is restored and answers are only added; and for every
/// substitution `th` that the current one agrees with, under which `q`, the pending arguments
/// and the later factors have ground images stored in turn from `node` (up to captures, where
/// a stored wildcard captures a ground structured query subterm), the answer of `th` is among
/// the answers. Where it adds an answer, the images under the current substitution of `q` and
/// the pending arguments can be matched along a stored path from `node`: a bound variable by
/// its value, a symbol by its own bytes.
#[verifier::spinoff_prover]
#[verifier::rlimit(60)]
fn match_subterm(ctx: &Ctx, st: &mut State, q: &Term, node: usize, ks: &mut Vec<Frame>, fi: usize, Ghost(lim): Ghost<int>)
    requires
        state_ok(ctx, old(st), fi as int, node as int, lim),
    ensures
        final(st).env.wf(),
        final(st).fresh == old(st).fresh,
        final(st).slots@ == old(st).slots@,
        final(ks)@ == old(ks)@,
        final(st).env.trail_seq() == old(st).env.trail_seq(),
        final(st).env.frames() == old(st).env.frames(),
        forall|x: Vec<u8>| old(st).out@.contains(x) ==> #[trigger] final(st).out@.contains(x),
        ctx.trie.labels(node as int).len() == 0 ==> final(st).out@ == old(st).out@,
        forall|th: Map<u32, TermV>, w: Seq<u8>|
            #[trigger] m_track(ctx, old(st).env.sub(), old(st).slots@, old(st).fresh as int, th, q@, old(ks)@, fi as int, node as int, w)
            ==> has_key(final(st).out@, key_of(th, ctx.query_vars@)),
        final(st).out@ != old(st).out@ ==> comp_from(ctx, substs(old(st).env.sub(), seq![q@] + pitems(old(ks)@)), node as int) && later_comp(ctx, fi + 1),
    decreases ctx.factors@.len() - fi, ctx.trie.size() - node, if q@ is Var { 1int } else { 0int }, 0int,
{
    proof {
        lemma_room(ctx.trie.size() as int, ctx.factors@.len() - fi);
    }
    match q {
        // A query variable unifies with whatever stored subterm sits here: an unbound one is
        // bound to each stored subterm in turn; a bound one is matched by its value.
        Term::Var(qv) => {
            let qv = *qv;
            let resolved = st.env.resolve(&Term::Var(qv));
            match resolved {
                Term::Var(_) => {
                    let readings = read_one_subterm(ctx.trie, node, &st.slots, st.fresh);
                    let ghost sub0 = st.env.sub();
                    proof {
                        assert forall|th: Map<u32, TermV>, w: Seq<u8>|
                            #[trigger] m_track(ctx, sub0, old(st).slots@, old(st).fresh as int, th, q@, old(ks)@, fi as int, node as int, w)
                            implies readable(*ctx.trie, node as int, tv(th, qv), old(st).slots@, old(st).fresh as int)
                                && slots_ok(old(st).slots@, old(st).fresh as int) by {
                            let t = tv(th, qv);
                            assert(fv(q@).contains(qv));
                            assert(okv(th, qv));
                            lemma_ground_enc(t, old(st).slots@);
                            assert(with_new(old(st).slots@, old(st).fresh as int, 0) =~= old(st).slots@);
                            assert(subst(th, q@) == t);
                            lemma_var_step(ctx, th, q@, pitems(old(ks)@), w, (64 - old(st).slots@.len()) as nat);
                        }
                    }
                    let mut x: usize = 0;
                    while x < readings.len()
                        invariant
                            state_ok(ctx, st, fi as int, node as int, lim),
                            st.fresh == old(st).fresh,
                            st.slots@ == old(st).slots@,
                            ks@ == old(ks)@,
                            x <= readings@.len(),
                            forall|i: int| 0 <= i < readings@.len()
                                ==> reading_bounds(#[trigger] readings@[i], node as int, st.fresh as int, ctx.trie.size() as int),
                            st.env.trail_seq() == old(st).env.trail_seq(),
                            st.env.frames() == old(st).env.frames(),
                            forall|y: Vec<u8>| old(st).out@.contains(y) ==> #[trigger] st.out@.contains(y),
                            ctx.trie.labels(node as int).len() == 0 ==> readings@.len() == 0 && st.out@ == old(st).out@,
                            sub0 == old(st).env.sub(),
                            q@ == TermV::Var(qv),
                            subst(sub0, TermV::Var(qv)) is Var,
                            forall|i: int| 0 <= i < readings@.len() ==> sound(#[trigger] readings@[i], *ctx.trie, node as int, old(st).slots@, old(st).fresh as int),
                            st.out@ != old(st).out@ ==> comp_from(ctx, substs(old(st).env.sub(), seq![q@] + pitems(old(ks)@)), node as int) && later_comp(ctx, fi + 1),
                            slots_ok(old(st).slots@, old(st).fresh as int) ==> forall|t: TermV| #[trigger] readable(*ctx.trie, node as int, t, old(st).slots@, old(st).fresh as int)
                                ==> exists|i: int| 0 <= i < readings@.len() && got(readings@[i], *ctx.trie, node as int, t, old(st).slots@, old(st).fresh as int),
                            forall|th: Map<u32, TermV>, w: Seq<u8>|
                                #[trigger] m_track(ctx, sub0, old(st).slots@, old(st).fresh as int, th, q@, old(ks)@, fi as int, node as int, w)
                                && (exists|i: int| 0 <= i < x && got(readings@[i], *ctx.trie, node as int, tv(th, qv), old(st).slots@, old(st).fresh as int))
                                ==> has_key(st.out@, key_of(th, ctx.query_vars@)),
                        decreases readings.len() - x,
                    {
                        let r = &readings[x];
                        proof {
                            assert(reading_bounds(readings@[x as int], node as int, st.fresh as int, ctx.trie.size() as int));
                        }
                        let m = st.env.mark();
                        let ghost e1 = st.env;
                        proof {
                            e1.lemma_wf();
                            lemma_extends_refl(e1);
                        }
                        let saved_fresh = st.fresh;
                        let mut saved = r.slots.clone();
                        std::mem::swap(&mut saved, &mut st.slots);
                        st.fresh = r.fresh;
                        let ghost out_b = st.out@;
                        let ghost rx = readings@[x as int];
                        if st.env.unify(&Term::Var(qv), &r.term) {
                            proof {
                                st.env.lemma_wf();
                            }
                            let ghost sub2 = st.env.sub();
                            let ghost sl2 = st.slots@;
                            proof {
                                assert(sound(rx, *ctx.trie, node as int, old(st).slots@, old(st).fresh as int));
                                let k = (collect(rx.term@, old(st).slots@).len() - old(st).slots@.len()) as nat;
                                lemma_with_new_ok(old(st).slots@, old(st).fresh as int, k);
                            }
                            resume(ctx, st, r.end, ks, fi, Ghost(lim));
                            proof {
                                assert forall|th: Map<u32, TermV>, w: Seq<u8>|
                                    #[trigger] m_track(ctx, sub0, old(st).slots@, old(st).fresh as int, th, q@, old(ks)@, fi as int, node as int, w)
                                    && got(rx, *ctx.trie, node as int, tv(th, qv), old(st).slots@, old(st).fresh as int)
                                    implies has_key(st.out@, key_of(th, ctx.query_vars@)) by {
                                    let t = tv(th, qv);
                                    assert(fv(q@).contains(qv));
                                    assert(okv(th, qv));
                                    lemma_ground_enc(t, old(st).slots@);
                                    lemma_bind_possible(sub0, th, qv, t);
                                    lemma_bind_agrees(sub0, sub2, th, qv, t);
                                    assert(sl2 == collect(t, old(st).slots@));
                                    assert(subst(th, q@) == t);
                                    let e = encoding(t);
                                    let w2 = w.subrange(e.len() as int, w.len() as int);
                                    lemma_var_step(ctx, th, q@, pitems(old(ks)@), w, (64 - old(st).slots@.len()) as nat);
                                    if capm(ctx, th) {
                                        assert(th.contains_key(qv));
                                        lemma_fresh_keep(sub0, sub2, th, qv, t, old(st).fresh as int);
                                    }
                                    assert forall|y: int| 0 <= y < ctx.query_vars@.len() implies subst(sub2, TermV::Var(#[trigger] ctx.query_vars@[y])) == tv(th, ctx.query_vars@[y])
                                        || Set::<u32>::empty().contains(ctx.query_vars@[y]) || pend_var(old(ks)@, ctx.query_vars@[y])
                                        || later_var(ctx, fi + 1, ctx.query_vars@[y]) by {
                                        let v = ctx.query_vars@[y];
                                        if v == qv {
                                        } else if subst(sub0, TermV::Var(v)) == tv(th, v) {
                                            if !ground(tv(th, v)) {
                                                assert(subst(sub0, TermV::Var(v)) == TermV::Var(v));
                                                assert(subst(sub2, TermV::Var(v)) == TermV::Var(v) || ground(tv(th, v)));
                                            }
                                        } else {
                                            assert(fv(q@).contains(v) ==> v == qv);
                                        }
                                    }
                                    assert(r_track(ctx, sub2, sl2, old(st).fresh as int, th, old(ks)@, fi as int, rx.end as int, w2));
                                }
                            }
                            proof {
                                if st.out@ != out_b {
                                    crate::term::lemma_enc_len_pos(rx.term@, old(st).slots@);
                                    assert(e1.sub() == sub0);
                                    lemma_comp_inst(ctx, sub0, sub2, pitems(old(ks)@), rx.end as int);
                                    lemma_var_path(ctx, subst(sub0, q@), substs(sub0, pitems(old(ks)@)), node as int, rx.end as int,
                                        enc(rx.term@, old(st).slots@));
                                    assert(seq![subst(sub0, q@)] + substs(sub0, pitems(old(ks)@)) =~= substs(sub0, seq![q@] + pitems(old(ks)@)));
                                }
                            }
                        } else {
                            proof {
                                assert forall|th: Map<u32, TermV>, w: Seq<u8>|
                                    #[trigger] m_track(ctx, sub0, old(st).slots@, old(st).fresh as int, th, q@, old(ks)@, fi as int, node as int, w)
                                    implies !got(rx, *ctx.trie, node as int, tv(th, qv), old(st).slots@, old(st).fresh as int) by {
                                    let t = tv(th, qv);
                                    if got(rx, *ctx.trie, node as int, t, old(st).slots@, old(st).fresh as int) {
                                        assert(fv(q@).contains(qv));
                                        assert(okv(th, qv));
                                        lemma_bind_possible(sub0, th, qv, t);
                                        assert(instance_of(sub0.insert(qv, t), sub0));
                                    }
                                }
                            }
                        }
                        let ghost e2 = st.env;
                        proof {
                            e2.lemma_wf();
                        }
                        st.env.rollback(m);
                        proof {
                            lemma_undo(e1, e2, st.env);
                        }
                        std::mem::swap(&mut saved, &mut st.slots);
                        st.fresh = saved_fresh;
                        proof {
                            assert forall|th: Map<u32, TermV>, w: Seq<u8>|
                                #[trigger] m_track(ctx, sub0, old(st).slots@, old(st).fresh as int, th, q@, old(ks)@, fi as int, node as int, w)
                                && (exists|i: int| 0 <= i < x + 1 && got(readings@[i], *ctx.trie, node as int, tv(th, qv), old(st).slots@, old(st).fresh as int))
                                implies has_key(st.out@, key_of(th, ctx.query_vars@)) by {
                                let i = choose|i: int| 0 <= i < x + 1 && got(readings@[i], *ctx.trie, node as int, tv(th, qv), old(st).slots@, old(st).fresh as int);
                                if i < x {
                                    lemma_has_key_mono(out_b, st.out@, key_of(th, ctx.query_vars@));
                                } else {
                                    assert(readings@[i] == rx);
                                }
                            }
                        }
                        x += 1;
                    }
                    proof {
                        assert forall|th: Map<u32, TermV>, w: Seq<u8>|
                            #[trigger] m_track(ctx, sub0, old(st).slots@, old(st).fresh as int, th, q@, old(ks)@, fi as int, node as int, w)
                            implies has_key(st.out@, key_of(th, ctx.query_vars@)) by {
                            assert(readable(*ctx.trie, node as int, tv(th, qv), old(st).slots@, old(st).fresh as int));
                        }
                    }
                }
                _ => {
                    let ghost sub0 = st.env.sub();
                    proof {
                        old(st).env.lemma_wf();
                        crate::subst::lemma_subst_idem(sub0, q@);
                        assert(substs(sub0, seq![resolved@] + pitems(old(ks)@)) =~= substs(sub0, seq![q@] + pitems(old(ks)@)));
                    }
                    match_subterm(ctx, st, &resolved, node, ks, fi, Ghost(lim));
                    proof {
                        assert forall|th: Map<u32, TermV>, w: Seq<u8>|
                            #[trigger] m_track(ctx, sub0, old(st).slots@, old(st).fresh as int, th, q@, old(ks)@, fi as int, node as int, w)
                            implies has_key(st.out@, key_of(th, ctx.query_vars@)) by {
                            let t = tv(th, qv);
                            assert(fv(q@).contains(qv));
                            assert(okv(th, qv));
                            assert(th.contains_key(qv));
                            assert(subst(sub0, TermV::Var(qv)) == t);
                            let k = (64 - old(st).slots@.len()) as nat;
                            let e = encoding(t);
                            let w2 = w.subrange(e.len() as int, w.len() as int);
                            lemma_var_step(ctx, th, q@, pitems(old(ks)@), w, k);
                            lemma_ground_image(th, t);
                            assert(term_ok(th, t)) by {
                                lemma_ground_fv(t);
                            }
                            lemma_crel_prefix(capm(ctx, th), seq![t], pitems(old(ks)@), th, w2, k);
                            assert(mapped(seq![t], th) =~= seq![t]);
                            lemma_cat_enc_one(t);
                            assert(w =~= e + w2);
                            assert(resolved@ == t);
                            lemma_ground_image(th, t);
                            lemma_ground_fv(t);
                            assert(subst(th, q@) == t);
                            assert(term_ok(th, resolved@));
                            assert forall|y: int| 0 <= y < ctx.query_vars@.len() implies subst(sub0, TermV::Var(#[trigger] ctx.query_vars@[y])) == tv(th, ctx.query_vars@[y])
                                || fv(resolved@).contains(ctx.query_vars@[y]) || pend_var(old(ks)@, ctx.query_vars@[y])
                                || later_var(ctx, fi + 1, ctx.query_vars@[y]) by {
                                let v = ctx.query_vars@[y];
                                assert(fv(q@).contains(v) ==> v == qv);
                            }
                            assert(m_track(ctx, sub0, old(st).slots@, old(st).fresh as int, th, resolved@, old(ks)@, fi as int, node as int, w));
                        }
                    }
                }
            }
        }
        // A structured query (symbol or compound) matches the same structure in the data, or
        // is captured by a stored wildcard variable.
        _ => {
            // (A) capture: a stored wildcard variable binds the whole query subterm.
            let ghost sub0 = st.env.sub();
            if ctx.capture {
                let (labels, kids) = ctx.trie.children(node);
                let mut c: usize = 0;
                while c < labels.len()
                    invariant
                        ctx.capture,
                        !(q@ is Var),
                        kids@ == ctx.trie.kids(node as int),
                        st.out@ != old(st).out@ ==> comp_from(ctx, substs(old(st).env.sub(), seq![q@] + pitems(old(ks)@)), node as int) && later_comp(ctx, fi + 1),
                        sub0 == old(st).env.sub(),
                        forall|th: Map<u32, TermV>, w: Seq<u8>|
                            #[trigger] m_track(ctx, sub0, old(st).slots@, old(st).fresh as int, th, q@, old(ks)@, fi as int, node as int, w)
                            && capd(ctx, old(st).slots@, th, q@, old(ks)@, w)
                            && (exists|ci: int| 0 <= ci < c && labels@[ci] == 0xC0u8)
                            ==> has_key(st.out@, key_of(th, ctx.query_vars@)),
                        state_ok(ctx, st, fi as int, node as int, lim),
                        st.fresh == old(st).fresh,
                        st.slots@ == old(st).slots@,
                        ks@ == old(ks)@,
                        labels@.len() == kids@.len(),
                        forall|y: int| 0 <= y < kids@.len() ==> node < #[trigger] kids@[y] < ctx.trie.size(),
                        c <= labels@.len(),
                        st.env.trail_seq() == old(st).env.trail_seq(),
                        st.env.frames() == old(st).env.frames(),
                        forall|y: Vec<u8>| old(st).out@.contains(y) ==> #[trigger] st.out@.contains(y),
                        labels@ == ctx.trie.labels(node as int),
                        labels@.len() == 0 ==> st.out@ == old(st).out@,
                    decreases labels.len() - c,
                {
                    let b = labels[c];
                    let child = kids[c];
                    let ghost out_c = st.out@;
                    if 0x80u8 <= b && b <= 0xC0u8 {
                        let saved_fresh = st.fresh;
                        let slots_len = st.slots.len();
                        proof {
                            lemma_room(ctx.trie.size() as int, ctx.factors@.len() - fi);
                        }
                        let dv: Option<u32> = if b == NEWVAR_BYTE {
                            let id = st.fresh;
                            st.fresh = st.fresh + 1;
                            st.slots.push(id);
                            Some(id)
                        } else {
                            let idx = (b & LOW6) as usize;
                            if idx < st.slots.len() {
                                Some(st.slots[idx])
                            } else {
                                None
                            }
                        };
                        match dv {
                            Some(dv) => {
                                let m = st.env.mark();
                                let ghost e1 = st.env;
                                proof {
                                    e1.lemma_wf();
                                    lemma_extends_refl(e1);
                                }
                                let qr = st.env.resolve(q);
                                let ghost sl1 = st.slots@;
                                let ghost fr1 = st.fresh;
                                proof {
                                    assert(e1.sub() == sub0);
                                }
                                if st.env.unify(&Term::Var(dv), &qr) {
                                    proof {
                                        st.env.lemma_wf();
                                    }
                                    let ghost sub2 = st.env.sub();
                                    let ghost out_r = st.out@;
                                    resume(ctx, st, child, ks, fi, Ghost(lim));
                                    proof {
                                        if st.out@ != out_r {
                                            ctx.trie.lemma_step_kid(node as int, c as int);
                                            assert(!(q@ is Var));
                                            assert(ctx.capture);
                                            assert(0x80u8 <= b <= 0xC0u8);
                                            assert(ctx.trie.step_to(node as int, b) == Some(child as int));
                                            let p0 = pitems(old(ks)@);
                                            assert(comp_from(ctx, substs(sub2, p0), child as int));
                                            lemma_comp_inst(ctx, sub0, sub2, p0, child as int);
                                            if let TermV::App(a) = q@ {
                                                lemma_subst_app(sub0, a);
                                            }
                                            assert(!(subst(sub0, q@) is Var));
                                            lemma_cap_path(ctx, subst(sub0, q@), substs(sub0, p0), node as int, child as int, b);
                                            assert(seq![subst(sub0, q@)] + substs(sub0, p0) =~= substs(sub0, seq![q@] + p0));
                                        }
                                    }
                                    proof {
                                        assert forall|th: Map<u32, TermV>, w: Seq<u8>|
                                            #[trigger] m_track(ctx, sub0, old(st).slots@, old(st).fresh as int, th, q@, old(ks)@, fi as int, node as int, w)
                                            && capd(ctx, old(st).slots@, th, q@, old(ks)@, w)
                                            && b == 0xC0u8
                                            implies has_key(st.out@, key_of(th, ctx.query_vars@)) by {
                                            ctx.trie.lemma_step_kid(node as int, c as int);
                                            lemma_ground_image(sub0, q@);
                                            lemma_ground_fv(q@);
                                            assert(fresh_unbound(sub0, old(st).fresh as int));
                                            lemma_bind_possible(sub0, th, dv, q@);
                                            lemma_capture_track(ctx, sub0, sub2, old(st).slots@, old(st).fresh as int, dv, th, q@, old(ks)@, fi as int,
                                                node as int, child as int, w);
                                            assert(sl1 == old(st).slots@.push(dv));
                                            assert(r_track(ctx, sub2, sl1, fr1 as int, th, old(ks)@, fi as int, child as int, w.subrange(1, w.len() as int)));
                                        }
                                    }
                                } else {
                                    proof {
                                        assert forall|th: Map<u32, TermV>, w: Seq<u8>|
                                            #[trigger] m_track(ctx, sub0, old(st).slots@, old(st).fresh as int, th, q@, old(ks)@, fi as int, node as int, w)
                                            && capd(ctx, old(st).slots@, th, q@, old(ks)@, w) && b == 0xC0u8
                                            implies false by {
                                            lemma_ground_image(sub0, q@);
                                            lemma_bind_possible(sub0, th, dv, q@);
                                            lemma_ground_image(sub0.insert(dv, q@), q@);
                                        }
                                    }
                                }
                                let ghost e2 = st.env;
                                proof {
                                    e2.lemma_wf();
                                }
                                st.env.rollback(m);
                                proof {
                                    lemma_undo(e1, e2, st.env);
                                }
                            }
                            None => {}
                        }
                        st.slots.truncate(slots_len);
                        st.fresh = saved_fresh;
                        proof {
                            assert(st.slots@ =~= old(st).slots@);
                        }
                    }
                    proof {
                        assert forall|th: Map<u32, TermV>, w: Seq<u8>|
                            #[trigger] m_track(ctx, sub0, old(st).slots@, old(st).fresh as int, th, q@, old(ks)@, fi as int, node as int, w)
                            && capd(ctx, old(st).slots@, th, q@, old(ks)@, w)
                            && (exists|ci: int| 0 <= ci < c + 1 && labels@[ci] == 0xC0u8)
                            implies has_key(st.out@, key_of(th, ctx.query_vars@)) by {
                            let ci = choose|ci: int| 0 <= ci < c + 1 && labels@[ci] == 0xC0u8;
                            if ci < c {
                                assert(exists|cj: int| 0 <= cj < c && labels@[cj] == 0xC0u8);
                                lemma_has_key_mono(out_c, st.out@, key_of(th, ctx.query_vars@));
                            } else {
                                assert(b == 0xC0u8);
                            }
                        }
                        assert(st.out@ != old(st).out@ ==> comp_from(ctx, substs(old(st).env.sub(), seq![q@] + pitems(old(ks)@)), node as int) && later_comp(ctx, fi + 1));
                    }
                    c += 1;
                }
                proof {
                    assert forall|th: Map<u32, TermV>, w: Seq<u8>|
                        #[trigger] m_track(ctx, sub0, old(st).slots@, old(st).fresh as int, th, q@, old(ks)@, fi as int, node as int, w)
                        && capd(ctx, old(st).slots@, th, q@, old(ks)@, w)
                        implies has_key(st.out@, key_of(th, ctx.query_vars@)) by {
                        let w1 = w.subrange(1, w.len() as int);
                        assert(w =~= seq![0xC0u8] + w1);
                        ctx.trie.lemma_walk_cons(node as int, 0xC0u8, w1);
                        ctx.trie.lemma_step_label(node as int, 0xC0u8);
                        assert(labels@.contains(0xC0u8));
                    }
                }
            }
            let ghost out_a = st.out@;
            proof {
                assert(st.out@ != old(st).out@ ==> comp_from(ctx, substs(old(st).env.sub(), seq![q@] + pitems(old(ks)@)), node as int) && later_comp(ctx, fi + 1));
            }
            proof {
                assert forall|th: Map<u32, TermV>, w: Seq<u8>|
                    #[trigger] m_track(ctx, sub0, old(st).slots@, old(st).fresh as int, th, q@, old(ks)@, fi as int, node as int, w)
                    && capd(ctx, old(st).slots@, th, q@, old(ks)@, w)
                    implies has_key(out_a, key_of(th, ctx.query_vars@)) by {
                }
            }
            // (B) structural descent into matching data structure.
            proof {
                assert(st.env.sub() == old(st).env.sub());
            }
            match q {
                Term::Sym(s) => {
                    let bytes = string_bytes(s);
                    let head: u8 = TAG_SYMSIZE | (#[verifier::truncate] (bytes.len() as u8));
                    match ctx.trie.child(node, head) {
                        Some(x) => {
                            match descend_exact(ctx.trie, x, &bytes) {
                                Some(e) => {
                                    resume(ctx, st, e, ks, fi, Ghost(lim));
                                    proof {
                                        if st.out@ != out_a {
                                            ctx.trie.lemma_walk_cons(node as int, head, bytes@);
                                            let s0 = old(st).env.sub();
                                            let p0 = pitems(old(ks)@);
                                            lemma_sym_path(ctx, q@, substs(s0, p0), node as int, e as int);
                                            assert(seq![q@] + substs(s0, p0) =~= substs(s0, seq![q@] + p0));
                                        }
                                    }
                                    proof {
                                        assert forall|th: Map<u32, TermV>, w: Seq<u8>|
                                            #[trigger] m_track(ctx, old(st).env.sub(), old(st).slots@, old(st).fresh as int, th, q@, old(ks)@, fi as int, node as int, w)
                                            && !capd(ctx, old(st).slots@, th, q@, old(ks)@, w)
                                            implies has_key(st.out@, key_of(th, ctx.query_vars@)) by {
                                            lemma_struct_step(capm(ctx, th), q@, pitems(old(ks)@), th, w, (64 - old(st).slots@.len()) as nat);
                                            let rest2 = w.subrange(encoding(q@).len() as int, w.len() as int);
                                            lemma_tag_or(bytes@.len() as u8);
                                            assert(encoding(q@) == seq![head] + bytes@);
                                            assert(w =~= seq![head] + (bytes@ + rest2));
                                            ctx.trie.lemma_walk_cons(node as int, head, bytes@ + rest2);
                                            ctx.trie.lemma_walk_append(x as int, bytes@, rest2);
                                            assert(r_track(ctx, old(st).env.sub(), old(st).slots@, old(st).fresh as int, th, old(ks)@, fi as int, e as int, rest2));
                                        }
                                    }
                                }
                                None => {
                                    proof {
                                        assert forall|th: Map<u32, TermV>, w: Seq<u8>|
                                            #[trigger] m_track(ctx, old(st).env.sub(), old(st).slots@, old(st).fresh as int, th, q@, old(ks)@, fi as int, node as int, w)
                                            && !capd(ctx, old(st).slots@, th, q@, old(ks)@, w)
                                            implies false by {
                                            lemma_struct_step(capm(ctx, th), q@, pitems(old(ks)@), th, w, (64 - old(st).slots@.len()) as nat);
                                            let rest2 = w.subrange(encoding(q@).len() as int, w.len() as int);
                                            lemma_tag_or(bytes@.len() as u8);
                                            assert(encoding(q@) == seq![head] + bytes@);
                                            assert(w =~= seq![head] + (bytes@ + rest2));
                                            ctx.trie.lemma_walk_cons(node as int, head, bytes@ + rest2);
                                            ctx.trie.lemma_walk_append(x as int, bytes@, rest2);
                                        }
                                    }
                                }
                            }
                        }
                        None => {
                            proof {
                                assert forall|th: Map<u32, TermV>, w: Seq<u8>|
                                    #[trigger] m_track(ctx, old(st).env.sub(), old(st).slots@, old(st).fresh as int, th, q@, old(ks)@, fi as int, node as int, w)
                                    && !capd(ctx, old(st).slots@, th, q@, old(ks)@, w)
                                    implies false by {
                                    lemma_struct_step(capm(ctx, th), q@, pitems(old(ks)@), th, w, (64 - old(st).slots@.len()) as nat);
                                    let rest2 = w.subrange(encoding(q@).len() as int, w.len() as int);
                                    lemma_tag_or(bytes@.len() as u8);
                                    assert(encoding(q@) == seq![head] + bytes@);
                                    assert(w =~= seq![head] + (bytes@ + rest2));
                                    ctx.trie.lemma_walk_cons(node as int, head, bytes@ + rest2);
                                }
                            }
                        }
                    }
                }
                Term::App(args) => {
                    let head: u8 = TAG_ARITY | (#[verifier::truncate] (args.len() as u8));
                    let ghost a = views(args@);
                    proof {
                        lemma_view_app(*args);
                    }
                    match ctx.trie.child(node, head) {
                        Some(x) => {
                            let copy = copy_terms(args);
                            ks.push(Frame { args: copy, next: 0 });
                            proof {
                                assert(ks@.drop_last() =~= old(ks)@);
                                assert(views(ks@.last().args@) == a);
                                assert(a.subrange(0, a.len() as int) =~= a);
                            }
                            let ghost ks1 = ks@;
                            resume(ctx, st, x, ks, fi, Ghost(lim));
                            proof {
                                if st.out@ != out_a {
                                    assert(a.subrange(0, a.len() as int) =~= a);
                                    assert(ks1.drop_last() =~= old(ks)@);
                                    assert(views(ks1.last().args@) == a);
                                    assert(pitems(ks1) == a + pitems(old(ks)@));
                                    let s0 = old(st).env.sub();
                                    let p0 = pitems(old(ks)@);
                                    assert(substs(s0, a + p0) =~= substs(s0, a) + substs(s0, p0));
                                    lemma_subst_app(s0, a);
                                    assert(Seq::new(a.len(), |j: int| subst(s0, a[j])) =~= substs(s0, a));
                                    lemma_app_path(ctx, subst(s0, q@), substs(s0, a), substs(s0, p0), node as int, x as int, head);
                                    assert(seq![subst(s0, q@)] + substs(s0, p0) =~= substs(s0, seq![q@] + p0));
                                }
                            }
                            proof {
                                assert forall|th: Map<u32, TermV>, w: Seq<u8>|
                                    #[trigger] m_track(ctx, old(st).env.sub(), old(st).slots@, old(st).fresh as int, th, q@, old(ks)@, fi as int, node as int, w)
                                    && !capd(ctx, old(st).slots@, th, q@, old(ks)@, w)
                                    implies has_key(st.out@, key_of(th, ctx.query_vars@)) by {
                                    lemma_struct_step(capm(ctx, th), q@, pitems(old(ks)@), th, w, (64 - old(st).slots@.len()) as nat);
                                    let w1 = w.subrange(1, w.len() as int);
                                    lemma_app_track(th, a, q@, head);
                                    assert(w =~= seq![head] + w1);
                                    ctx.trie.lemma_walk_cons(node as int, head, w1);
                                    assert(a.subrange(0, a.len() as int) =~= a);
                                    assert(ks1.drop_last() =~= old(ks)@);
                                    assert(views(ks1.last().args@) == a);
                                    assert(pitems(ks1) == a + pitems(old(ks)@));
                                    let n = old(ks)@.len() as int;
                                    assert forall|ii: int, j: int| 0 <= ii < ks1.len() && ks1[ii].next <= j < ks1[ii].args@.len()
                                        implies term_ok(th, #[trigger] ks1[ii].args@[j]@) by {
                                        if ii < n {
                                            assert(ks1[ii] == old(ks)@[ii]);
                                        } else {
                                            assert(ks1[ii].args@[j]@ == a[j]);
                                        }
                                    }
                                    assert forall|y: int| 0 <= y < ctx.query_vars@.len() implies subst(old(st).env.sub(), TermV::Var(#[trigger] ctx.query_vars@[y])) == tv(th, ctx.query_vars@[y])
                                        || Set::<u32>::empty().contains(ctx.query_vars@[y]) || pend_var(ks1, ctx.query_vars@[y])
                                        || later_var(ctx, fi + 1, ctx.query_vars@[y]) by {
                                        let v = ctx.query_vars@[y];
                                        if fv(q@).contains(v) {
                                            lemma_fv_all(a, a.len());
                                            assert(fv_all(a, a.len()).contains(v));
                                            let j = choose|j: int| 0 <= j < a.len() && #[trigger] fv(a[j]).contains(v);
                                            assert(ks1[n].args@[j]@ == a[j]);
                                            assert(pend_var(ks1, v));
                                        } else if pend_var(old(ks)@, v) {
                                            let (ii, j) = choose|ii: int, j: int| 0 <= ii < old(ks)@.len() && old(ks)@[ii].next <= j < old(ks)@[ii].args@.len()
                                                && #[trigger] fv(old(ks)@[ii].args@[j]@).contains(v);
                                            assert(ks1[ii] == old(ks)@[ii]);
                                            assert(pend_var(ks1, v));
                                        }
                                    }
                                    assert(r_track(ctx, old(st).env.sub(), old(st).slots@, old(st).fresh as int, th, ks1, fi as int, x as int, w1));
                                }
                            }
                            ks.pop();
                            proof {
                                assert(ks@ =~= old(ks)@);
                            }
                        }
                        None => {
                            proof {
                                assert forall|th: Map<u32, TermV>, w: Seq<u8>|
                                    #[trigger] m_track(ctx, old(st).env.sub(), old(st).slots@, old(st).fresh as int, th, q@, old(ks)@, fi as int, node as int, w)
                                    && !capd(ctx, old(st).slots@, th, q@, old(ks)@, w)
                                    implies false by {
                                    lemma_struct_step(capm(ctx, th), q@, pitems(old(ks)@), th, w, (64 - old(st).slots@.len()) as nat);
                                    let w1 = w.subrange(1, w.len() as int);
                                    lemma_app_track(th, a, q@, head);
                                    assert(w =~= seq![head] + w1);
                                    ctx.trie.lemma_walk_cons(node as int, head, w1);
                                }
                            }
                        }
                    }
                }
                Term::Var(_) => {}
            }
            proof {
                assert forall|th: Map<u32, TermV>, w: Seq<u8>|
                    #[trigger] m_track(ctx, old(st).env.sub(), old(st).slots@, old(st).fresh as int, th, q@, old(ks)@, fi as int, node as int, w)
                    implies has_key(st.out@, key_of(th, ctx.query_vars@)) by {
                    if capd(ctx, old(st).slots@, th, q@, old(ks)@, w) {
                        lemma_has_key_mono(out_a, st.out@, key_of(th, ctx.query_vars@));
                    }
                }
                assert(st.out@ != old(st).out@ ==> comp_from(ctx, substs(old(st).env.sub(), seq![q@] + pitems(old(ks)@)), node as int) && later_comp(ctx, fi + 1));
            }
        }
    }
}

/// The substitution `th` sends every pattern of `q` to a ground, well-shaped term stored whole in
/// `trie` (each pattern variable to a ground, well-shaped term), binds only query variables
/// that occur in a pattern, and gives an answer tuple that can be encoded.
pub open spec fn stored_instance(q: &Conj, trie: ByteTrie, th: Map<u32, TermV>) -> bool {
    &&& forall|j: int| 0 <= j < q.patterns@.len() ==> shape_ok(subst(th, #[trigger] q.patterns@[j]@))
        && (forall|v: u32| fv(q.patterns@[j]@).contains(v) ==> ground(subst(th, TermV::Var(v))) && shape_ok(subst(th, TermV::Var(v))))
        && trie.walk_from(0, encoding(subst(th, q.patterns@[j]@))) is Some
    &&& forall|x: int| 0 <= x < q.query_vars@.len() ==> subst(th, TermV::Var(#[trigger] q.query_vars@[x])) == TermV::Var(q.query_vars@[x])
        || exists|j: int| 0 <= j < q.patterns@.len() && #[trigger] fv(q.patterns@[j]@).contains(q.query_vars@[x])
    &&& encodable(tuple_of(th, q.query_vars@))
}

/// As [`stored_instance`], with stored paths that `capture` lets differ: each pattern's image
/// under `th` follows a stored path in which, where `capture` holds, up to 64 ground structured
/// subterms of the pattern are each met by a stored wildcard that captures them.
pub open spec fn cap_instance(q: &Conj, trie: ByteTrie, th: Map<u32, TermV>, capture: bool) -> bool {
    &&& forall|j: int| 0 <= j < q.patterns@.len() ==> shape_ok(subst(th, #[trigger] q.patterns@[j]@))
        && (forall|v: u32| fv(q.patterns@[j]@).contains(v) ==> ground(subst(th, TermV::Var(v))) && shape_ok(subst(th, TermV::Var(v))))
        && exists|w: Seq<u8>| #[trigger] crel(capture, seq![q.patterns@[j]@], th, w, 64) && trie.walk_from(0, w) is Some
    &&& forall|x: int| 0 <= x < q.query_vars@.len() ==> subst(th, TermV::Var(#[trigger] q.query_vars@[x])) == TermV::Var(q.query_vars@[x])
        || exists|j: int| 0 <= j < q.patterns@.len() && #[trigger] fv(q.patterns@[j]@).contains(q.query_vars@[x])
    &&& encodable(tuple_of(th, q.query_vars@))
}

/// The ids that `th` binds and the query variables are below `fresh_base`, where the ids given
/// to stored variables start.
pub open spec fn captures_fit(q: &Conj, th: Map<u32, TermV>, fresh_base: u32) -> bool {
    &&& dom_below(th, fresh_base as int)
    &&& forall|x: int| 0 <= x < q.query_vars@.len() ==> #[trigger] q.query_vars@[x] < fresh_base
}

/// Pattern `t` can be matched along a path of `trie` from the root (see [`scomp`]).
pub open spec fn stored_path(trie: ByteTrie, cap: bool, t: TermV) -> bool {
    exists|w: Seq<u8>, sp: Seq<nat>| #[trigger] scomp(cap, seq![t], w, sp) && trie.walk_from(0, w) is Some
}

/// Pattern `t` can be matched along the start of some fact's encoding (see [`scomp`]).
pub open spec fn fact_path(facts: Seq<TermV>, cap: bool, t: TermV) -> bool {
    exists|i: int, w: Seq<u8>, sp: Seq<nat>| #![trigger scomp(cap, seq![t], w, sp), facts[i]]
        0 <= i < facts.len() && scomp(cap, seq![t], w, sp) && crate::wcojoin::is_prefix(w, encoding(facts[i]))
}

/// `r` holds a byte string whose model is `k`.
pub open spec fn holds_key(r: Set<Vec<u8>>, k: Seq<u8>) -> bool {
    exists|x: Vec<u8>| #[trigger] r.contains(x) && x@ == k
}

/// Every pattern of `q` is ground, well-shaped, and stored as a whole in `trie`.
pub open spec fn ground_stored(q: &Conj, trie: ByteTrie) -> bool {
    forall|j: int| 0 <= j < q.patterns@.len() ==> ground(#[trigger] q.patterns@[j]@) && shape_ok(q.patterns@[j]@)
        && trie.walk_from(0, encoding(q.patterns@[j]@)) is Some
}

/// The answer of a query that binds nothing: its query variables as they stand.
pub open spec fn unbound_key(q: &Conj) -> Seq<u8> {
    encoding(var_tuple(q.query_vars@))
}

/// All answers to `q` against the byte-trie under `z`, under full unification, lazily over the
/// trie. `fresh_base` is the first id handed to stored (data) variables; it must be disjoint
/// from the query variable ids. The answers are canonical keys, as in
/// [`crate::oracle::naive_match`]. Proved of the answers: a query with no patterns has exactly
/// the tuple of its unbound variables as answer, one with patterns has none over a trie that
/// stores nothing, every substitution that sends each pattern to a ground term stored whole
/// (binding only query variables met in a pattern) gives its answer, and so does every one
/// whose pattern images are stored up to stored wildcards that capture ground structured
/// subterms of the patterns (where it binds only ids below `fresh_base`, as are the query
/// variables).
pub fn unify_join_z(z: TrieZipper, q: &Conj, fresh_base: u32) -> (r: BTreeSet<Vec<u8>>)
    requires
        z.wf(),
        fresh_base + z.tree().size() * q.patterns@.len() <= u32::MAX,
    ensures
        q.patterns@.len() == 0 ==> forall|k: Seq<u8>| holds_key(r@, k) <==> encodable(var_tuple(q.query_vars@)) && k == unbound_key(q),
        ground_stored(q, z.tree()) && encodable(var_tuple(q.query_vars@)) ==> holds_key(r@, unbound_key(q)),
        q.patterns@.len() > 0 && z.tree().labels(0).len() == 0 ==> forall|k: Seq<u8>| !holds_key(r@, k),
        forall|th: Map<u32, TermV>| #![trigger key_of(th, q.query_vars@)]
            stored_instance(q, z.tree(), th) ==> holds_key(r@, key_of(th, q.query_vars@)),
        forall|th: Map<u32, TermV>| #![trigger key_of(th, q.query_vars@)]
            cap_instance(q, z.tree(), th, true) && captures_fit(q, th, fresh_base) ==> holds_key(r@, key_of(th, q.query_vars@)),
        (exists|k: Seq<u8>| holds_key(r@, k)) ==> forall|j: int| 0 <= j < q.patterns@.len()
            ==> #[trigger] stored_path(z.tree(), true, q.patterns@[j]@),
{
    unify_join_z_opts(z, q, fresh_base, true)
}

/// As [`unify_join_z`], with `capture` selecting the semantics: `true` is the full unification
/// join with data-side capture, `false` the plain relational (equality) join, where a stored
/// wildcard never binds a structured query subterm. The answers owed through captured
/// subterms are those that `capture` allows.
#[verifier::spinoff_prover]
#[verifier::rlimit(40)]
pub fn unify_join_z_opts(z: TrieZipper, q: &Conj, fresh_base: u32, capture: bool) -> (r: BTreeSet<Vec<u8>>)
    requires
        z.wf(),
        fresh_base + z.tree().size() * q.patterns@.len() <= u32::MAX,
    ensures
        q.patterns@.len() == 0 ==> forall|k: Seq<u8>| holds_key(r@, k) <==> encodable(var_tuple(q.query_vars@)) && k == unbound_key(q),
        ground_stored(q, z.tree()) && encodable(var_tuple(q.query_vars@)) ==> holds_key(r@, unbound_key(q)),
        q.patterns@.len() > 0 && z.tree().labels(0).len() == 0 ==> forall|k: Seq<u8>| !holds_key(r@, k),
        forall|th: Map<u32, TermV>| #![trigger key_of(th, q.query_vars@)]
            stored_instance(q, z.tree(), th) ==> holds_key(r@, key_of(th, q.query_vars@)),
        forall|th: Map<u32, TermV>| #![trigger key_of(th, q.query_vars@)]
            cap_instance(q, z.tree(), th, capture) && captures_fit(q, th, fresh_base) ==> holds_key(r@, key_of(th, q.query_vars@)),
        (exists|k: Seq<u8>| holds_key(r@, k)) ==> forall|j: int| 0 <= j < q.patterns@.len()
            ==> #[trigger] stored_path(z.tree(), capture, q.patterns@[j]@),
{
    proof {
        z.lemma_tree_wf();
    }
    let ctx = Ctx { factors: &q.patterns, query_vars: &q.query_vars, trie: z.trie_ref(), capture, base: fresh_base };
    let mut st = State { env: Env::new(), fresh: fresh_base, slots: Vec::new(), out: Vec::new() };
    let ghost s0 = st.env.sub();
    proof {
        lemma_tuple_of(s0, q.query_vars@);
        lemma_subst_noop(s0, var_tuple(q.query_vars@));
        assert(key_of(s0, q.query_vars@) == unbound_key(q));
    }
    let ghost o0 = st.out@;
    proof {
        assert(o0 =~= Seq::<Vec<u8>>::empty());
    }
    solve(&ctx, &mut st, 0, Ghost(fresh_base as int));
    let ghost out = st.out@;
    proof {
        assert forall|th: Map<u32, TermV>| #![trigger key_of(th, q.query_vars@)]
            stored_instance(q, z.tree(), th) || (cap_instance(q, z.tree(), th, capture) && captures_fit(q, th, fresh_base))
            implies has_key(out, key_of(th, q.query_vars@)) by {
            ctx.trie.lemma_size_pos();
            ctx.trie.lemma_walk_push(0, Seq::<u8>::empty(), 0u8);
            assert(later_ok(&ctx, 0, th)) by {
                assert forall|j: int| 0 <= j < ctx.factors@.len() implies term_ok(th, #[trigger] ctx.factors@[j]@)
                    && exists|w: Seq<u8>| #[trigger] crel(capm(&ctx, th), seq![ctx.factors@[j]@], th, w, 64) && ctx.trie.walk_from(0, w) is Some by {
                    if !stored_instance(q, z.tree(), th) {
                        assert(capm(&ctx, th) == capture);
                    }
                    lemma_factor_path(&ctx, q, z.tree(), th, capture, j);
                }
            }
            assert forall|v: u32| #[trigger] subst(s0, TermV::Var(v)) == TermV::Var(v)
                || (ground(subst(s0, TermV::Var(v))) && (subst(s0, TermV::Var(v)) == tv(th, v) || !th.contains_key(v))) by {}
            assert forall|x: int| 0 <= x < ctx.query_vars@.len() implies subst(s0, TermV::Var(#[trigger] ctx.query_vars@[x])) == tv(th, ctx.query_vars@[x])
                || Set::<u32>::empty().contains(ctx.query_vars@[x]) || pend_var(Seq::<Frame>::empty(), ctx.query_vars@[x])
                || later_var(&ctx, 0, ctx.query_vars@[x]) by {
                let v = ctx.query_vars@[x];
                if subst(th, TermV::Var(q.query_vars@[x])) != TermV::Var(q.query_vars@[x]) {
                    let j = choose|j: int| 0 <= j < q.patterns@.len() && #[trigger] fv(q.patterns@[j]@).contains(q.query_vars@[x]);
                    assert(fv(ctx.factors@[j]@).contains(v));
                }
            }
            assert(fresh_unbound(s0, fresh_base as int));
            assert(slots_ok(Seq::<u32>::empty(), fresh_base as int));
            assert(crel(capm(&ctx, th), Seq::<TermV>::empty(), th, Seq::<u8>::empty(), 64));
            assert(agrees_on(s0, th));
            assert(covered(s0, th, Set::<u32>::empty(), Seq::<Frame>::empty(), &ctx, 0));
            assert(encodable(tuple_of(th, ctx.query_vars@)));
            assert(frames_ok(Seq::<Frame>::empty(), th));
            assert(on_track(&ctx, s0, Seq::<u32>::empty(), fresh_base as int, th, Set::<u32>::empty(), Seq::<Frame>::empty(), 0, 0,
                Seq::<TermV>::empty(), Seq::<u8>::empty()));
        }
    }
    proof {
        if encodable(var_tuple(q.query_vars@)) && (ground_stored(q, z.tree()) || q.patterns@.len() == 0) {
            assert forall|j: int| 0 <= j < q.patterns@.len() implies shape_ok(subst(s0, #[trigger] q.patterns@[j]@))
                && (forall|v: u32| fv(q.patterns@[j]@).contains(v) ==> ground(subst(s0, TermV::Var(v))) && shape_ok(subst(s0, TermV::Var(v))))
                && z.tree().walk_from(0, encoding(subst(s0, q.patterns@[j]@))) is Some by {
                lemma_ground_image(s0, q.patterns@[j]@);
                lemma_ground_fv(q.patterns@[j]@);
            }
            assert(stored_instance(q, z.tree(), s0));
            assert(has_key(out, key_of(s0, q.query_vars@)));
        }
    }
    let r = to_key_set(st.out);
    proof {
        assert forall|k: Seq<u8>| holds_key(r@, k) <==> has_key(out, k) by {}
        if exists|k: Seq<u8>| holds_key(r@, k) {
            let k = choose|k: Seq<u8>| holds_key(r@, k);
            assert(has_key(out, k));
            assert(out.len() > 0);
            assert(out != o0);
            assert forall|j: int| 0 <= j < q.patterns@.len() implies #[trigger] stored_path(z.tree(), capture, q.patterns@[j]@) by {
                assert(q.patterns@[j] == ctx.factors@[j]);
                assert(comp_from(&ctx, seq![ctx.factors@[j]@], 0));
            }
        }
        if q.patterns@.len() > 0 && z.tree().labels(0).len() == 0 {
            assert(out == o0);
            assert forall|k: Seq<u8>| !holds_key(r@, k) by {
                assert(!has_key(out, k));
            }
        }
        if q.patterns@.len() == 0 {
            assert forall|k: Seq<u8>| holds_key(r@, k) <==> encodable(var_tuple(q.query_vars@)) && k == unbound_key(q) by {
                if has_key(out, k) {
                    let i = choose|i: int| 0 <= i < out.len() && #[trigger] out[i]@ == k;
                    assert(out.contains(out[i]));
                    assert(!o0.contains(out[i]));
                }
                if encodable(var_tuple(q.query_vars@)) && k == unbound_key(q) {
                    assert(has_key(out, k));
                }
            }
        }
    }
    r
}

proof fn lemma_size_room(size: int, total: int, n: int)
    requires
        0 <= size <= total,
        n >= 0,
    ensures
        size * n <= total * n,
{
    assert(size * n <= total * n) by (nonlinear_arith)
        requires
            0 <= size <= total,
            n >= 0,
    ;
}

/// The total encoded size of the facts leaves room for the trie and the stored-variable ids.
pub open spec fn facts_fit(q: &Conj, facts: Seq<TermV>) -> bool {
    &&& forall|i: int| 0 <= i < facts.len() ==> crate::term::encodable(#[trigger] facts[i])
    &&& crate::trie::node_room(1 + crate::trie::encoded_total(facts))
    &&& 1_000_000 + (1 + crate::trie::encoded_total(facts)) * q.patterns@.len() <= u32::MAX
}

/// A trie built from no terms has nothing below its root.
proof fn lemma_no_facts(trie: ByteTrie)
    requires
        trie.wf(),
        trie.leaves_end(),
        trie.stored() == crate::trie::encodings(Seq::<TermV>::empty()),
    ensures
        trie.labels(0).len() == 0,
{
    if trie.labels(0).len() > 0 {
        trie.lemma_size_pos();
        let b = trie.labels(0)[0];
        assert(trie.labels(0).contains(b));
        trie.lemma_step_label(0, b);
        let m = trie.step_to(0, b)->Some_0;
        trie.lemma_walk_cons(0, b, Seq::<u8>::empty());
        trie.lemma_walk_push(m, Seq::<u8>::empty(), 0u8);
        assert(seq![b] + Seq::<u8>::empty() =~= seq![b]);
        trie.lemma_walk_from_root(seq![b]);
        trie.lemma_path_stored(seq![b]);
        let e = choose|e: Seq<u8>| #[trigger] trie.stored().contains(e) && crate::wcojoin::is_prefix(seq![b], e);
        assert(crate::trie::encodings(Seq::<TermV>::empty()).contains(e));
    }
}

/// Every pattern of `q` is ground and one of `facts`.
pub open spec fn ground_facts(q: &Conj, facts: Seq<TermV>) -> bool {
    forall|j: int| 0 <= j < q.patterns@.len() ==> ground(#[trigger] q.patterns@[j]@)
        && exists|i: int| 0 <= i < facts.len() && facts[i] == q.patterns@[j]@
}

/// A pattern that is one of the encodable facts a trie was built from is stored in it whole.
proof fn lemma_facts_stored(q: &Conj, facts: Seq<TermV>, trie: ByteTrie)
    requires
        trie.wf(),
        trie.leaves_end(),
        trie.stored() == crate::trie::encodings(facts),
        forall|i: int| 0 <= i < facts.len() ==> encodable(#[trigger] facts[i]),
        ground_facts(q, facts),
    ensures
        ground_stored(q, trie),
{
    assert forall|j: int| 0 <= j < q.patterns@.len() implies ground(#[trigger] q.patterns@[j]@) && shape_ok(q.patterns@[j]@)
        && trie.walk_from(0, encoding(q.patterns@[j]@)) is Some by {
        let p = q.patterns@[j]@;
        let i = choose|i: int| 0 <= i < facts.len() && facts[i] == p;
        assert(encodable(facts[i]));
        let e = encoding(p);
        assert(crate::trie::encodings(facts).contains(e));
        assert(trie.stored().contains(e));
        crate::term::lemma_enc_len_pos(p, Seq::empty());
        assert(e.take(e.len() as int) =~= e);
        assert(crate::wcojoin::is_prefix(e, e));
        trie.lemma_path_stored(e);
        trie.lemma_walk_from_root(e);
    }
}

/// As [`cap_instance`], over the facts themselves: each pattern's image under `th` follows the
/// start of some fact's encoding, where `capture` lets up to 64 ground structured subterms of
/// the pattern each be met by a wildcard of that fact that captures them.
pub open spec fn cap_facts(q: &Conj, facts: Seq<TermV>, th: Map<u32, TermV>, capture: bool) -> bool {
    &&& forall|j: int| 0 <= j < q.patterns@.len() ==> shape_ok(subst(th, #[trigger] q.patterns@[j]@))
        && (forall|v: u32| fv(q.patterns@[j]@).contains(v) ==> ground(subst(th, TermV::Var(v))) && shape_ok(subst(th, TermV::Var(v))))
        && exists|i: int, w: Seq<u8>| #![trigger crel(capture, seq![q.patterns@[j]@], th, w, 64), facts[i]]
            0 <= i < facts.len() && crel(capture, seq![q.patterns@[j]@], th, w, 64) && crate::wcojoin::is_prefix(w, encoding(facts[i]))
    &&& forall|x: int| 0 <= x < q.query_vars@.len() ==> subst(th, TermV::Var(#[trigger] q.query_vars@[x])) == TermV::Var(q.query_vars@[x])
        || exists|j: int| 0 <= j < q.patterns@.len() && #[trigger] fv(q.patterns@[j]@).contains(q.query_vars@[x])
    &&& encodable(tuple_of(th, q.query_vars@))
}

/// Over a trie storing the facts, paths along the starts of the facts' encodings are stored.
proof fn lemma_cap_facts_stored(q: &Conj, facts: Seq<TermV>, trie: ByteTrie, th: Map<u32, TermV>, capture: bool)
    requires
        trie.wf(),
        trie.leaves_end(),
        trie.stored() == crate::trie::encodings(facts),
        cap_facts(q, facts, th, capture),
    ensures
        cap_instance(q, trie, th, capture),
{
    assert forall|j: int| 0 <= j < q.patterns@.len() implies #[trigger] shape_ok(subst(th, q.patterns@[j]@))
        && exists|w: Seq<u8>| #[trigger] crel(capture, seq![q.patterns@[j]@], th, w, 64) && trie.walk_from(0, w) is Some by {
        let (i, w) = choose|i: int, w: Seq<u8>| #![trigger crel(capture, seq![q.patterns@[j]@], th, w, 64), facts[i]]
            0 <= i < facts.len() && crel(capture, seq![q.patterns@[j]@], th, w, 64) && crate::wcojoin::is_prefix(w, encoding(facts[i]));
        let e = encoding(facts[i]);
        assert(crate::trie::encodings(facts).contains(e));
        assert(trie.stored().contains(e));
        assert(w.len() > 0);
        trie.lemma_path_stored(w);
        trie.lemma_walk_from_root(w);
    }
}

/// A path spelled without captures is spelled with captures allowed too.
proof fn lemma_crel_mono(items: Seq<TermV>, th: Map<u32, TermV>, w: Seq<u8>, k: nat)
    requires
        crel(false, items, th, w, k),
    ensures
        crel(true, items, th, w, k),
    decreases w.len(),
{
    if items.len() > 0 && w.len() > 0 {
        let q = items[0];
        let rest = items.subrange(1, items.len() as int);
        match q {
            TermV::Var(_) => {
                let e = encoding(subst(th, q));
                lemma_crel_mono(rest, th, w.subrange(e.len() as int, w.len() as int), k);
            },
            TermV::Sym(_) => {
                let e = encoding(q);
                lemma_crel_mono(rest, th, w.subrange(e.len() as int, w.len() as int), k);
            },
            TermV::App(a) => {
                lemma_crel_mono(a + rest, th, w.subrange(1, w.len() as int), k);
            },
        }
    }
}

/// Every answer that the equality join is proved to owe over `facts` (a substitution whose
/// pattern images follow the facts with no capture), the unification join is proved to owe
/// too.
pub proof fn law_capture_owes_more(q: &Conj, facts: Seq<TermV>, th: Map<u32, TermV>)
    requires
        cap_facts(q, facts, th, false),
    ensures
        cap_facts(q, facts, th, true),
{
    assert forall|j: int| 0 <= j < q.patterns@.len() implies #[trigger] shape_ok(subst(th, q.patterns@[j]@))
        && exists|i: int, w: Seq<u8>| #![trigger crel(true, seq![q.patterns@[j]@], th, w, 64), facts[i]]
            0 <= i < facts.len() && crel(true, seq![q.patterns@[j]@], th, w, 64) && crate::wcojoin::is_prefix(w, encoding(facts[i])) by {
        let (i, w) = choose|i: int, w: Seq<u8>| #![trigger crel(false, seq![q.patterns@[j]@], th, w, 64), facts[i]]
            0 <= i < facts.len() && crel(false, seq![q.patterns@[j]@], th, w, 64) && crate::wcojoin::is_prefix(w, encoding(facts[i]));
        lemma_crel_mono(seq![q.patterns@[j]@], th, w, 64);
    }
}

/// Over a trie storing the facts, a stored path from the root runs along the start of some
/// fact's encoding.
proof fn lemma_stored_fact_path(t: TermV, facts: Seq<TermV>, trie: ByteTrie, cap: bool)
    requires
        trie.wf(),
        trie.leaves_end(),
        trie.stored() == crate::trie::encodings(facts),
        stored_path(trie, cap, t),
    ensures
        fact_path(facts, cap, t),
{
    let (w, sp) = choose|w: Seq<u8>, sp: Seq<nat>| #[trigger] scomp(cap, seq![t], w, sp) && trie.walk_from(0, w) is Some;
    assert(w.len() > 0);
    trie.lemma_walk_from_root(w);
    trie.lemma_path_stored(w);
    let e = choose|e: Seq<u8>| #[trigger] trie.stored().contains(e) && crate::wcojoin::is_prefix(w, e);
    assert(crate::trie::encodings(facts).contains(e));
    let i = choose|i: int| 0 <= i < facts.len() && e == #[trigger] encoding(facts[i]);
    assert(scomp(cap, seq![t], w, sp) && crate::wcojoin::is_prefix(w, encoding(facts[i])));
}

/// Every query variable of `q` occurs in a pattern.
pub open spec fn vars_met(q: &Conj) -> bool {
    forall|x: int| 0 <= x < q.query_vars@.len()
        ==> exists|j: int| 0 <= j < q.patterns@.len() && #[trigger] fv(q.patterns@[j]@).contains(#[trigger] q.query_vars@[x])
}

/// Every fact is ground.
pub open spec fn ground_all_facts(facts: Seq<TermV>) -> bool {
    forall|i: int| 0 <= i < facts.len() ==> ground(#[trigger] facts[i])
}

/// Over ground facts stored in a trie, the most general unifier of a matching choice sends the
/// patterns to the chosen facts: every answer of the matcher is the key of a stored instance.
proof fn lemma_answer_stored(q: &Conj, facts: Seq<TermV>, trie: ByteTrie, k: Seq<u8>)
    requires
        trie.wf(),
        trie.leaves_end(),
        trie.stored() == crate::trie::encodings(facts),
        forall|i: int| 0 <= i < facts.len() ==> encodable(#[trigger] facts[i]),
        ground_all_facts(facts),
        crate::oracle::ready(views(q.patterns@), q.query_vars@, facts),
        vars_met(q),
        crate::oracle::answers(views(q.patterns@), facts, q.query_vars@).contains(k),
    ensures
        exists|th: Map<u32, TermV>| stored_instance(q, trie, th) && #[trigger] key_of(th, q.query_vars@) == k,
{
    let pats = views(q.patterns@);
    let qv = q.query_vars@;
    let c = choose|c: Seq<int>| #[trigger] crate::oracle::is_choice(c, pats.len(), facts.len())
        && crate::oracle::matched(pats, facts, c) && k == crate::oracle::answer_of(pats, facts, qv, c);
    let ps = crate::oracle::choice_pairs(pats, facts, c);
    let th = crate::oracle::mgu(ps);
    assert(crate::oracle::is_mgu(th, ps));
    assert(encodable(tuple_of(th, qv)));
    assert forall|j: int| 0 <= j < q.patterns@.len() implies shape_ok(subst(th, #[trigger] q.patterns@[j]@))
        && (forall|v: u32| fv(q.patterns@[j]@).contains(v) ==> ground(subst(th, TermV::Var(v))) && shape_ok(subst(th, TermV::Var(v))))
        && trie.walk_from(0, encoding(subst(th, q.patterns@[j]@))) is Some by {
        let p = q.patterns@[j]@;
        assert(pats[j] == p);
        let f = facts[c[j]];
        assert(ground(f));
        assert(encodable(f));
        lemma_ground_fv(f);
        crate::term::lemma_map_vars_closed(f, |v: u32| (v + crate::oracle::fact_offset(c, j) as u32) as u32);
        assert(ps[j] == (p, f));
        assert(subst(th, ps[j].0) == subst(th, ps[j].1));
        lemma_ground_image(th, f);
        assert(subst(th, p) == f);
        assert forall|v: u32| fv(p).contains(v) implies ground(subst(th, TermV::Var(v))) && shape_ok(subst(th, TermV::Var(v))) by {
            lemma_image_parts(th, p, v);
        }
        let e = encoding(f);
        assert(crate::trie::encodings(facts).contains(e));
        assert(trie.stored().contains(e));
        crate::term::lemma_enc_len_pos(f, Seq::empty());
        assert(e.take(e.len() as int) =~= e);
        assert(crate::wcojoin::is_prefix(e, e));
        trie.lemma_path_stored(e);
        trie.lemma_walk_from_root(e);
    }
    assert forall|x: int| 0 <= x < qv.len() implies subst(th, TermV::Var(#[trigger] q.query_vars@[x])) == TermV::Var(q.query_vars@[x])
        || exists|j: int| 0 <= j < q.patterns@.len() && #[trigger] fv(q.patterns@[j]@).contains(q.query_vars@[x]) by {
        assert(exists|j: int| 0 <= j < q.patterns@.len() && #[trigger] fv(q.patterns@[j]@).contains(#[trigger] q.query_vars@[x]));
    }
    assert(stored_instance(q, trie, th));
}

/// The unification join over a byte-trie built from `facts`. Proved of the answers: a query
/// with no patterns has exactly the tuple of its unbound variables as answer, one with patterns
/// has none over no facts, over ground facts every answer of the matcher is among them, and a
/// substitution whose pattern images follow the facts up to wildcards of the facts capturing
/// ground structured subterms of the patterns gives its answer.
pub fn trie_unify_join(q: &Conj, facts: &[Term]) -> (r: BTreeSet<Vec<u8>>)
    requires
        facts_fit(q, crate::term::views(facts@)),
    ensures
        q.patterns@.len() == 0 ==> forall|k: Seq<u8>| holds_key(r@, k) <==> encodable(var_tuple(q.query_vars@)) && k == unbound_key(q),
        ground_facts(q, crate::term::views(facts@)) && encodable(var_tuple(q.query_vars@)) ==> holds_key(r@, unbound_key(q)),
        q.patterns@.len() > 0 && facts@.len() == 0 ==> forall|k: Seq<u8>| !holds_key(r@, k),
        ground_all_facts(views(facts@)) && crate::oracle::ready(views(q.patterns@), q.query_vars@, views(facts@)) && vars_met(q)
            ==> forall|k: Seq<u8>| #[trigger] crate::oracle::answers(views(q.patterns@), views(facts@), q.query_vars@).contains(k)
                ==> holds_key(r@, k),
        forall|th: Map<u32, TermV>| #![trigger key_of(th, q.query_vars@)]
            cap_facts(q, views(facts@), th, true) && captures_fit(q, th, 1_000_000u32) ==> holds_key(r@, key_of(th, q.query_vars@)),
        (exists|k: Seq<u8>| holds_key(r@, k)) ==> forall|j: int| 0 <= j < q.patterns@.len()
            ==> #[trigger] fact_path(views(facts@), true, q.patterns@[j]@),
{
    proof {
        assert forall|i: int| 0 <= i < facts@.len() implies crate::term::encodable(#[trigger] facts@[i]@) by {
            assert(crate::term::views(facts@)[i] == facts@[i]@);
        }
    }
    let trie = ByteTrie::from_terms(facts);
    let z = TrieZipper::new(&trie);
    proof {
        lemma_size_room(trie.size() as int, 1 + crate::trie::encoded_total(crate::term::views(facts@)), q.patterns@.len() as int);
        if ground_facts(q, crate::term::views(facts@)) {
            lemma_facts_stored(q, crate::term::views(facts@), trie);
        }
        if facts@.len() == 0 {
            assert(crate::term::views(facts@) =~= Seq::<TermV>::empty());
            lemma_no_facts(trie);
        }
    }
    let r = unify_join_z(z, q, 1_000_000);
    proof {
        assert forall|th: Map<u32, TermV>| #![trigger key_of(th, q.query_vars@)]
            cap_facts(q, views(facts@), th, true) && captures_fit(q, th, 1_000_000u32) implies holds_key(r@, key_of(th, q.query_vars@)) by {
            lemma_cap_facts_stored(q, views(facts@), trie, th, true);
        }
    }
    proof {
        if exists|k: Seq<u8>| holds_key(r@, k) {
            assert forall|j: int| 0 <= j < q.patterns@.len() implies #[trigger] fact_path(views(facts@), true, q.patterns@[j]@) by {
                lemma_stored_fact_path(q.patterns@[j]@, views(facts@), trie, true);
            }
        }
    }
    proof {
        let fs = crate::term::views(facts@);
        if ground_all_facts(fs) && crate::oracle::ready(views(q.patterns@), q.query_vars@, fs) && vars_met(q) {
            assert forall|k: Seq<u8>| #[trigger] crate::oracle::answers(views(q.patterns@), fs, q.query_vars@).contains(k)
                implies holds_key(r@, k) by {
                lemma_answer_stored(q, fs, trie, k);
                let th = choose|th: Map<u32, TermV>| stored_instance(q, trie, th) && #[trigger] key_of(th, q.query_vars@) == k;
                assert(stored_instance(q, z.tree(), th));
            }
        }
    }
    r
}

/// The same descent with data-side capture disabled: a stored wildcard never absorbs a query
/// compound, so a query pattern matches only by structural equality up to query-variable
/// binding. Proved of its answers: what [`trie_unify_join`] states, except that the answers
/// owed through a captured subterm are owed only where the pattern images follow the facts
/// with no capture. That its answers are a subset of [`trie_unify_join`]'s is checked by the
/// tests.
pub fn equality_join(q: &Conj, facts: &[Term]) -> (r: BTreeSet<Vec<u8>>)
    requires
        facts_fit(q, crate::term::views(facts@)),
    ensures
        q.patterns@.len() == 0 ==> forall|k: Seq<u8>| holds_key(r@, k) <==> encodable(var_tuple(q.query_vars@)) && k == unbound_key(q),
        ground_facts(q, crate::term::views(facts@)) && encodable(var_tuple(q.query_vars@)) ==> holds_key(r@, unbound_key(q)),
        q.patterns@.len() > 0 && facts@.len() == 0 ==> forall|k: Seq<u8>| !holds_key(r@, k),
        ground_all_facts(views(facts@)) && crate::oracle::ready(views(q.patterns@), q.query_vars@, views(facts@)) && vars_met(q)
            ==> forall|k: Seq<u8>| #[trigger] crate::oracle::answers(views(q.patterns@), views(facts@), q.query_vars@).contains(k)
                ==> holds_key(r@, k),
        forall|th: Map<u32, TermV>| #![trigger key_of(th, q.query_vars@)]
            cap_facts(q, views(facts@), th, false) && captures_fit(q, th, 1_000_000u32) ==> holds_key(r@, key_of(th, q.query_vars@)),
        (exists|k: Seq<u8>| holds_key(r@, k)) ==> forall|j: int| 0 <= j < q.patterns@.len()
            ==> #[trigger] fact_path(views(facts@), false, q.patterns@[j]@),
{
    proof {
        assert forall|i: int| 0 <= i < facts@.len() implies crate::term::encodable(#[trigger] facts@[i]@) by {
            assert(crate::term::views(facts@)[i] == facts@[i]@);
        }
    }
    let trie = ByteTrie::from_terms(facts);
    let z = TrieZipper::new(&trie);
    proof {
        lemma_size_room(trie.size() as int, 1 + crate::trie::encoded_total(crate::term::views(facts@)), q.patterns@.len() as int);
        if ground_facts(q, crate::term::views(facts@)) {
            lemma_facts_stored(q, crate::term::views(facts@), trie);
        }
        if facts@.len() == 0 {
            assert(crate::term::views(facts@) =~= Seq::<TermV>::empty());
            lemma_no_facts(trie);
        }
    }
    let r = unify_join_z_opts(z, q, 1_000_000, false);
    proof {
        assert forall|th: Map<u32, TermV>| #![trigger key_of(th, q.query_vars@)]
            cap_facts(q, views(facts@), th, false) && captures_fit(q, th, 1_000_000u32) implies holds_key(r@, key_of(th, q.query_vars@)) by {
            lemma_cap_facts_stored(q, views(facts@), trie, th, false);
        }
    }
    proof {
        if exists|k: Seq<u8>| holds_key(r@, k) {
            assert forall|j: int| 0 <= j < q.patterns@.len() implies #[trigger] fact_path(views(facts@), false, q.patterns@[j]@) by {
                lemma_stored_fact_path(q.patterns@[j]@, views(facts@), trie, false);
            }
        }
    }
    proof {
        let fs = crate::term::views(facts@);
        if ground_all_facts(fs) && crate::oracle::ready(views(q.patterns@), q.query_vars@, fs) && vars_met(q) {
            assert forall|k: Seq<u8>| #[trigger] crate::oracle::answers(views(q.patterns@), fs, q.query_vars@).contains(k)
                implies holds_key(r@, k) by {
                lemma_answer_stored(q, fs, trie, k);
                let th = choose|th: Map<u32, TermV>| stored_instance(q, trie, th) && #[trigger] key_of(th, q.query_vars@) == k;
                assert(stored_instance(q, z.tree(), th));
            }
        }
    }
    r
}

} // verus!
