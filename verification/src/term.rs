//! Terms and MORK's tag-byte encoding.
//!
//! A `Term` is a symbol, a variable, or an expression (a tuple of sub-terms). A term is
//! serialized to a flat, self-delimiting byte string: one leading byte per item, whose top two
//! bits classify it.
//!
//! ```text
//!   0b00xxxxxx  Arity(a)        an expression with `a` children   (a in 0..=63)
//!   0b10xxxxxx  VarRef(i)       a back-reference to variable i     (De Bruijn level)
//!   0b11000000  NewVar          a fresh variable  ($)
//!   0b11xxxxxx  SymbolSize(s)   a symbol; `s` raw bytes follow     (s in 1..=63)
//! ```
//!
//! Variables are stored anonymously and by position (De Bruijn levels), so alpha-equivalent
//! terms encode to identical bytes.

use vstd::prelude::*;
use std::collections::HashMap;
use vstd::utf8::{encode_utf8, decode_utf8, valid_utf8};
use crate::text::{string_from_utf8, string_bytes, str_chars, chars_to_string, push_decimal, push_chars, decimal};

verus! {

broadcast use vstd::utf8::encode_utf8_decode_utf8, vstd::utf8::decode_utf8_encode_utf8,
    vstd::utf8::encode_utf8_valid_utf8;

/// A term: the MeTTa atom model.
#[derive(Debug, PartialEq, Eq, Hash)]
pub enum Term {
    /// A symbol / atom name, e.g. `f`, `Cons`, `:`. 1..=63 bytes.
    Sym(String),
    /// A variable, identified by an id.
    Var(u32),
    /// An expression (tuple). Arity 0..=63.
    App(Vec<Term>),
}

/// The mathematical model of a term: symbols are character sequences, children a sequence.
pub enum TermV {
    Sym(Seq<char>),
    Var(u32),
    App(Seq<TermV>),
}

/// The model of a term.
pub open spec fn term_view(t: &Term) -> TermV
    decreases t,
{
    match t {
        Term::Sym(s) => TermV::Sym(s@),
        Term::Var(v) => TermV::Var(*v),
        Term::App(a) => TermV::App(
            Seq::new(a@.len(), |i: int| if 0 <= i < a@.len() { term_view(&a@[i]) } else { TermV::Var(0) }),
        ),
    }
}

impl View for Term {
    type V = TermV;

    open spec fn view(&self) -> TermV {
        term_view(self)
    }
}

/// The models of a sequence of terms.
pub open spec fn views(a: Seq<Term>) -> Seq<TermV> {
    Seq::new(a.len(), |i: int| a[i]@)
}

pub proof fn lemma_view_app(a: Vec<Term>)
    ensures
        (Term::App(a))@ == TermV::App(views(a@)),
{
    let s = (Term::App(a))@->App_0;
    assert(s =~= views(a@));
}

// --- tag bytes ---
const TOP2: u8 = 0b1100_0000;
const TAG_ARITY: u8 = 0b0000_0000;
const TAG_VARREF: u8 = 0b1000_0000;
const TAG_SYMSIZE: u8 = 0b1100_0000;
const NEWVAR_BYTE: u8 = 0b1100_0000;
const LOW6: u8 = 0b0011_1111;

/// The maximum arity / symbol length / variable count, from the single-byte tag.
pub const MAX6: usize = 63;

// ---------------------------------------------------------------------------
// Specification of terms
// ---------------------------------------------------------------------------

/// No variable occurs in the term.
pub open spec fn ground(t: TermV) -> bool
    decreases t, 0nat,
{
    match t {
        TermV::Sym(_) => true,
        TermV::Var(_) => false,
        TermV::App(a) => ground_all(a, a.len()),
    }
}

/// The first `k` terms of `a` are ground.
pub open spec fn ground_all(a: Seq<TermV>, k: nat) -> bool
    decreases a, k,
{
    if k == 0 || k > a.len() {
        true
    } else {
        ground_all(a, (k - 1) as nat) && ground(a[k - 1])
    }
}

pub proof fn lemma_ground_all(a: Seq<TermV>, k: nat)
    requires
        k <= a.len(),
    ensures
        ground_all(a, k) <==> forall|i: int| 0 <= i < k ==> #[trigger] ground(a[i]),
    decreases k,
{
    if k > 0 {
        lemma_ground_all(a, (k - 1) as nat);
        assert(ground_all(a, k) == (ground_all(a, (k - 1) as nat) && ground(a[k - 1])));
    }
}

/// The set of variables occurring in the term.
pub open spec fn fv(t: TermV) -> Set<u32>
    decreases t, 0nat,
{
    match t {
        TermV::Sym(_) => Set::empty(),
        TermV::Var(v) => set![v],
        TermV::App(a) => fv_all(a, a.len()),
    }
}

/// The variables of the first `k` terms of `a`.
pub open spec fn fv_all(a: Seq<TermV>, k: nat) -> Set<u32>
    decreases a, k,
{
    if k == 0 || k > a.len() {
        Set::empty()
    } else {
        fv_all(a, (k - 1) as nat).union(fv(a[k - 1]))
    }
}

pub proof fn lemma_fv_all(a: Seq<TermV>, k: nat)
    requires
        k <= a.len(),
    ensures
        forall|v: u32| fv_all(a, k).contains(v) <==> exists|i: int| 0 <= i < k && #[trigger] fv(a[i]).contains(v),
    decreases k,
{
    if k > 0 {
        lemma_fv_all(a, (k - 1) as nat);
        assert(fv_all(a, k) == fv_all(a, (k - 1) as nat).union(fv(a[k - 1])));
        assert forall|v: u32| fv_all(a, k).contains(v) implies exists|i: int| 0 <= i < k && #[trigger] fv(a[i]).contains(v) by {
            if fv(a[k - 1]).contains(v) {
            } else {
                let j = choose|j: int| 0 <= j < k - 1 && #[trigger] fv(a[j]).contains(v);
            }
        }
        assert forall|v: u32| (exists|i: int| 0 <= i < k && #[trigger] fv(a[i]).contains(v)) implies fv_all(a, k).contains(v) by {
            let j = choose|j: int| 0 <= j < k && #[trigger] fv(a[j]).contains(v);
            if j < k - 1 {
            }
        }
    }
}

/// Every symbol is 1..=63 bytes and every expression has at most 63 children.
pub open spec fn shape_ok(t: TermV) -> bool
    decreases t, 0nat,
{
    match t {
        TermV::Sym(s) => 1 <= encode_utf8(s).len() <= 63,
        TermV::Var(_) => true,
        TermV::App(a) => a.len() <= 63 && shape_all(a, a.len()),
    }
}

pub open spec fn shape_all(a: Seq<TermV>, k: nat) -> bool
    decreases a, k,
{
    if k == 0 || k > a.len() {
        true
    } else {
        shape_all(a, (k - 1) as nat) && shape_ok(a[k - 1])
    }
}

pub proof fn lemma_shape_all(a: Seq<TermV>, k: nat)
    requires
        k <= a.len(),
    ensures
        shape_all(a, k) <==> forall|i: int| 0 <= i < k ==> #[trigger] shape_ok(a[i]),
    decreases k,
{
    if k > 0 {
        lemma_shape_all(a, (k - 1) as nat);
        assert(shape_all(a, k) == (shape_all(a, (k - 1) as nat) && shape_ok(a[k - 1])));
    }
}

/// `seen` extended by the variables of `t` not yet in it, in first-occurrence order.
pub open spec fn collect(t: TermV, seen: Seq<u32>) -> Seq<u32>
    decreases t, 1nat,
{
    match t {
        TermV::Sym(_) => seen,
        TermV::Var(v) => if seen.contains(v) { seen } else { seen.push(v) },
        TermV::App(a) => collect_seq(a, seen),
    }
}

pub open spec fn collect_seq(a: Seq<TermV>, seen: Seq<u32>) -> Seq<u32>
    decreases a, 0nat,
{
    if a.len() == 0 {
        seen
    } else {
        collect_seq(a.subrange(1, a.len() as int), collect(a[0], seen))
    }
}

/// The distinct variables of `t`, in first-occurrence order.
pub open spec fn vars_of(t: TermV) -> Seq<u32> {
    collect(t, seq![])
}

/// A term the encoder accepts: well-shaped, with at most 64 distinct variables.
pub open spec fn encodable(t: TermV) -> bool {
    shape_ok(t) && vars_of(t).len() <= 64
}

/// Apply a variable renaming to a term.
pub open spec fn map_vars(t: TermV, f: spec_fn(u32) -> u32) -> TermV
    decreases t,
{
    match t {
        TermV::Sym(s) => TermV::Sym(s),
        TermV::Var(v) => TermV::Var(f(v)),
        TermV::App(a) => TermV::App(Seq::new(a.len(), |i: int| if 0 <= i < a.len() { map_vars(a[i], f) } else { TermV::Var(0) })),
    }
}

/// Shift every variable id by `offset`.
pub open spec fn shift(t: TermV, offset: u32) -> TermV {
    map_vars(t, |v: u32| (v + offset) as u32)
}

/// Every variable id of `t` plus `offset` fits in a `u32`.
pub open spec fn shift_ok(t: TermV, offset: u32) -> bool {
    forall|v: u32| fv(t).contains(v) ==> v + offset <= u32::MAX
}

/// The renaming that sends each variable of `l` to its position in `l`.
pub open spec fn lab(l: Seq<u32>) -> spec_fn(u32) -> u32 {
    |v: u32| l.index_of(v) as u32
}

/// The canonical (De Bruijn) form: each variable replaced by its first-occurrence level.
pub open spec fn canon(t: TermV) -> TermV {
    map_vars(t, lab(vars_of(t)))
}

/// `f` is injective on the given set of variables.
pub open spec fn injective_on(f: spec_fn(u32) -> u32, d: Set<u32>) -> bool {
    forall|x: u32, y: u32| d.contains(x) && d.contains(y) && #[trigger] f(x) == #[trigger] f(y) ==> x == y
}

// --- the encoding ---

/// The encoding of `t` when the variables in `seen` were introduced before it.
pub open spec fn enc(t: TermV, seen: Seq<u32>) -> Seq<u8>
    decreases t, 1nat,
{
    match t {
        TermV::Sym(s) => seq![(0xC0 + encode_utf8(s).len()) as u8] + encode_utf8(s),
        TermV::Var(v) => if seen.contains(v) {
            seq![(0x80 + seen.index_of(v)) as u8]
        } else {
            seq![0xC0u8]
        },
        TermV::App(a) => seq![a.len() as u8] + enc_seq(a, seen),
    }
}

pub open spec fn enc_seq(a: Seq<TermV>, seen: Seq<u32>) -> Seq<u8>
    decreases a, 0nat,
{
    if a.len() == 0 {
        seq![]
    } else {
        enc(a[0], seen) + enc_seq(a.subrange(1, a.len() as int), collect(a[0], seen))
    }
}

/// The byte encoding of a term.
pub open spec fn encoding(t: TermV) -> Seq<u8> {
    enc(t, seq![])
}

// --- the decoder ---

/// Parse one term from `b` at `pos`, `nl` variables having been introduced so far. `None` is
/// where the decoder cannot proceed (out of bytes, or a symbol payload that is not UTF-8).
pub open spec fn dec_at(b: Seq<u8>, pos: int, nl: nat) -> Option<(TermV, int, nat)>
    decreases b.len() - pos, 1nat, 0nat,
{
    if pos < 0 || pos >= b.len() {
        None
    } else {
        let x = b[pos];
        if x < 64 {
            match dec_n(b, pos + 1, nl, x as nat) {
                Some((ts, p, n)) => Some((TermV::App(ts), p, n)),
                None => None,
            }
        } else if 128 <= x < 192 {
            Some((TermV::Var((x - 128) as u32), pos + 1, nl))
        } else if x == 192 {
            Some((TermV::Var(nl as u32), pos + 1, nl + 1))
        } else {
            let len = (x % 64) as int;
            if pos + 1 + len <= b.len() && valid_utf8(b.subrange(pos + 1, pos + 1 + len)) {
                Some((TermV::Sym(decode_utf8(b.subrange(pos + 1, pos + 1 + len))), pos + 1 + len, nl))
            } else {
                None
            }
        }
    }
}

/// Parse `k` consecutive terms.
pub open spec fn dec_n(b: Seq<u8>, pos: int, nl: nat, k: nat) -> Option<(Seq<TermV>, int, nat)>
    decreases b.len() - pos, 2nat, k,
{
    if pos < 0 || pos > b.len() {
        None
    } else if k == 0 {
        Some((seq![], pos, nl))
    } else {
        match dec_at(b, pos, nl) {
            Some((t, p, n)) => if p <= pos || p > b.len() {
                None
            } else {
                match dec_n(b, p, n, (k - 1) as nat) {
                    Some((ts, p2, n2)) => Some((seq![t] + ts, p2, n2)),
                    None => None,
                }
            },
            None => None,
        }
    }
}

/// The bytes are exactly one complete term that the decoder reads.
pub open spec fn decodable(b: Seq<u8>) -> bool {
    &&& dec_at(b, 0, 0) matches Some((_, p, n)) && p == b.len() && n <= u32::MAX
}

pub open spec fn decoded(b: Seq<u8>) -> TermV {
    dec_at(b, 0, 0)->Some_0.0
}

/// The printed form: symbols verbatim, variables as `$id`, expressions as `(a b ...)`.
pub open spec fn text(t: TermV) -> Seq<char>
    decreases t, 1nat,
{
    match t {
        TermV::Sym(s) => s,
        TermV::Var(v) => seq!['$'] + decimal(v as nat),
        TermV::App(a) => seq!['('] + text_seq(a, true) + seq![')'],
    }
}

/// The printed children, space-separated (`first` says no separator precedes them).
pub open spec fn text_seq(a: Seq<TermV>, first: bool) -> Seq<char>
    decreases a, 0nat,
{
    if a.len() == 0 {
        seq![]
    } else {
        (if first { seq![] } else { seq![' '] }) + text(a[0]) + text_seq(a.subrange(1, a.len() as int), false)
    }
}

// ---------------------------------------------------------------------------
// Lemmas about variables and the encoding
// ---------------------------------------------------------------------------

pub proof fn lemma_index_of(s: Seq<u32>, i: int)
    requires
        s.no_duplicates(),
        0 <= i < s.len(),
    ensures
        s.index_of(s[i]) == i,
{
    let x = s[i];
    assert(0 <= i < s.len() && s[i] == x);
    assert(exists|k: int| 0 <= k < s.len() && s[k] == x);
    let j = s.index_of(x);
    assert(0 <= j < s.len() && s[j] == x);
}

/// `fv` of an expression, split at its first child.
pub proof fn lemma_fv_head(a: Seq<TermV>)
    requires
        a.len() > 0,
    ensures
        forall|v: u32| fv(TermV::App(a)).contains(v) <==>
            (fv(a[0]).contains(v) || fv(TermV::App(a.subrange(1, a.len() as int))).contains(v)),
{
    let r = a.subrange(1, a.len() as int);
    lemma_fv_all(a, a.len());
    lemma_fv_all(r, r.len());
    assert(fv(TermV::App(a)) == fv_all(a, a.len()));
    assert(fv(TermV::App(r)) == fv_all(r, r.len()));
    assert forall|v: u32| fv(TermV::App(a)).contains(v) implies
        (fv(a[0]).contains(v) || fv(TermV::App(r)).contains(v)) by {
        let i = choose|i: int| 0 <= i < a.len() && #[trigger] fv(a[i]).contains(v);
        if i > 0 {
            assert(r[i - 1] == a[i]);
            assert(fv(r[i - 1]).contains(v));
        }
    }
    assert forall|v: u32| (fv(a[0]).contains(v) || fv(TermV::App(r)).contains(v)) implies
        fv(TermV::App(a)).contains(v) by {
        if fv(a[0]).contains(v) {
            assert(fv(a[0]).contains(v));
        } else {
            let i = choose|i: int| 0 <= i < r.len() && #[trigger] fv(r[i]).contains(v);
            assert(r[i] == a[i + 1]);
            assert(fv(a[i + 1]).contains(v));
        }
    }
}

pub proof fn lemma_shape_head(a: Seq<TermV>)
    requires
        a.len() > 0,
        shape_ok(TermV::App(a)),
    ensures
        shape_ok(a[0]),
        shape_ok(TermV::App(a.subrange(1, a.len() as int))),
{
    let r = a.subrange(1, a.len() as int);
    lemma_shape_all(a, a.len());
    lemma_shape_all(r, r.len());
    assert(shape_ok(TermV::App(a)) == (a.len() <= 63 && shape_all(a, a.len())));
    assert(shape_ok(TermV::App(r)) == (r.len() <= 63 && shape_all(r, r.len())));
    assert forall|i: int| 0 <= i < r.len() implies #[trigger] shape_ok(r[i]) by {
        assert(r[i] == a[i + 1]);
    }
}

/// `collect` extends `seen` (as a prefix), keeps it duplicate-free, and adds exactly the
/// variables of the term.
pub proof fn lemma_collect(t: TermV, s: Seq<u32>)
    ensures
        collect(t, s).len() >= s.len(),
        collect(t, s).subrange(0, s.len() as int) =~= s,
        s.no_duplicates() ==> collect(t, s).no_duplicates(),
        forall|v: u32| #[trigger] collect(t, s).contains(v) <==> (s.contains(v) || fv(t).contains(v)),
    decreases t, 1nat,
{
    match t {
        TermV::Sym(_) => {}
        TermV::Var(v) => {
            if !s.contains(v) {
                assert forall|u: u32| #[trigger] s.push(v).contains(u) <==> (s.contains(u) || u == v) by {
                    if s.push(v).contains(u) {
                        let k = choose|k: int| 0 <= k < s.push(v).len() && s.push(v)[k] == u;
                        if k < s.len() {
                            assert(s[k] == u);
                        }
                    }
                    if s.contains(u) {
                        let k = choose|k: int| 0 <= k < s.len() && s[k] == u;
                        assert(s.push(v)[k] == u);
                    }
                    if u == v {
                        assert(s.push(v)[s.len() as int] == u);
                    }
                }
            }
        }
        TermV::App(a) => {
            lemma_collect_seq(a, s);
        }
    }
}

pub proof fn lemma_collect_seq(a: Seq<TermV>, s: Seq<u32>)
    ensures
        collect_seq(a, s).len() >= s.len(),
        collect_seq(a, s).subrange(0, s.len() as int) =~= s,
        s.no_duplicates() ==> collect_seq(a, s).no_duplicates(),
        forall|v: u32| #[trigger] collect_seq(a, s).contains(v) <==> (s.contains(v) || fv(TermV::App(a)).contains(v)),
    decreases a, 0nat,
{
    if a.len() == 0 {
        lemma_fv_all(a, 0);
        assert(fv(TermV::App(a)) == fv_all(a, a.len()));
    } else {
        let r = a.subrange(1, a.len() as int);
        let s1 = collect(a[0], s);
        lemma_collect(a[0], s);
        lemma_collect_seq(r, s1);
        lemma_fv_head(a);
        let s2 = collect_seq(r, s1);
        assert(s2.subrange(0, s.len() as int) =~= s1.subrange(0, s1.len() as int).subrange(0, s.len() as int));
    }
}

pub proof fn lemma_map_vars_app(a: Seq<TermV>, f: spec_fn(u32) -> u32)
    ensures
        map_vars(TermV::App(a), f) == TermV::App(Seq::new(a.len(), |j: int| map_vars(a[j], f))),
{
    let s = map_vars(TermV::App(a), f)->App_0;
    assert(s =~= Seq::new(a.len(), |j: int| map_vars(a[j], f)));
}

/// The decoder always advances, stays within the bytes, and introduces at most one variable
/// per byte it reads.
pub proof fn lemma_dec_at_bounds(b: Seq<u8>, pos: int, nl: nat)
    ensures
        dec_at(b, pos, nl) matches Some((_, p, n)) ==> pos < p <= b.len() && nl <= n && n - nl <= p - pos,
    decreases b.len() - pos, 1nat, 0nat,
{
    if 0 <= pos < b.len() {
        let x = b[pos];
        if x < 64 {
            lemma_dec_n_bounds(b, pos + 1, nl, x as nat);
        }
    }
}

pub proof fn lemma_dec_n_bounds(b: Seq<u8>, pos: int, nl: nat, k: nat)
    ensures
        dec_n(b, pos, nl, k) matches Some((ts, p, n)) ==> pos <= p <= b.len() && nl <= n && n - nl <= p - pos
            && ts.len() == k,
    decreases b.len() - pos, 2nat, k,
{
    if 0 <= pos <= b.len() && k > 0 {
        lemma_dec_at_bounds(b, pos, nl);
        match dec_at(b, pos, nl) {
            Some((t, p, n)) => {
                if pos < p <= b.len() {
                    lemma_dec_n_bounds(b, p, n, (k - 1) as nat);
                }
            }
            None => {}
        }
    }
}

pub open spec fn mseq(a: Seq<TermV>, f: spec_fn(u32) -> u32) -> Seq<TermV> {
    Seq::new(a.len(), |j: int| map_vars(a[j], f))
}

/// Renaming variables injectively does not change the encoding (alpha-equivalence).
pub proof fn lemma_enc_map(t: TermV, s: Seq<u32>, f: spec_fn(u32) -> u32)
    requires
        s.no_duplicates(),
        injective_on(f, s.to_set().union(fv(t))),
    ensures
        enc(map_vars(t, f), s.map_values(f)) == enc(t, s),
        collect(map_vars(t, f), s.map_values(f)) == collect(t, s).map_values(f),
    decreases t, 1nat,
{
    match t {
        TermV::Sym(_) => {}
        TermV::Var(v) => {
            let sm = s.map_values(f);
            assert(fv(t).contains(v));
            if s.contains(v) {
                let i = choose|i: int| 0 <= i < s.len() && s[i] == v;
                lemma_index_of(s, i);
                assert(sm[i] == f(v));
                assert(sm.no_duplicates()) by {
                    assert forall|x: int, y: int| 0 <= x < sm.len() && 0 <= y < sm.len() && x != y implies sm[x] != sm[y] by {
                        assert(s.to_set().contains(s[x]));
                        assert(s.to_set().contains(s[y]));
                        if f(s[x]) == f(s[y]) {
                            assert(s[x] == s[y]);
                        }
                    }
                }
                lemma_index_of(sm, i);
                assert(sm.contains(f(v)));
            } else {
                assert(!sm.contains(f(v))) by {
                    if sm.contains(f(v)) {
                        let i = choose|i: int| 0 <= i < sm.len() && sm[i] == f(v);
                        assert(s.to_set().contains(s[i]));
                        assert(f(s[i]) == f(v));
                    }
                }
                assert(s.push(v).map_values(f) =~= sm.push(f(v)));
            }
        }
        TermV::App(a) => {
            lemma_map_vars_app(a, f);
            lemma_enc_map_seq(a, s, f);
        }
    }
}

pub proof fn lemma_enc_map_seq(a: Seq<TermV>, s: Seq<u32>, f: spec_fn(u32) -> u32)
    requires
        s.no_duplicates(),
        injective_on(f, s.to_set().union(fv(TermV::App(a)))),
    ensures
        enc_seq(mseq(a, f), s.map_values(f)) == enc_seq(a, s),
        collect_seq(mseq(a, f), s.map_values(f)) == collect_seq(a, s).map_values(f),
    decreases a, 0nat,
{
    let m = mseq(a, f);
    if a.len() > 0 {
        let r = a.subrange(1, a.len() as int);
        lemma_fv_head(a);
        assert(injective_on(f, s.to_set().union(fv(a[0])))) by {
            assert forall|x: u32| s.to_set().union(fv(a[0])).contains(x) implies s.to_set().union(fv(TermV::App(a))).contains(x) by {}
        }
        lemma_enc_map(a[0], s, f);
        let s1 = collect(a[0], s);
        lemma_collect(a[0], s);
        assert(injective_on(f, s1.to_set().union(fv(TermV::App(r))))) by {
            assert forall|x: u32| s1.to_set().union(fv(TermV::App(r))).contains(x) implies s.to_set().union(fv(TermV::App(a))).contains(x) by {
                if s1.to_set().contains(x) {
                    assert(s1.contains(x));
                }
            }
        }
        lemma_enc_map_seq(r, s1, f);
        assert(m.subrange(1, m.len() as int) =~= mseq(r, f));
        assert(m[0] == map_vars(a[0], f));
    }
}

/// Decoding the encoding of `t` (written at `p` inside `b`) reads back `t` relabeled by the
/// variable order `l`, advancing past exactly the encoding.
pub proof fn lemma_dec_enc(t: TermV, s: Seq<u32>, l: Seq<u32>, b: Seq<u8>, p: int)
    requires
        shape_ok(t),
        s.no_duplicates(),
        l.no_duplicates(),
        l.len() <= 64,
        collect(t, s).len() <= l.len(),
        l.subrange(0, collect(t, s).len() as int) == collect(t, s),
        0 <= p,
        p + enc(t, s).len() <= b.len(),
        b.subrange(p, p + enc(t, s).len()) == enc(t, s),
    ensures
        dec_at(b, p, s.len()) == Some((map_vars(t, lab(l)), p + enc(t, s).len(), collect(t, s).len())),
    decreases t, 1nat,
{
    let e = enc(t, s);
    assert(b[p] == e[0]);
    match t {
        TermV::Sym(str) => {
            let bs = encode_utf8(str);
            let x = b[p];
            assert(x == (0xC0 + bs.len()) as u8);
            assert(x % 64 == bs.len());
            assert(b.subrange(p + 1, p + 1 + bs.len()) =~= bs) by {
                assert forall|i: int| 0 <= i < bs.len() implies b.subrange(p + 1, p + 1 + bs.len())[i] == bs[i] by {
                    assert(b[p + 1 + i] == e[1 + i]);
                }
            }
        }
        TermV::Var(v) => {
            lemma_collect(t, s);
            if s.contains(v) {
                let i = choose|i: int| 0 <= i < s.len() && s[i] == v;
                lemma_index_of(s, i);
                assert(l[i] == v);
                lemma_index_of(l, i);
            } else {
                let c = collect(t, s);
                assert(c == s.push(v));
                assert(c[s.len() as int] == v);
                assert(l.subrange(0, c.len() as int)[s.len() as int] == l[s.len() as int]);
                assert(l[s.len() as int] == v);
                lemma_index_of(l, s.len() as int);
            }
        }
        TermV::App(a) => {
            lemma_map_vars_app(a, lab(l));
            lemma_shape_all(a, a.len());
            assert(e == seq![a.len() as u8] + enc_seq(a, s));
            assert(b.subrange(p + 1, p + 1 + enc_seq(a, s).len()) =~= e.subrange(1, e.len() as int)) by {
                assert(b.subrange(p + 1, p + 1 + enc_seq(a, s).len()) =~= b.subrange(p, p + e.len()).subrange(1, e.len() as int));
            }
            assert(e.subrange(1, e.len() as int) =~= enc_seq(a, s));
            lemma_dec_enc_seq(a, s, l, b, p + 1);
        }
    }
}

pub proof fn lemma_dec_enc_seq(a: Seq<TermV>, s: Seq<u32>, l: Seq<u32>, b: Seq<u8>, p: int)
    requires
        forall|i: int| 0 <= i < a.len() ==> #[trigger] shape_ok(a[i]),
        s.no_duplicates(),
        l.no_duplicates(),
        l.len() <= 64,
        collect_seq(a, s).len() <= l.len(),
        l.subrange(0, collect_seq(a, s).len() as int) == collect_seq(a, s),
        0 <= p,
        p + enc_seq(a, s).len() <= b.len(),
        b.subrange(p, p + enc_seq(a, s).len()) == enc_seq(a, s),
    ensures
        dec_n(b, p, s.len(), a.len()) == Some((mseq(a, lab(l)), p + enc_seq(a, s).len(), collect_seq(a, s).len())),
    decreases a, 0nat,
{
    if a.len() == 0 {
        assert(mseq(a, lab(l)) =~= Seq::<TermV>::empty());
    } else {
        let r = a.subrange(1, a.len() as int);
        let s1 = collect(a[0], s);
        let e0 = enc(a[0], s);
        let er = enc_seq(r, s1);
        lemma_collect(a[0], s);
        lemma_collect_seq(r, s1);
        let c = collect_seq(a, s);
        assert(c.subrange(0, s1.len() as int) =~= s1);
        assert(l.subrange(0, s1.len() as int) =~= s1) by {
            assert(l.subrange(0, s1.len() as int) =~= l.subrange(0, c.len() as int).subrange(0, s1.len() as int));
        }
        assert(b.subrange(p, p + e0.len()) =~= e0) by {
            assert(b.subrange(p, p + e0.len()) =~= b.subrange(p, p + enc_seq(a, s).len()).subrange(0, e0.len() as int));
        }
        lemma_dec_enc(a[0], s, l, b, p);
        lemma_enc_len_pos(a[0], s);
        assert(b.subrange(p + e0.len(), p + e0.len() + er.len()) =~= er) by {
            assert(b.subrange(p + e0.len(), p + e0.len() + er.len()) =~= b.subrange(p, p + enc_seq(a, s).len()).subrange(e0.len() as int, (e0.len() + er.len()) as int));
        }
        assert forall|i: int| 0 <= i < r.len() implies #[trigger] shape_ok(r[i]) by {
            assert(r[i] == a[i + 1]);
        }
        lemma_dec_enc_seq(r, s1, l, b, p + e0.len());
        assert(mseq(a, lab(l)) =~= seq![map_vars(a[0], lab(l))] + mseq(r, lab(l)));
    }
}

pub proof fn lemma_enc_len_pos(t: TermV, s: Seq<u32>)
    ensures
        enc(t, s).len() >= 1,
{
}

/// Decoding an encoding gives the canonical form, whose encoding is the same bytes.
pub proof fn lemma_decode_encoding(t: TermV)
    requires
        encodable(t),
    ensures
        decodable(encoding(t)),
        decoded(encoding(t)) == canon(t),
        encoding(canon(t)) == encoding(t),
{
    let e = encoding(t);
    let l = vars_of(t);
    let empty = Seq::<u32>::empty();
    assert(empty.no_duplicates());
    lemma_collect(t, empty);
    assert(l.subrange(0, l.len() as int) =~= l);
    assert(e.subrange(0, e.len() as int) =~= e);
    lemma_dec_enc(t, empty, l, e, 0);
    assert(injective_on(lab(l), empty.to_set().union(fv(t)))) by {
        assert forall|x: u32, y: u32| empty.to_set().union(fv(t)).contains(x) && empty.to_set().union(fv(t)).contains(y)
            && #[trigger] lab(l)(x) == #[trigger] lab(l)(y) implies x == y by {
            assert(l.contains(x));
            assert(l.contains(y));
            let i = choose|i: int| 0 <= i < l.len() && l[i] == x;
            let j = choose|j: int| 0 <= j < l.len() && l[j] == y;
            lemma_index_of(l, i);
            lemma_index_of(l, j);
        }
    }
    lemma_enc_map(t, empty, lab(l));
    assert(empty.map_values(lab(l)) =~= empty);
}

/// Renaming variables keeps a term's shape.
pub proof fn lemma_shape_map(t: TermV, f: spec_fn(u32) -> u32)
    ensures
        shape_ok(map_vars(t, f)) == shape_ok(t),
    decreases t,
{
    match t {
        TermV::App(a) => {
            lemma_map_vars_app(a, f);
            let b = Seq::new(a.len(), |j: int| map_vars(a[j], f));
            lemma_shape_all(a, a.len());
            lemma_shape_all(b, b.len());
            assert forall|j: int| 0 <= j < a.len() implies shape_ok(b[j]) == shape_ok(a[j]) by {
                lemma_shape_map(a[j], f);
            }
            if shape_ok(t) {
                assert forall|j: int| 0 <= j < b.len() implies #[trigger] shape_ok(b[j]) by {
                    assert(shape_ok(a[j]));
                }
            }
            if shape_ok(map_vars(t, f)) {
                assert forall|j: int| 0 <= j < a.len() implies #[trigger] shape_ok(a[j]) by {
                    assert(shape_ok(b[j]));
                }
            }
        }
        _ => {}
    }
}

/// A ground term has no free variables.
pub proof fn lemma_ground_fv(t: TermV)
    requires
        ground(t),
    ensures
        forall|v: u32| !#[trigger] fv(t).contains(v),
    decreases t,
{
    match t {
        TermV::App(a) => {
            lemma_ground_all(a, a.len());
            lemma_fv_all(a, a.len());
            assert forall|v: u32| !#[trigger] fv(t).contains(v) by {
                if fv(t).contains(v) {
                    assert(fv_all(a, a.len()).contains(v));
                    let i = choose|i: int| 0 <= i < a.len() && #[trigger] fv(a[i]).contains(v);
                    assert(ground(a[i]));
                    lemma_ground_fv(a[i]);
                }
            }
        }
        _ => {}
    }
}

/// A term that is not ground has a free variable.
pub proof fn lemma_not_ground_fv(t: TermV)
    requires
        !ground(t),
    ensures
        exists|v: u32| #[trigger] fv(t).contains(v),
    decreases t,
{
    match t {
        TermV::Var(v) => {
            assert(fv(t).contains(v));
        }
        TermV::App(a) => {
            lemma_ground_all(a, a.len());
            lemma_fv_all(a, a.len());
            let i = choose|i: int| 0 <= i < a.len() && !ground(a[i]);
            lemma_not_ground_fv(a[i]);
            let v = choose|v: u32| #[trigger] fv(a[i]).contains(v);
            assert(fv_all(a, a.len()).contains(v));
            assert(fv(t).contains(v));
        }
        _ => {}
    }
}

/// A term is ground exactly when it has no variables: its list of distinct variables is empty.
pub proof fn law_ground_no_vars(t: TermV)
    ensures
        ground(t) <==> vars_of(t).len() == 0,
{
    let empty = Seq::<u32>::empty();
    lemma_collect(t, empty);
    if ground(t) {
        lemma_ground_fv(t);
        if vars_of(t).len() > 0 {
            assert(vars_of(t).contains(vars_of(t)[0]));
        }
    } else {
        lemma_not_ground_fv(t);
        let v = choose|v: u32| #[trigger] fv(t).contains(v);
        assert(vars_of(t).contains(v));
    }
}

/// Renaming leaves a term without variables unchanged.
pub proof fn lemma_map_vars_closed(t: TermV, f: spec_fn(u32) -> u32)
    requires
        forall|v: u32| !#[trigger] fv(t).contains(v),
    ensures
        map_vars(t, f) == t,
    decreases t,
{
    match t {
        TermV::Sym(_) => {}
        TermV::Var(v) => {
            assert(fv(t).contains(v));
        }
        TermV::App(a) => {
            lemma_map_vars_app(a, f);
            lemma_fv_all(a, a.len());
            assert forall|j: int| 0 <= j < a.len() implies map_vars(a[j], f) == a[j] by {
                assert forall|v: u32| !#[trigger] fv(a[j]).contains(v) by {
                    if fv(a[j]).contains(v) {
                        assert(fv_all(a, a.len()).contains(v));
                        assert(fv(t).contains(v));
                    }
                }
                lemma_map_vars_closed(a[j], f);
            }
            assert(Seq::new(a.len(), |j: int| map_vars(a[j], f)) =~= a);
        }
    }
}

/// Two encodable terms with the same encoding have the same canonical form.
pub proof fn lemma_encoding_canon(t1: TermV, t2: TermV)
    requires
        encodable(t1),
        encodable(t2),
        encoding(t1) == encoding(t2),
    ensures
        canon(t1) == canon(t2),
{
    let e = encoding(t1);
    let empty = Seq::<u32>::empty();
    assert(empty.no_duplicates());
    assert(e.subrange(0, e.len() as int) =~= e);
    let l1 = vars_of(t1);
    let l2 = vars_of(t2);
    lemma_collect(t1, empty);
    lemma_collect(t2, empty);
    assert(l1.subrange(0, l1.len() as int) =~= l1);
    assert(l2.subrange(0, l2.len() as int) =~= l2);
    lemma_dec_enc(t1, empty, l1, e, 0);
    lemma_dec_enc(t2, empty, l2, e, 0);
}

/// Renaming by `f` and then by `h` is renaming by `f` followed by `h`.
proof fn lemma_map_compose(t: TermV, f: spec_fn(u32) -> u32, h: spec_fn(u32) -> u32)
    ensures
        map_vars(map_vars(t, f), h) == map_vars(t, |v: u32| h(f(v))),
    decreases t,
{
    if let TermV::App(a) = t {
        let g = |v: u32| h(f(v));
        lemma_map_vars_app(a, f);
        let b = Seq::new(a.len(), |j: int| map_vars(a[j], f));
        lemma_map_vars_app(b, h);
        lemma_map_vars_app(a, g);
        assert forall|j: int| 0 <= j < a.len() implies map_vars(b[j], h) == map_vars(a[j], g) by {
            lemma_map_compose(a[j], f, h);
        }
        assert(Seq::new(b.len(), |j: int| map_vars(b[j], h)) =~= Seq::new(a.len(), |j: int| map_vars(a[j], g)));
    }
}

/// A renaming that fixes every variable of `t` leaves `t` unchanged.
proof fn lemma_map_fixes(t: TermV, f: spec_fn(u32) -> u32)
    requires
        forall|v: u32| fv(t).contains(v) ==> f(v) == v,
    ensures
        map_vars(t, f) == t,
    decreases t,
{
    match t {
        TermV::Var(v) => {
            assert(fv(t).contains(v));
        }
        TermV::Sym(_) => {}
        TermV::App(a) => {
            lemma_map_vars_app(a, f);
            lemma_fv_all(a, a.len());
            assert forall|j: int| 0 <= j < a.len() implies map_vars(a[j], f) == a[j] by {
                assert forall|v: u32| fv(a[j]).contains(v) implies f(v) == v by {
                    assert(fv_all(a, a.len()).contains(v));
                    assert(fv(t).contains(v));
                }
                lemma_map_fixes(a[j], f);
            }
            assert(Seq::new(a.len(), |j: int| map_vars(a[j], f)) =~= a);
        }
    }
}

/// Two encodable terms have the same encoding exactly when one is the other with its variables
/// renamed by a map that is injective on its variables (alpha-equivalence).
pub proof fn law_alpha_renaming(t1: TermV, t2: TermV)
    requires
        encodable(t1),
        encodable(t2),
    ensures
        encoding(t1) == encoding(t2) <==> exists|f: spec_fn(u32) -> u32| injective_on(f, fv(t1)) && #[trigger] map_vars(t1, f) == t2,
{
    let empty = Seq::<u32>::empty();
    assert(empty.no_duplicates());
    assert(empty.to_set() =~= Set::<u32>::empty());
    if exists|f: spec_fn(u32) -> u32| injective_on(f, fv(t1)) && #[trigger] map_vars(t1, f) == t2 {
        let f = choose|f: spec_fn(u32) -> u32| injective_on(f, fv(t1)) && #[trigger] map_vars(t1, f) == t2;
        assert(empty.to_set().union(fv(t1)) =~= fv(t1));
        lemma_enc_map(t1, empty, f);
        assert(empty.map_values(f) =~= empty);
    }
    if encoding(t1) == encoding(t2) {
        let e = encoding(t1);
        let l1 = vars_of(t1);
        let l2 = vars_of(t2);
        lemma_collect(t1, empty);
        lemma_collect(t2, empty);
        assert(e.subrange(0, e.len() as int) =~= e);
        assert(l1.subrange(0, l1.len() as int) =~= l1);
        assert(l2.subrange(0, l2.len() as int) =~= l2);
        lemma_dec_enc(t1, empty, l1, e, 0);
        lemma_dec_enc(t2, empty, l2, e, 0);
        assert(l1.len() == l2.len());
        let back = |i: u32| if (i as int) < l2.len() { l2[i as int] } else { 0u32 };
        let g = |v: u32| back(lab(l1)(v));
        // t2 is its canonical form read back through `l2`.
        lemma_map_compose(t2, lab(l2), back);
        assert forall|v: u32| fv(t2).contains(v) implies back(lab(l2)(v)) == v by {
            assert(l2.contains(v));
            let i = choose|i: int| 0 <= i < l2.len() && l2[i] == v;
            lemma_index_of(l2, i);
        }
        lemma_map_fixes(t2, |v: u32| back(lab(l2)(v)));
        lemma_map_compose(t1, lab(l1), back);
        assert(map_vars(t1, g) == t2);
        assert(injective_on(g, fv(t1))) by {
            assert forall|x: u32, y: u32| fv(t1).contains(x) && fv(t1).contains(y) && #[trigger] g(x) == #[trigger] g(y) implies x == y by {
                assert(l1.contains(x));
                assert(l1.contains(y));
                let i = choose|i: int| 0 <= i < l1.len() && l1[i] == x;
                let j = choose|j: int| 0 <= j < l1.len() && l1[j] == y;
                lemma_index_of(l1, i);
                lemma_index_of(l1, j);
                assert(l2[i] == l2[j]);
            }
        }
    }
}

/// Two encodable terms have one encoding exactly when they have one canonical form, that is,
/// when they are the same up to the names of their variables.
pub proof fn law_alpha_encoding(t1: TermV, t2: TermV)
    requires
        encodable(t1),
        encodable(t2),
    ensures
        encoding(t1) == encoding(t2) <==> canon(t1) == canon(t2),
{
    if encoding(t1) == encoding(t2) {
        lemma_encoding_canon(t1, t2);
    }
    if canon(t1) == canon(t2) {
        lemma_decode_encoding(t1);
        lemma_decode_encoding(t2);
    }
}

/// Renaming variables keeps a term ground or not ground.
pub proof fn lemma_ground_map(t: TermV, f: spec_fn(u32) -> u32)
    ensures
        ground(map_vars(t, f)) == ground(t),
    decreases t,
{
    match t {
        TermV::App(a) => {
            lemma_map_vars_app(a, f);
            let b = Seq::new(a.len(), |j: int| map_vars(a[j], f));
            lemma_ground_all(a, a.len());
            lemma_ground_all(b, b.len());
            assert forall|j: int| 0 <= j < a.len() implies ground(#[trigger] b[j]) == ground(a[j]) by {
                lemma_ground_map(a[j], f);
            }
            if ground(t) {
                assert forall|j: int| 0 <= j < b.len() implies #[trigger] ground(b[j]) by {
                    assert(ground(a[j]));
                }
            }
            if ground(map_vars(t, f)) {
                assert forall|j: int| 0 <= j < a.len() implies #[trigger] ground(a[j]) by {
                    assert(ground(b[j]));
                }
            }
        }
        _ => {}
    }
}

/// Two well-shaped ground terms with the same encoding are equal.
pub proof fn lemma_ground_encoding_inj(t1: TermV, t2: TermV)
    requires
        encodable(t1),
        encodable(t2),
        ground(t1),
        ground(t2),
        encoding(t1) == encoding(t2),
    ensures
        t1 == t2,
{
    let empty = Seq::<u32>::empty();
    let e = encoding(t1);
    lemma_ground_fv(t1);
    lemma_ground_fv(t2);
    lemma_collect(t1, empty);
    lemma_collect(t2, empty);
    assert(collect(t1, empty) =~= empty) by {
        if collect(t1, empty).len() > 0 {
            assert(collect(t1, empty).contains(collect(t1, empty)[0]));
        }
    }
    assert(collect(t2, empty) =~= empty) by {
        if collect(t2, empty).len() > 0 {
            assert(collect(t2, empty).contains(collect(t2, empty)[0]));
        }
    }
    assert(empty.no_duplicates());
    assert(empty.subrange(0, 0) =~= empty);
    assert(e.subrange(0, e.len() as int) =~= e);
    lemma_dec_enc(t1, empty, empty, e, 0);
    lemma_dec_enc(t2, empty, empty, e, 0);
    lemma_map_vars_closed(t1, lab(empty));
    lemma_map_vars_closed(t2, lab(empty));
}

/// Shifting variable ids does not change the encoding.
pub proof fn lemma_encoding_shift(t: TermV, offset: u32)
    requires
        shift_ok(t, offset),
    ensures
        encoding(shift(t, offset)) == encoding(t),
{
    let empty = Seq::<u32>::empty();
    let f = |v: u32| (v + offset) as u32;
    assert(injective_on(f, empty.to_set().union(fv(t))));
    lemma_enc_map(t, empty, f);
    assert(empty.map_values(f) =~= empty);
}

// ---------------------------------------------------------------------------
// Executable terms
// ---------------------------------------------------------------------------

impl Clone for Term {
    fn clone(&self) -> (r: Term)
        ensures
            r@ == self@,
        decreases self,
    {
        match self {
            Term::Sym(s) => Term::Sym(s.clone()),
            Term::Var(v) => Term::Var(*v),
            Term::App(a) => {
                let mut out: Vec<Term> = Vec::new();
                let mut i: usize = 0;
                #[verifier::loop_isolation(false)]
                while i < a.len()
                    invariant
                        i <= a.len(),
                        out@.len() == i,
                        forall|j: int| 0 <= j < i ==> out@[j]@ == a@[j]@,
                    decreases a.len() - i,
                {
                    proof {
                        assert(decreases_to!(a@ => a@[i as int]));
                    }
                    out.push(a[i].clone());
                    i += 1;
                }
                proof {
                    lemma_view_app(out);
                    lemma_view_app(*a);
                    assert(views(out@) =~= views(a@));
                }
                Term::App(out)
            }
        }
    }
}

pub fn vec_contains(v: &Vec<u32>, x: u32) -> (b: bool)
    ensures
        b == v@.contains(x),
{
    let mut i: usize = 0;
    while i < v.len()
        invariant
            i <= v@.len(),
            forall|j: int| 0 <= j < i ==> v@[j] != x,
        decreases v.len() - i,
    {
        if v[i] == x {
            return true;
        }
        i += 1;
    }
    false
}

pub fn vec_position(v: &Vec<u32>, x: u32) -> (r: Option<usize>)
    ensures
        match r {
            Some(i) => i < v@.len() && v@[i as int] == x && forall|j: int| 0 <= j < i ==> v@[j] != x,
            None => !v@.contains(x),
        },
{
    let mut i: usize = 0;
    while i < v.len()
        invariant
            i <= v@.len(),
            forall|j: int| 0 <= j < i ==> v@[j] != x,
        decreases v.len() - i,
    {
        if v[i] == x {
            return Some(i);
        }
        i += 1;
    }
    None
}

impl Term {
    /// Convenience constructor for a symbol.
    pub fn sym(s: &str) -> (t: Term)
        ensures
            t@ == TermV::Sym(s@),
    {
        Term::Sym(s.to_owned())
    }

    /// True if the term contains no variables.
    pub fn is_ground(&self) -> (b: bool)
        ensures
            b == ground(self@),
        decreases self,
    {
        match self {
            Term::Sym(_) => true,
            Term::Var(_) => false,
            Term::App(a) => {
                proof {
                    lemma_view_app(*a);
                }
                let mut i: usize = 0;
                #[verifier::loop_isolation(false)]
                while i < a.len()
                    invariant
                        i <= a.len(),
                        self@ == TermV::App(views(a@)),
                        forall|j: int| 0 <= j < i ==> ground(#[trigger] a@[j]@),
                    decreases a.len() - i,
                {
                    proof {
                        assert(decreases_to!(a@ => a@[i as int]));
                    }
                    if !a[i].is_ground() {
                        proof {
                            assert(views(a@)[i as int] == a@[i as int]@);
                            assert(!ground(views(a@)[i as int]));
                            lemma_ground_all(views(a@), a@.len());
                        }
                        return false;
                    }
                    i += 1;
                }
                proof {
                    assert forall|j: int| 0 <= j < views(a@).len() implies #[trigger] ground(views(a@)[j]) by {
                        assert(views(a@)[j] == a@[j]@);
                    }
                    lemma_ground_all(views(a@), a@.len());
                }
                true
            }
        }
    }
}


impl Term {
    /// Every symbol is 1..=63 bytes and every expression has at most 63 children.
    pub fn is_well_shaped(&self) -> (b: bool)
        ensures
            b == shape_ok(self@),
        decreases self,
    {
        match self {
            Term::Sym(s) => {
                let bytes = string_bytes(s);
                1 <= bytes.len() && bytes.len() <= MAX6
            }
            Term::Var(_) => true,
            Term::App(a) => {
                proof {
                    lemma_view_app(*a);
                    lemma_shape_all(views(a@), a@.len());
                }
                if a.len() > MAX6 {
                    return false;
                }
                let mut i: usize = 0;
                #[verifier::loop_isolation(false)]
                while i < a.len()
                    invariant
                        i <= a.len(),
                        forall|j: int| 0 <= j < i ==> shape_ok(#[trigger] a@[j]@),
                    decreases a.len() - i,
                {
                    proof {
                        assert(decreases_to!(a@ => a@[i as int]));
                    }
                    if !a[i].is_well_shaped() {
                        proof {
                            assert(views(a@)[i as int] == a@[i as int]@);
                        }
                        return false;
                    }
                    i += 1;
                }
                proof {
                    assert forall|j: int| 0 <= j < views(a@).len() implies #[trigger] shape_ok(views(a@)[j]) by {
                        assert(views(a@)[j] == a@[j]@);
                    }
                }
                true
            }
        }
    }

    /// The encoder accepts this term: well shaped, with at most 64 distinct variables.
    pub fn is_encodable(&self) -> (b: bool)
        ensures
            b == encodable(self@),
    {
        self.is_well_shaped() && self.var_ids().len() <= 64
    }
}

impl Term {
    /// Structural equality of terms.
    pub fn eq_term(&self, o: &Term) -> (b: bool)
        ensures
            b == (self@ == o@),
        decreases self,
    {
        match (self, o) {
            (Term::Sym(x), Term::Sym(y)) => *x == *y,
            (Term::Var(x), Term::Var(y)) => *x == *y,
            (Term::App(xs), Term::App(ys)) => {
                proof {
                    lemma_view_app(*xs);
                    lemma_view_app(*ys);
                }
                if xs.len() != ys.len() {
                    proof {
                        assert(self@->App_0.len() != o@->App_0.len());
                    }
                    return false;
                }
                let mut i: usize = 0;
                #[verifier::loop_isolation(false)]
                while i < xs.len()
                    invariant
                        i <= xs@.len(),
                        xs@.len() == ys@.len(),
                        forall|j: int| 0 <= j < i ==> #[trigger] xs@[j]@ == ys@[j]@,
                    decreases xs.len() - i,
                {
                    proof {
                        assert(decreases_to!(xs@ => xs@[i as int]));
                    }
                    if !xs[i].eq_term(&ys[i]) {
                        proof {
                            assert(views(xs@)[i as int] != views(ys@)[i as int]);
                        }
                        return false;
                    }
                    i += 1;
                }
                proof {
                    assert(views(xs@) =~= views(ys@));
                }
                true
            }
            _ => false,
        }
    }
}

impl Term {
    /// The distinct variable ids occurring in the term, in first-occurrence order.
    pub fn var_ids(&self) -> (v: Vec<u32>)
        ensures
            v@ == vars_of(self@),
    {
        let mut seen: Vec<u32> = Vec::new();
        self.collect_vars(&mut seen);
        seen
    }

    pub(crate) fn collect_vars(&self, seen: &mut Vec<u32>)
        ensures
            final(seen)@ == collect(self@, old(seen)@),
        decreases self,
    {
        match self {
            Term::Sym(_) => {}
            Term::Var(id) => {
                if !vec_contains(seen, *id) {
                    seen.push(*id);
                }
            }
            Term::App(a) => {
                proof {
                    lemma_view_app(*a);
                }
                let ghost s0 = seen@;
                let ghost va = views(a@);
                proof {
                    assert(va.subrange(0, va.len() as int) =~= va);
                }
                let mut i: usize = 0;
                #[verifier::loop_isolation(false)]
                while i < a.len()
                    invariant
                        i <= a.len(),
                        collect_seq(va.subrange(i as int, va.len() as int), seen@) == collect_seq(va, s0),
                    decreases a.len() - i,
                {
                    proof {
                        assert(decreases_to!(a@ => a@[i as int]));
                        let r = va.subrange(i as int, va.len() as int);
                        assert(r[0] == a@[i as int]@);
                        assert(r.subrange(1, r.len() as int) =~= va.subrange(i + 1, va.len() as int));
                    }
                    a[i].collect_vars(seen);
                    i += 1;
                }
                proof {
                    assert(va.subrange(va.len() as int, va.len() as int) =~= Seq::<TermV>::empty());
                    assert(va.subrange(0, va.len() as int) =~= va);
                }
            }
        }
    }

    /// Shift every variable id by `offset`, so two terms can be made variable-disjoint.
    pub fn rename_apart(&self, offset: u32) -> (r: Term)
        requires
            shift_ok(self@, offset),
        ensures
            r@ == shift(self@, offset),
        decreases self,
    {
        match self {
            Term::Sym(s) => Term::Sym(s.clone()),
            Term::Var(id) => {
                proof {
                    assert(fv(self@).contains(*id));
                }
                Term::Var(*id + offset)
            }
            Term::App(a) => {
                proof {
                    lemma_view_app(*a);
                }
                let ghost va = views(a@);
                let mut out: Vec<Term> = Vec::new();
                let mut i: usize = 0;
                #[verifier::loop_isolation(false)]
                while i < a.len()
                    invariant
                        i <= a.len(),
                        out@.len() == i,
                        forall|j: int| 0 <= j < i ==> #[trigger] out@[j]@ == shift(va[j], offset),
                    decreases a.len() - i,
                {
                    proof {
                        assert(decreases_to!(a@ => a@[i as int]));
                        lemma_fv_all(va, va.len());
                        assert(fv(self@) == fv_all(va, va.len()));
                        assert forall|v: u32| fv(a@[i as int]@).contains(v) implies v + offset <= u32::MAX by {
                            assert(va[i as int] == a@[i as int]@);
                            assert(fv(va[i as int]).contains(v));
                            assert(fv_all(va, va.len()).contains(v));
                            assert(self@ == TermV::App(va));
                            assert(fv(self@).contains(v));
                        }
                    }
                    out.push(a[i].rename_apart(offset));
                    i += 1;
                }
                proof {
                    lemma_view_app(out);
                    lemma_map_vars_app(va, |v: u32| (v + offset) as u32);
                    assert(views(out@) =~= Seq::new(va.len(), |j: int| map_vars(va[j], |v: u32| (v + offset) as u32)));
                }
                Term::App(out)
            }
        }
    }
}

fn push_all(out: &mut Vec<u8>, b: &Vec<u8>)
    ensures
        final(out)@ == old(out)@ + b@,
{
    let ghost o = out@;
    let mut i: usize = 0;
    while i < b.len()
        invariant
            i <= b@.len(),
            out@ == o + b@.take(i as int),
        decreases b.len() - i,
    {
        out.push(b[i]);
        i += 1;
        proof {
            assert(out@ =~= o + b@.take(i as int));
        }
    }
    proof {
        assert(b@.take(b@.len() as int) =~= b@);
    }
}

/// The introduction table `m` records each variable of `l` at its position (its De Bruijn level)
/// and nothing else.
pub open spec fn levels(m: Map<u32, u8>, l: Seq<u32>) -> bool {
    &&& forall|v: u32| #[trigger] m.contains_key(v) <==> l.contains(v)
    &&& forall|i: int| 0 <= i < l.len() ==> m[#[trigger] l[i]] == i as u8
}

impl Term {
    /// Serialize to MORK tag bytes, canonicalizing variables to De Bruijn levels.
    pub fn encode(&self) -> (v: Vec<u8>)
        requires
            encodable(self@),
        ensures
            v@ == encoding(self@),
    {
        let mut out: Vec<u8> = Vec::new();
        // `intro` maps a variable id to the De Bruijn level it was first introduced at.
        let mut intro: HashMap<u32, u8> = HashMap::new();
        proof {
            assert(levels(intro@, Seq::<u32>::empty()));
        }
        self.encode_into(&mut out, &mut intro, Ghost(Seq::<u32>::empty()));
        proof {
            assert(out@ =~= enc(self@, seq![]));
        }
        out
    }

    fn encode_into(&self, out: &mut Vec<u8>, intro: &mut HashMap<u32, u8>, Ghost(seen): Ghost<Seq<u32>>)
        requires
            shape_ok(self@),
            collect(self@, seen).len() <= 64,
            seen.no_duplicates(),
            levels(old(intro)@, seen),
        ensures
            final(out)@ == old(out)@ + enc(self@, seen),
            levels(final(intro)@, collect(self@, seen)),
        decreases self,
    {
        match self {
            Term::Sym(s) => {
                let b = string_bytes(s);
                let len = b.len() as u8;
                proof {
                    assert(len < 64);
                    assert(TAG_SYMSIZE | len == (0xC0 + len) as u8) by (bit_vector)
                        requires len < 64u8;
                }
                out.push(TAG_SYMSIZE | len);
                push_all(out, &b);
                proof {
                    assert(enc(self@, seen) =~= seq![(0xC0 + encode_utf8(s@).len()) as u8] + encode_utf8(s@));
                    assert(collect(self@, seen) == seen);
                }
                proof {
                    assert(levels(intro@, seen));
                }
            }
            Term::Var(id) => {
                broadcast use vstd::std_specs::hash::group_hash_axioms;
                match intro.get(id) {
                    Some(level) => {
                        let l8 = *level;
                        proof {
                            assert(intro@.contains_key(*id) && intro@[*id] == l8);
                            assert(seen.contains(*id));
                            let i = choose|i: int| 0 <= i < seen.len() && seen[i] == *id;
                            lemma_index_of(seen, i);
                            assert(seen.len() <= 64);
                            assert(l8 == i as u8);
                            assert(l8 < 64u8);
                            assert(TAG_VARREF | l8 == (0x80 + l8) as u8) by (bit_vector)
                                requires l8 < 64u8;
                        }
                        out.push(TAG_VARREF | l8);
                    }
                    None => {
                        let level = intro.len();
                        proof {
                            assert(!seen.contains(*id));
                            assert(seen.push(*id).len() <= 64);
                            assert(intro@.dom() =~= seen.to_set());
                            seen.unique_seq_to_set();
                            assert(level == seen.len());
                        }
                        intro.insert(*id, level as u8);
                        out.push(NEWVAR_BYTE);
                        proof {
                            let l2 = seen.push(*id);
                            assert forall|v: u32| #[trigger] intro@.contains_key(v) <==> l2.contains(v) by {
                                if v == *id {
                                    assert(l2[seen.len() as int] == v);
                                } else if seen.contains(v) {
                                    let i = choose|i: int| 0 <= i < seen.len() && seen[i] == v;
                                    assert(l2[i] == v);
                                } else if l2.contains(v) {
                                    let i = choose|i: int| 0 <= i < l2.len() && l2[i] == v;
                                    assert(seen[i] == v);
                                }
                            }
                            assert forall|i: int| 0 <= i < l2.len() implies intro@[#[trigger] l2[i]] == i as u8 by {
                                if i < seen.len() {
                                    assert(l2[i] != *id);
                                }
                            }
                        }
                    }
                }
            }
            Term::App(args) => {
                proof {
                    lemma_view_app(*args);
                }
                let ghost va = views(args@);
                let ghost o0 = old(out)@;
                proof {
                    assert(va.subrange(0, va.len() as int) =~= va);
                    lemma_shape_all(va, va.len());
                    assert(shape_ok(self@) == (va.len() <= 63 && shape_all(va, va.len())));
                }
                out.push(args.len() as u8);
                let mut i: usize = 0;
                let ghost mut cur = seen;
                #[verifier::loop_isolation(false)]
                while i < args.len()
                    invariant
                        i <= args.len(),
                        out@ + enc_seq(va.subrange(i as int, va.len() as int), cur) == o0 + enc(self@, seen),
                        collect_seq(va.subrange(i as int, va.len() as int), cur) == collect_seq(va, seen),
                        cur.no_duplicates(),
                        levels(intro@, cur),
                    decreases args.len() - i,
                {
                    let ghost r = va.subrange(i as int, va.len() as int);
                    let ghost iv = cur;
                    proof {
                        assert(decreases_to!(args@ => args@[i as int]));
                        assert(r[0] == args@[i as int]@);
                        assert(r.subrange(1, r.len() as int) =~= va.subrange(i + 1, va.len() as int));
                        lemma_collect_seq(r.subrange(1, r.len() as int), collect(r[0], iv));
                        assert(shape_ok(va[i as int]));
                    }
                    args[i].encode_into(out, intro, Ghost(iv));
                    i += 1;
                    proof {
                        lemma_collect(r[0], iv);
                        cur = collect(r[0], iv);
                    }
                }
                proof {
                    assert(va.subrange(va.len() as int, va.len() as int) =~= Seq::<TermV>::empty());
                    assert(out@ =~= o0 + enc(self@, seen));
                    assert(collect_seq(Seq::<TermV>::empty(), cur) == cur);
                    assert(cur == collect(self@, seen));
                    assert(levels(intro@, collect(self@, seen)));
                }
            }
        }
    }
}

impl Term {
    /// Parse the canonical (De Bruijn) term back from bytes. `Var` ids in the result are the
    /// De Bruijn levels, so `decode(encode(t))` is `t` in canonical variable form.
    pub fn decode(bytes: &[u8]) -> (t: Term)
        requires
            decodable(bytes@),
        ensures
            t@ == decoded(bytes@),
    {
        let mut pos: usize = 0;
        let mut next_level: u32 = 0;
        Term::decode_at(bytes, &mut pos, &mut next_level)
    }

    fn decode_at(bytes: &[u8], pos: &mut usize, next_level: &mut u32) -> (t: Term)
        requires
            dec_at(bytes@, *old(pos) as int, *old(next_level) as nat) matches Some((_, _, n)) && n <= u32::MAX,
        ensures
            dec_at(bytes@, *old(pos) as int, *old(next_level) as nat) == Some((t@, *final(pos) as int, *final(next_level) as nat)),
        decreases bytes@.len() - *old(pos),
    {
        let ghost p0 = *pos as int;
        let ghost n0 = *next_level as nat;
        proof {
            lemma_dec_at_bounds(bytes@, p0, n0);
        }
        let b = bytes[*pos];
        *pos += 1;
        proof {
            assert((b & TOP2) == TAG_ARITY <==> b < 64) by (bit_vector);
            assert((b & TOP2) == TAG_VARREF <==> (128 <= b && b < 192)) by (bit_vector);
            assert((b & LOW6) == b % 64) by (bit_vector);
        }
        if (b & TOP2) == TAG_ARITY {
            let a = (b & LOW6) as usize;
            let ghost full = dec_n(bytes@, p0 + 1, n0, a as nat)->Some_0;
            let mut args: Vec<Term> = Vec::new();
            let mut j: usize = 0;
            while j < a
                invariant
                    j <= a,
                    a < 64,
                    full.2 <= u32::MAX,
                    p0 < *pos,
                    p0 == *old(pos),
                    *pos <= bytes@.len(),
                    dec_n(bytes@, p0 + 1, n0, a as nat) == Some(full),
                    dec_n(bytes@, *pos as int, *next_level as nat, (a - j) as nat) matches Some((rest, pf, nf)) &&
                        views(args@) + rest == full.0 && pf == full.1 && nf == full.2,
                decreases a - j,
            {
                let ghost pj = *pos as int;
                let ghost nj = *next_level as nat;
                proof {
                    lemma_dec_n_bounds(bytes@, pj, nj, (a - j) as nat);
                    lemma_dec_at_bounds(bytes@, pj, nj);
                    let (t1, p1, n1) = dec_at(bytes@, pj, nj)->Some_0;
                    lemma_dec_n_bounds(bytes@, p1, n1, (a - j - 1) as nat);
                }
                let t = Term::decode_at(bytes, pos, next_level);
                proof {
                    let (rest, pf, nf) = dec_n(bytes@, pj, nj, (a - j) as nat)->Some_0;
                    let (rest2, pf2, nf2) = dec_n(bytes@, *pos as int, *next_level as nat, (a - j - 1) as nat)->Some_0;
                    assert(rest == seq![t@] + rest2);
                }
                let ghost before = args@;
                args.push(t);
                j += 1;
                proof {
                    let (rest2, pf2, nf2) = dec_n(bytes@, *pos as int, *next_level as nat, (a - j) as nat)->Some_0;
                    assert(views(args@) =~= views(before).push(args@[args@.len() - 1]@));
                    assert(views(args@) + rest2 =~= views(before) + (seq![args@[args@.len() - 1]@] + rest2));
                }
            }
            proof {
                lemma_view_app(args);
                let (rest, pf, nf) = dec_n(bytes@, *pos as int, *next_level as nat, 0)->Some_0;
                assert(rest =~= Seq::<TermV>::empty());
                assert(views(args@) =~= full.0);
            }
            Term::App(args)
        } else if (b & TOP2) == TAG_VARREF {
            Term::Var((b & LOW6) as u32)
        } else if b == NEWVAR_BYTE {
            let level = *next_level;
            *next_level += 1;
            Term::Var(level)
        } else {
            let len = (b & LOW6) as usize;
            let mut payload: Vec<u8> = Vec::new();
            let start = *pos;
            proof {
                assert(b != 192);
                assert(!(b < 64));
                assert(!(128 <= b && b < 192));
                assert(start + len <= bytes@.len());
            }
            let total = bytes.len();
            let mut k: usize = 0;
            while k < len
                invariant
                    k <= len,
                    total == bytes@.len(),
                    start + len <= total,
                    payload@ == bytes@.subrange(start as int, start + k),
                decreases len - k,
            {
                payload.push(bytes[start + k]);
                k += 1;
                proof {
                    assert(payload@ =~= bytes@.subrange(start as int, start + k));
                }
            }
            *pos = start + len;
            match string_from_utf8(payload) {
                Ok(s) => Term::Sym(s),
                Err(_) => {
                    proof {
                        assert(false);
                    }
                    Term::Var(0)
                }
            }
        }
    }
}

impl Term {
    /// The printed form of the term: symbols verbatim, variables as `$id`, expressions as
    /// `(a b ...)`.
    pub fn to_string(&self) -> (r: String)
        ensures
            r@ == text(self@),
    {
        let mut out: Vec<char> = Vec::new();
        self.write_text(&mut out);
        proof {
            assert(out@ =~= text(self@));
        }
        chars_to_string(&out)
    }

    fn write_text(&self, out: &mut Vec<char>)
        ensures
            final(out)@ == old(out)@ + text(self@),
        decreases self,
    {
        match self {
            Term::Sym(s) => {
                let cs = str_chars(s.as_str());
                push_chars(out, &cs);
            }
            Term::Var(v) => {
                out.push('$');
                push_decimal(out, *v);
                proof {
                    assert(out@ =~= old(out)@ + (seq!['$'] + decimal(*v as nat)));
                }
            }
            Term::App(a) => {
                proof {
                    lemma_view_app(*a);
                }
                let ghost va = views(a@);
                let ghost target = old(out)@ + text(self@);
                out.push('(');
                proof {
                    assert(va.subrange(0, va.len() as int) =~= va);
                    assert(out@ + text_seq(va, true) + seq![')'] =~= target);
                }
                let mut i: usize = 0;
                #[verifier::loop_isolation(false)]
                while i < a.len()
                    invariant
                        i <= a.len(),
                        out@ + text_seq(va.subrange(i as int, va.len() as int), i == 0) + seq![')'] == target,
                    decreases a.len() - i,
                {
                    let ghost r = va.subrange(i as int, va.len() as int);
                    let ghost o = out@;
                    proof {
                        assert(decreases_to!(a@ => a@[i as int]));
                        assert(r[0] == a@[i as int]@);
                        assert(r.subrange(1, r.len() as int) =~= va.subrange(i + 1, va.len() as int));
                    }
                    if i > 0 {
                        out.push(' ');
                    }
                    a[i].write_text(out);
                    i += 1;
                    proof {
                        let sep: Seq<char> = if i - 1 == 0 { seq![] } else { seq![' '] };
                        assert(out@ == o + sep + text(r[0]));
                        assert(out@ + text_seq(va.subrange(i as int, va.len() as int), false) + seq![')'] =~=
                            o + text_seq(r, i - 1 == 0) + seq![')']);
                    }
                }
                out.push(')');
                proof {
                    assert(va.subrange(va.len() as int, va.len() as int) =~= Seq::<TermV>::empty());
                    assert(out@ =~= target);
                }
            }
        }
    }
}
} // verus!

pub use crate::parse::{parse, parse_all, parse_with_scope, Scope};
