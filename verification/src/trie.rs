//! A byte-trie over encoded terms, with a subterm cursor. The navigation primitives
//! (`child_mask` / `descend_to_byte` / `ascend_byte`) and the cursor contract (`first` / `key` /
//! `next` / `seek`) are those of a path-map zipper.
//!
//! The encoding is prefix-free (see `term`), so a complete subterm has a definite byte span.
//! A stored variable is a one-byte wildcard (`NewVar` `0xC0`, or a `VarRef`), which the
//! retrieval in `trie_join` treats as a data variable that captures.
//!
//! The trie is an arena: node 0 is the root, and every child is created after its parent, so a
//! child's index is larger than its parent's.

use vstd::prelude::*;
use crate::term::{Term, encodable};
use crate::wcojoin::{bytes_lt, is_prefix, lemma_bytes_lt_irrefl, lemma_bytes_lt_trans, lemma_bytes_lt_total, lemma_lt_at, lemma_lt_split, lemma_lt_push, lemma_lt_proper_prefix, lemma_lt_extend};

verus! {

pub const TOP2: u8 = 0xC0u8;
pub const TAG_ARITY: u8 = 0x00u8;
pub const TAG_VARREF: u8 = 0x80u8;
pub const NEWVAR_BYTE: u8 = 0xC0u8;
pub const LOW6: u8 = 0x3Fu8;

/// No bit is set in the empty word.
proof fn lemma_zero_word_bit(j: u64)
    by (bit_vector)
    ensures
        (0u64 >> j) & 1u64 == 0u64,
{
}

/// A 256-bit set of present child bytes.
#[derive(Clone, Copy)]
pub struct ByteMask(pub [u64; 4]);

/// Byte `b` is in the mask.
pub open spec fn mask_has(m: ByteMask, b: u8) -> bool {
    (m.0@[(b / 64) as int] >> ((b % 64) as u64)) & 1u64 == 1u64
}

proof fn lemma_byte_split(b: u8)
    ensures
        (b >> 6u8) as int == b / 64,
        (b & 63u8) as int == b % 64,
        b / 64 < 4,
{
    assert((b >> 6u8) as int == b / 64) by (bit_vector);
    assert((b & 63u8) as int == b % 64) by (bit_vector);
}

proof fn lemma_byte_join(w: u8, t: u8)
    requires
        w < 4,
        t < 64,
    ensures
        ((w << 6u8) | t) as int == w * 64 + t,
{
    assert(((w << 6u8) | t) as int == w * 64 + t) by (bit_vector)
        requires
            w < 4,
            t < 64,
    ;
}

/// The bits of `w` above `off`, with those at or below `off` cleared.
proof fn lemma_masked_bit(w: u64, off: u64, s: u64, j: u64)
    requires
        off < 63,
        s == off + 1,
        j < 64,
    ensures
        ((w & !(((1u64 << s) - 1u64) as u64)) >> j) & 1u64 == if j <= off { 0u64 } else { (w >> j) & 1u64 },
{
    assert(((w & !(((1u64 << s) - 1u64) as u64)) >> j) & 1u64 == if j <= off { 0u64 } else { (w >> j) & 1u64 }) by (bit_vector)
        requires
            off < 63,
            s == off + 1,
            j < 64,
    ;
}

impl ByteMask {
    /// The mask with no byte.
    pub fn empty() -> (m: ByteMask)
        ensures
            forall|b: u8| !mask_has(m, b),
    {
        let m = ByteMask([0u64, 0u64, 0u64, 0u64]);
        proof {
            assert forall|b: u8| !mask_has(m, b) by {
                lemma_byte_split(b);
                let s = (b % 64) as u64;
                lemma_zero_word_bit(s);
            }
        }
        m
    }

    /// Byte `b` is present.
    pub fn has(&self, b: u8) -> (r: bool)
        ensures
            r == mask_has(*self, b),
    {
        proof {
            lemma_byte_split(b);
        }
        let w = self.0[(b >> 6) as usize];
        (w >> ((b & 63) as u64)) & 1 == 1
    }

    /// The least present byte strictly greater than `b`, or `None`.
    pub fn next_bit(&self, b: u8) -> (r: Option<u8>)
        ensures
            r matches Some(x) ==> b < x && mask_has(*self, x) && forall|y: u8| b < y < x ==> !mask_has(*self, y),
            r is None ==> forall|y: u8| b < y ==> !mask_has(*self, y),
    {
        proof {
            lemma_byte_split(b);
        }
        let mut word: usize = (b >> 6) as usize;
        let off: u8 = b & 63;
        if off < 63 {
            let sh: u64 = (off + 1) as u64;
            proof {
                assert((1u64 << sh) >= 1u64) by (bit_vector)
                    requires
                        sh < 64,
                ;
            }
            let lo: u64 = (1u64 << sh) - 1;
            let masked: u64 = self.0[word] & !lo;
            let ghost w = self.0@[word as int];
            proof {
                assert forall|j: u64| j < 64 implies (#[trigger] (masked >> j) & 1u64) == if j <= off as u64 { 0u64 } else { (w >> j) & 1u64 } by {
                    lemma_masked_bit(w, off as u64, sh, j);
                }
            }
            if masked != 0 {
                let tz = masked.trailing_zeros();
                proof {
                    vstd::std_specs::bits::axiom_u64_trailing_zeros(masked);
                    assert(tz < 64);
                    assert((masked >> (tz as u64)) & 1u64 == 1u64);
                    assert(tz as u64 > off as u64);
                    lemma_byte_join(word as u8, tz as u8);
                }
                let x: u8 = ((word as u8) << 6) | (tz as u8);
                proof {
                    assert(x / 64 == word);
                    assert(x % 64 == tz);
                    assert(mask_has(*self, x));
                    assert forall|y: u8| b < y < x implies !mask_has(*self, y) by {
                        lemma_byte_split(y);
                        assert(y / 64 == word);
                        let j = (y % 64) as u64;
                        assert(j < tz);
                        assert((masked >> j) & 1u64 == 0u64);
                    }
                }
                return Some(x);
            }
            proof {
                assert forall|y: u8| b < y && y / 64 == word implies !mask_has(*self, y) by {
                    let j = (y % 64) as u64;
                    assert(masked == 0u64);
                    lemma_zero_word_bit(j);
                    assert((masked >> j) & 1u64 == 0u64);
                }
            }
        }
        word += 1;
        while word < 4
            invariant
                1 <= word <= 4,
                word * 64 > b,
                forall|y: u8| b < y && (y as int) < word * 64 ==> !mask_has(*self, y),
            decreases 4 - word,
        {
            if self.0[word] != 0 {
                let w = self.0[word];
                let tz = w.trailing_zeros();
                proof {
                    vstd::std_specs::bits::axiom_u64_trailing_zeros(w);
                    lemma_byte_join(word as u8, tz as u8);
                }
                let x: u8 = ((word as u8) << 6) | (tz as u8);
                proof {
                    assert(x / 64 == word);
                    assert(x % 64 == tz);
                    assert(mask_has(*self, x));
                    assert forall|y: u8| b < y < x implies !mask_has(*self, y) by {
                        if (y as int) >= word * 64 {
                            assert(y / 64 == word);
                            let j = (y % 64) as u64;
                            assert((w >> j) & 1u64 == 0u64);
                        }
                    }
                }
                return Some(x);
            }
            proof {
                assert forall|y: u8| b < y && (y as int) < (word + 1) * 64 implies !mask_has(*self, y) by {
                    if (y as int) >= word * 64 {
                        assert(y / 64 == word);
                        let j = (y % 64) as u64;
                        lemma_zero_word_bit(j);
                    }
                }
            }
            word += 1;
        }
        None
    }
}

/// The least byte present in `mask` that is `>= k`, or `None`.
pub fn least_ge(mask: &ByteMask, k: u8) -> (r: Option<u8>)
    ensures
        r matches Some(x) ==> k <= x && mask_has(*mask, x) && forall|y: u8| k <= y < x ==> !mask_has(*mask, y),
        r is None ==> forall|y: u8| k <= y ==> !mask_has(*mask, y),
{
    if mask.has(k) {
        Some(k)
    } else {
        mask.next_bit(k)
    }
}

/// The parse state after one byte: the number of subterms still to read and the payload bytes
/// still to skip. A byte of payload only counts down; otherwise the byte starts a subterm: an
/// arity tag adds its children, a variable reference or a new variable is complete, and a
/// symbol tag adds its payload length.
pub open spec fn step(b: u8, st: (int, int)) -> (int, int) {
    if st.1 > 0 {
        (st.0, st.1 - 1)
    } else if b & TOP2 == TAG_ARITY {
        (st.0 - 1 + (b & LOW6), 0)
    } else if b & TOP2 == TAG_VARREF || b == NEWVAR_BYTE {
        (st.0 - 1, 0)
    } else {
        (st.0 - 1, (b & LOW6) as int)
    }
}

/// The parse state after the bytes `s`, starting from one subterm to read.
pub open spec fn parse_state(s: Seq<u8>) -> (int, int)
    decreases s.len(),
{
    if s.len() == 0 {
        (1, 0)
    } else {
        step(s.last(), parse_state(s.drop_last()))
    }
}

/// `s` spells exactly one complete subterm.
pub open spec fn complete(s: Seq<u8>) -> bool {
    parse_state(s) == (0int, 0int)
}

/// No proper prefix of `s` is a complete subterm (so reading `s` never runs past a subterm).
pub open spec fn within_one(s: Seq<u8>) -> bool {
    forall|k: int| 0 <= k < s.len() ==> !#[trigger] complete(s.take(k))
}

/// The header bytes: an arity tag carries the arity, a reference tag the slot, a symbol tag
/// the payload length; and those three, for a field below 64, have their tag and field.
pub(crate) proof fn lemma_header_bits(b: u8)
    by (bit_vector)
    ensures
        (b & 0xC0u8) == 0x00u8 <==> b < 0x40u8,
        (b & 0xC0u8) == 0x00u8 ==> (b & 0x3Fu8) == b,
        (b & 0xC0u8) == 0x80u8 <==> 0x80u8 <= b && b < 0xC0u8,
        (b & 0xC0u8) == 0x80u8 ==> b == 0x80u8 + (b & 0x3Fu8),
        (b & 0xC0u8) == 0xC0u8 <==> b >= 0xC0u8,
        (b & 0xC0u8) == 0xC0u8 ==> b == 0xC0u8 + (b & 0x3Fu8),
{
}

/// The parse state after the bytes `s`, starting from `st`.
pub open spec fn run(s: Seq<u8>, st: (int, int)) -> (int, int)
    decreases s.len(),
{
    if s.len() == 0 {
        st
    } else {
        step(s.last(), run(s.drop_last(), st))
    }
}

/// A state from which `n` subterms are still owed, seen before the last of them ends: more than
/// `n - 1` remain, or `n - 1` with payload still to skip.
pub open spec fn owes(st: (int, int), n: int) -> bool {
    st.0 >= n || (st.0 == n - 1 && st.1 > 0)
}

proof fn lemma_run_parse(s: Seq<u8>)
    ensures
        run(s, (1, 0)) == parse_state(s),
    decreases s.len(),
{
    if s.len() > 0 {
        lemma_run_parse(s.drop_last());
    }
}

proof fn lemma_run_append(a: Seq<u8>, b: Seq<u8>, st: (int, int))
    ensures
        run(a + b, st) == run(b, run(a, st)),
    decreases b.len(),
{
    if b.len() == 0 {
        assert(a + b =~= a);
    } else {
        assert((a + b).drop_last() =~= a + b.drop_last());
        assert((a + b).last() == b.last());
        lemma_run_append(a, b.drop_last(), st);
    }
}

/// Owing `d` more subterms at the start means owing `d` more at the end.
proof fn lemma_run_shift(s: Seq<u8>, a: int, y: int, d: int)
    ensures
        run(s, (a + d, y)) == (run(s, (a, y)).0 + d, run(s, (a, y)).1),
    decreases s.len(),
{
    if s.len() > 0 {
        lemma_run_shift(s.drop_last(), a, y, d);
    }
}

/// The prefixes of `a + b` are the prefixes of `a`, and `a` followed by the prefixes of `b`.
proof fn lemma_take_append(a: Seq<u8>, b: Seq<u8>, k: int)
    requires
        0 <= k <= a.len() + b.len(),
    ensures
        k <= a.len() ==> (a + b).take(k) == a.take(k),
        k >= a.len() ==> (a + b).take(k) == a + b.take(k - a.len()),
{
    if k <= a.len() {
        assert((a + b).take(k) =~= a.take(k));
    }
    if k >= a.len() {
        assert((a + b).take(k) =~= a + b.take(k - a.len()));
    }
}

/// Skipping payload: each byte counts the payload down.
proof fn lemma_run_payload(p: Seq<u8>, n: int, len: int)
    requires
        p.len() <= len,
    ensures
        run(p, (n, len)) == (n, len - p.len()),
    decreases p.len(),
{
    if p.len() > 0 {
        lemma_run_payload(p.drop_last(), n, len);
    }
}

/// Reading the encoding of one well-shaped term from a state that owes `n` subterms ends owing
/// `n - 1`, and every proper prefix of it still owes `n`.
pub proof fn lemma_enc_run(t: crate::term::TermV, seen: Seq<u32>, n: int)
    requires
        crate::term::shape_ok(t),
        crate::term::collect(t, seen).len() <= 64,
        n >= 1,
    ensures
        run(crate::term::enc(t, seen), (n, 0)) == (n - 1, 0int),
        forall|k: int| 0 <= k < crate::term::enc(t, seen).len() ==> owes(#[trigger] run(crate::term::enc(t, seen).take(k), (n, 0)), n),
    decreases t, 1nat,
{
    let e = crate::term::enc(t, seen);
    assert(run(e.take(0), (n, 0)) == (n, 0int)) by {
        assert(e.take(0).len() == 0);
    }
    match t {
        crate::term::TermV::Sym(sy) => {
            let bs = vstd::utf8::encode_utf8(sy);
            let len = bs.len() as int;
            let h = (0xC0 + bs.len()) as u8;
            assert(1 <= len <= 63);
            assert(h & 0xC0u8 == 0xC0u8 && h != 0xC0u8 && (h & 0x3Fu8) as int == len) by {
                assert(h as int == 0xC0 + len);
                lemma_header_bits(h);
            }
            assert(e == seq![h] + bs);
            assert(run(seq![h], (n, 0)) == (n - 1, len)) by {
                assert(seq![h].drop_last() =~= Seq::<u8>::empty());
                assert(run(seq![h].drop_last(), (n, 0)) == (n, 0int));
                assert(seq![h].last() == h);
                assert(step(h, (n, 0)) == (n - 1, len));
            }
            lemma_run_append(seq![h], bs, (n, 0));
            lemma_run_payload(bs, n - 1, len);
            assert(bs.take(bs.len() as int) =~= bs);
            assert forall|k: int| 0 <= k < e.len() implies owes(#[trigger] run(e.take(k), (n, 0)), n) by {
                if k >= 1 {
                    lemma_take_append(seq![h], bs, k);
                    lemma_run_append(seq![h], bs.take(k - 1), (n, 0));
                    lemma_run_payload(bs.take(k - 1), n - 1, len);
                }
            }
        }
        crate::term::TermV::Var(v) => {
            let b = e[0];
            assert(e == seq![b]);
            if seen.contains(v) {
                let i = seen.index_of(v);
                assert(0 <= i < seen.len());
                assert(crate::term::collect(t, seen) == seen);
                assert(b == (0x80 + i) as u8);
                assert(b & 0xC0u8 == 0x80u8) by {
                    assert(b as int == 0x80 + i);
                    lemma_header_bits(b);
                }
            } else {
                assert(b == 0xC0u8);
                lemma_header_bits(b);
            }
            assert(e.drop_last() =~= Seq::<u8>::empty());
        }
        crate::term::TermV::App(a) => {
            let h = a.len() as u8;
            crate::term::lemma_shape_all(a, a.len());
            assert(a.len() <= 63);
            assert(h & 0xC0u8 == 0x00u8 && (h & 0x3Fu8) as int == a.len()) by {
                assert(h < 64);
                lemma_header_bits(h);
            }
            let es = crate::term::enc_seq(a, seen);
            assert(e == seq![h] + es);
            assert(run(seq![h], (n, 0)) == (n - 1 + a.len(), 0int)) by {
                assert(seq![h].drop_last() =~= Seq::<u8>::empty());
                assert(run(seq![h].drop_last(), (n, 0)) == (n, 0int));
                assert(seq![h].last() == h);
                assert(step(h, (n, 0)) == (n - 1 + a.len(), 0int));
            }
            lemma_run_append(seq![h], es, (n, 0));
            lemma_enc_seq_run(a, seen, n - 1 + a.len());
            assert forall|k: int| 0 <= k < e.len() implies owes(#[trigger] run(e.take(k), (n, 0)), n) by {
                if k >= 1 {
                    lemma_take_append(seq![h], es, k);
                    lemma_run_append(seq![h], es.take(k - 1), (n, 0));
                    if k - 1 == 0 {
                        assert(es.take(0).len() == 0);
                        if a.len() == 0 {
                            assert(es.len() == 0);
                        }
                    }
                }
            }
        }
    }
}

/// Reading the encodings of a list of well-shaped terms from a state that owes `m >= len`
/// subterms ends owing `m - len`; every proper prefix owes more than that, or that many with
/// payload still to skip.
pub proof fn lemma_enc_seq_run(a: Seq<crate::term::TermV>, seen: Seq<u32>, m: int)
    requires
        forall|i: int| 0 <= i < a.len() ==> #[trigger] crate::term::shape_ok(a[i]),
        crate::term::collect_seq(a, seen).len() <= 64,
        m >= a.len(),
    ensures
        run(crate::term::enc_seq(a, seen), (m, 0)) == (m - a.len(), 0int),
        forall|k: int| 0 <= k < crate::term::enc_seq(a, seen).len()
            ==> owes(#[trigger] run(crate::term::enc_seq(a, seen).take(k), (m, 0)), m - a.len() + 1),
    decreases a, 0nat,
{
    let es = crate::term::enc_seq(a, seen);
    if a.len() > 0 {
        let r = a.subrange(1, a.len() as int);
        let s1 = crate::term::collect(a[0], seen);
        crate::term::lemma_collect_seq(r, s1);
        assert(crate::term::collect_seq(a, seen) == crate::term::collect_seq(r, s1));
        let x = crate::term::enc(a[0], seen);
        let y = crate::term::enc_seq(r, s1);
        assert(es == x + y);
        assert(decreases_to!(a => a[0]));
        lemma_enc_run(a[0], seen, m);
        assert forall|i: int| 0 <= i < r.len() implies #[trigger] crate::term::shape_ok(r[i]) by {
            assert(r[i] == a[i + 1]);
        }
        lemma_enc_seq_run(r, s1, m - 1);
        lemma_run_append(x, y, (m, 0));
        assert forall|k: int| 0 <= k < es.len() implies owes(#[trigger] run(es.take(k), (m, 0)), m - a.len() + 1) by {
            lemma_take_append(x, y, k);
            if k < x.len() {
                assert(owes(run(x.take(k), (m, 0)), m));
            } else {
                lemma_run_append(x, y.take(k - x.len()), (m, 0));
                assert(owes(run(y.take(k - x.len()), (m - 1, 0)), m - 1 - r.len() + 1));
            }
        }
    }
}

/// The encoding of an encodable term spells exactly one complete subterm: it is complete and
/// no proper prefix of it is.
pub proof fn law_encoding_spells_one(t: crate::term::TermV)
    requires
        encodable(t),
    ensures
        spells_one(crate::term::encoding(t)),
{
    let e = crate::term::encoding(t);
    lemma_enc_run(t, seq![], 1);
    lemma_run_parse(e);
    assert forall|k: int| 0 <= k < e.len() implies !#[trigger] complete(e.take(k)) by {
        lemma_run_parse(e.take(k));
        assert(owes(run(e.take(k), (1, 0)), 1));
    }
}

proof fn lemma_parse_bounds(s: Seq<u8>)
    requires
        within_one(s),
    ensures
        0 <= parse_state(s).0 <= 1 + 63 * s.len(),
        0 <= parse_state(s).1 <= 63,
        parse_state(s).0 == 0 ==> parse_state(s).1 >= 0,
        parse_state(s).1 > 0 ==> parse_state(s).0 >= 0,
    decreases s.len(),
{
    if s.len() > 0 {
        let p = s.drop_last();
        assert forall|k: int| 0 <= k < p.len() implies !#[trigger] complete(p.take(k)) by {
            assert(p.take(k) =~= s.take(k));
        }
        lemma_parse_bounds(p);
        assert(s.take(p.len() as int) =~= p);
        assert(!complete(p));
        let b = s.last();
        assert(b & LOW6 <= 63) by (bit_vector);
    }
}

/// One step of the incremental subterm parse.
fn step_parse(b: u8, subterms: &mut usize, payload: &mut usize)
    requires
        *old(payload) > 0 || *old(subterms) > 0,
        *old(subterms) + 63 <= usize::MAX,
    ensures
        (*final(subterms) as int, *final(payload) as int) == step(b, (*old(subterms) as int, *old(payload) as int)),
{
    if *payload > 0 {
        *payload -= 1;
    } else {
        *subterms -= 1;
        let tag = b & TOP2;
        if tag == TAG_ARITY {
            proof {
                assert(b & LOW6 <= 63) by (bit_vector);
            }
            *subterms += (b & LOW6) as usize;
        } else if tag == TAG_VARREF {
        } else {
            if b != NEWVAR_BYTE {
                *payload += (b & LOW6) as usize;
            }
        }
    }
}

/// `s` spells exactly one complete subterm: it is complete, and no proper prefix is.
pub open spec fn spells_one(s: Seq<u8>) -> bool {
    within_one(s) && complete(s)
}

/// `is_complete` answers true on the encoding of an encodable term and false on each of its
/// proper prefixes, the empty string among them.
pub proof fn law_complete_at_encoding(t: crate::term::TermV)
    requires
        encodable(t),
    ensures
        spells_one(crate::term::encoding(t)),
        forall|k: int| 0 <= k < crate::term::encoding(t).len() ==> !#[trigger] spells_one(crate::term::encoding(t).take(k)),
        !spells_one(Seq::<u8>::empty()),
{
    let e = crate::term::encoding(t);
    law_encoding_spells_one(t);
    crate::term::lemma_enc_len_pos(t, seq![]);
    assert(e.take(0) =~= Seq::<u8>::empty());
    assert(!complete(e.take(0)));
}

/// Whether `bytes` spell exactly one complete subterm (bytes left over after a complete
/// subterm answer false).
pub fn is_complete(bytes: &[u8]) -> (r: bool)
    requires
        bytes@.len() * 64 < usize::MAX,
    ensures
        r == spells_one(bytes@),
{
    let mut subterms: usize = 1;
    let mut payload: usize = 0;
    let mut i: usize = 0;
    while i < bytes.len()
        invariant
            i <= bytes@.len(),
            within_one(bytes@.take(i as int)),
            bytes@.len() * 64 < usize::MAX,
            (subterms as int, payload as int) == parse_state(bytes@.take(i as int)),
        decreases bytes.len() - i,
    {
        let ghost p = bytes@.take(i as int);
        if subterms == 0 && payload == 0 {
            proof {
                assert(bytes@.take(i as int) =~= bytes@.take(i as int));
                assert(complete(bytes@.take(i as int)));
                assert(!within_one(bytes@));
            }
            return false;
        }
        proof {
            lemma_parse_bounds(p);
            assert(!complete(p));
            assert(bytes@.take(i + 1).drop_last() =~= p);
            assert(bytes@.take(i + 1).last() == bytes@[i as int]);
            assert(63 * i <= 63 * bytes@.len());
            assert forall|k: int| 0 <= k < i + 1 implies !#[trigger] complete(bytes@.take(i + 1).take(k)) by {
                if k < i {
                    assert(bytes@.take(i + 1).take(k) =~= p.take(k));
                } else {
                    assert(bytes@.take(i + 1).take(k) =~= p);
                }
            }
        }
        step_parse(bytes[i], &mut subterms, &mut payload);
        i += 1;
    }
    proof {
        assert(bytes@.take(bytes@.len() as int) =~= bytes@);
    }
    subterms == 0 && payload == 0
}


/// One node of a byte-trie: its children, as labels in ascending order with the index of the
/// node each leads to, and whether a stored byte string ends here.
struct BNode {
    labels: Vec<u8>,
    kids: Vec<usize>,
    end: bool,
}

/// A byte-trie of encoded terms. Each root-to-`end` path is one stored term's bytes.
pub struct ByteTrie {
    nodes: Vec<BNode>,
}

/// The largest number of nodes a trie may have (so that any path, read as one subterm, keeps
/// its parse counters in a `usize`).
pub open spec fn node_room(n: int) -> bool {
    n * 64 < usize::MAX
}

impl ByteTrie {
    /// The number of nodes.
    pub closed spec fn size(&self) -> nat {
        self.nodes@.len()
    }

    /// The labels of node `n`'s children, in order.
    pub closed spec fn labels(&self, n: int) -> Seq<u8> {
        self.nodes@[n].labels@
    }

    /// Children are sorted by label, every child index names a later node, and the trie fits.
    pub closed spec fn wf(&self) -> bool {
        &&& self.nodes@.len() >= 1
        &&& node_room(self.nodes@.len() as int)
        &&& forall|n: int| 0 <= n < self.nodes@.len() ==> (#[trigger] self.nodes@[n]).labels@.len() == self.nodes@[n].kids@.len()
        &&& forall|n: int, c: int| 0 <= n < self.nodes@.len() && 0 <= c < self.nodes@[n].kids@.len()
            ==> n < #[trigger] self.nodes@[n].kids@[c] < self.nodes@.len()
        &&& forall|n: int, c: int, d: int| 0 <= n < self.nodes@.len() && 0 <= c < d < self.nodes@[n].labels@.len()
            ==> #[trigger] self.nodes@[n].labels@[c] < #[trigger] self.nodes@[n].labels@[d]
        &&& forall|n1: int, c1: int, n2: int, c2: int|
            0 <= n1 < self.nodes@.len() && 0 <= c1 < self.nodes@[n1].kids@.len()
            && 0 <= n2 < self.nodes@.len() && 0 <= c2 < self.nodes@[n2].kids@.len()
            && #[trigger] self.nodes@[n1].kids@[c1] == #[trigger] self.nodes@[n2].kids@[c2]
            ==> n1 == n2 && c1 == c2
    }

    /// The child of node `n` along byte `b`.
    pub closed spec fn step_to(&self, n: int, b: u8) -> Option<int> {
        if exists|c: int| 0 <= c < self.nodes@[n].labels@.len() && #[trigger] self.nodes@[n].labels@[c] == b {
            let c = choose|c: int| 0 <= c < self.nodes@[n].labels@.len() && #[trigger] self.nodes@[n].labels@[c] == b;
            Some(self.nodes@[n].kids@[c] as int)
        } else {
            None
        }
    }

    /// The node reached from the root along the bytes of `s`.
    pub closed spec fn walk(&self, s: Seq<u8>) -> Option<int>
        decreases s.len(),
    {
        if s.len() == 0 {
            Some(0)
        } else {
            match self.walk(s.drop_last()) {
                Some(m) => self.step_to(m, s.last()),
                None => None,
            }
        }
    }

    /// The node reached from node `n` along the bytes of `s`.
    pub closed spec fn walk_from(&self, n: int, s: Seq<u8>) -> Option<int>
        decreases s.len(),
    {
        if s.len() == 0 {
            Some(n)
        } else {
            match self.walk_from(n, s.drop_last()) {
                Some(m) => self.step_to(m, s.last()),
                None => None,
            }
        }
    }

    /// The byte strings stored in the trie: those whose path from the root ends at a marked node.
    pub closed spec fn stored(&self) -> Set<Seq<u8>> {
        Set::new(|s: Seq<u8>| self.walk(s) matches Some(x) && self.nodes@[x].end)
    }

    /// Every node below the root without children ends a stored byte string.
    pub closed spec fn leaves_end(&self) -> bool {
        forall|x: int| 1 <= x < self.nodes@.len() && #[trigger] self.nodes@[x].labels@.len() == 0 ==> self.nodes@[x].end
    }

    /// Every prefix of a path from `n` is a path from `n`, and one more byte steps along it.
    /// In a trie whose childless nodes below the root all end stored strings, a non-empty byte
    /// string is a path of the trie exactly when it begins some stored string.
    pub proof fn lemma_path_stored(&self, s: Seq<u8>)
        requires
            self.wf(),
            self.leaves_end(),
            s.len() > 0,
        ensures
            self.walk(s) is Some <==> exists|e: Seq<u8>| #[trigger] self.stored().contains(e) && is_prefix(s, e),
        decreases self.size() - self.walk(s)->Some_0,
    {
        if exists|e: Seq<u8>| #[trigger] self.stored().contains(e) && is_prefix(s, e) {
            let e = choose|e: Seq<u8>| #[trigger] self.stored().contains(e) && is_prefix(s, e);
            self.lemma_walk_from_root(e);
            self.lemma_walk_from_root(s);
            if s.len() < e.len() {
                self.lemma_walk_from_prefix(0, e, s.len() as int);
            } else {
                assert(e.take(s.len() as int) =~= e);
            }
        }
        if self.walk(s) is Some {
            let n = self.walk(s)->Some_0;
            self.lemma_walk_valid(s);
            if self.nodes@[n].labels@.len() == 0 {
                assert(self.nodes@[n].end);
                assert(self.stored().contains(s));
                assert(s.take(s.len() as int) =~= s);
                assert(is_prefix(s, s));
            } else {
                let b = self.nodes@[n].labels@[0];
                self.lemma_step_valid(n, b);
                assert(self.nodes@[n].labels@.contains(b));
                let s2 = s.push(b);
                assert(s2.drop_last() =~= s);
                assert(self.walk(s2) == self.step_to(n, b));
                self.lemma_path_stored(s2);
                let e = choose|e: Seq<u8>| #[trigger] self.stored().contains(e) && is_prefix(s2, e);
                assert(e.take(s.len() as int) =~= e.take(s2.len() as int).take(s.len() as int));
                assert(s2.take(s.len() as int) =~= s);
                assert(is_prefix(s, e));
            }
        }
    }

    /// Walking from the root is walking.
    pub proof fn lemma_walk_from_root(&self, s: Seq<u8>)
        ensures
            self.walk_from(0, s) == self.walk(s),
        decreases s.len(),
    {
        if s.len() > 0 {
            self.lemma_walk_from_root(s.drop_last());
        }
    }

    proof fn lemma_walk_from_prefix(&self, n: int, s: Seq<u8>, k: int)
        requires
            self.walk_from(n, s) is Some,
            0 <= k < s.len(),
        ensures
            self.walk_from(n, s.take(k)) is Some,
            self.walk_from(n, s.take(k + 1)) == self.step_to(self.walk_from(n, s.take(k))->Some_0, s[k]),
            self.walk_from(n, s.take(k + 1)) is Some,
        decreases s.len() - k,
    {
        assert(s.take(k + 1).drop_last() =~= s.take(k));
        assert(s.take(k + 1).last() == s[k]);
        if k + 1 == s.len() {
            assert(s.take(k + 1) =~= s);
        } else {
            self.lemma_walk_from_prefix(n, s, k + 1);
        }
    }

    /// A node has a child along `b` exactly when `b` is one of its labels.
    pub proof fn lemma_step_label(&self, n: int, b: u8)
        ensures
            self.step_to(n, b) is Some <==> self.labels(n).contains(b),
    {
    }

    /// A path from `n` is empty, or a path followed by one more step.
    pub proof fn lemma_walk_push(&self, n: int, p: Seq<u8>, b: u8)
        ensures
            self.walk_from(n, Seq::<u8>::empty()) == Some(n),
            self.walk_from(n, p.push(b)) == match self.walk_from(n, p) {
                Some(m) => self.step_to(m, b),
                None => None,
            },
    {
        assert(p.push(b).drop_last() =~= p);
    }

    /// The step along a node's `c`-th label goes to its `c`-th child.
    pub proof fn lemma_step_kid(&self, n: int, c: int)
        requires
            self.wf(),
            0 <= n < self.size(),
            0 <= c < self.labels(n).len(),
        ensures
            self.step_to(n, self.labels(n)[c]) == Some(self.kids(n)[c] as int),
    {
        let b = self.labels(n)[c];
        assert(self.nodes@[n].labels@[c] == b);
        let c2 = choose|c2: int| 0 <= c2 < self.nodes@[n].labels@.len() && #[trigger] self.nodes@[n].labels@[c2] == b;
        if c2 < c {
            assert(self.nodes@[n].labels@[c2] < self.nodes@[n].labels@[c]);
        } else if c2 > c {
            assert(self.nodes@[n].labels@[c] < self.nodes@[n].labels@[c2]);
        }
    }

    /// A path from `n` that starts with byte `b` is the step along `b` and then the rest.
    pub proof fn lemma_walk_cons(&self, n: int, b: u8, p: Seq<u8>)
        ensures
            self.walk_from(n, seq![b] + p) == match self.step_to(n, b) {
                Some(m) => self.walk_from(m, p),
                None => None,
            },
        decreases p.len(),
    {
        if p.len() == 0 {
            assert(seq![b] + p =~= Seq::<u8>::empty().push(b));
            self.lemma_walk_push(n, Seq::<u8>::empty(), b);
        } else {
            self.lemma_walk_cons(n, b, p.drop_last());
            assert((seq![b] + p).drop_last() =~= seq![b] + p.drop_last());
            assert((seq![b] + p).last() == p.last());
        }
    }

    /// A path along `p` and then `q` is the concatenation of the two.
    pub proof fn lemma_walk_append(&self, n: int, p: Seq<u8>, q: Seq<u8>)
        ensures
            self.walk_from(n, p + q) == match self.walk_from(n, p) {
                Some(m) => self.walk_from(m, q),
                None => None,
            },
        decreases q.len(),
    {
        if q.len() == 0 {
            assert(p + q =~= p);
        } else {
            self.lemma_walk_append(n, p, q.drop_last());
            assert((p + q).drop_last() =~= p + q.drop_last());
            assert((p + q).last() == q.last());
            match self.walk_from(n, p) {
                Some(m) => {}
                None => {}
            }
        }
    }

    /// Stepping from node `n` along its `c`th label leads to its `c`th child.
    pub proof fn lemma_step_child(&self, n: int, c: int)
        requires
            self.wf(),
            0 <= n < self.size(),
            0 <= c < self.labels(n).len(),
        ensures
            self.step_to(n, self.labels(n)[c]) == Some(self.kids(n)[c] as int),
    {
        self.lemma_step_at(n, c);
    }

    proof fn lemma_step_at(&self, n: int, c: int)
        requires
            self.wf(),
            0 <= n < self.nodes@.len(),
            0 <= c < self.nodes@[n].labels@.len(),
        ensures
            self.step_to(n, self.nodes@[n].labels@[c]) == Some(self.nodes@[n].kids@[c] as int),
    {
        let b = self.nodes@[n].labels@[c];
        assert(exists|c2: int| 0 <= c2 < self.nodes@[n].labels@.len() && #[trigger] self.nodes@[n].labels@[c2] == b);
        let c2 = choose|c2: int| 0 <= c2 < self.nodes@[n].labels@.len() && #[trigger] self.nodes@[n].labels@[c2] == b;
        if c2 < c {
            assert(self.nodes@[n].labels@[c2] < self.nodes@[n].labels@[c]);
        } else if c < c2 {
            assert(self.nodes@[n].labels@[c] < self.nodes@[n].labels@[c2]);
        }
    }

    proof fn lemma_step_valid(&self, n: int, b: u8)
        requires
            self.wf(),
            0 <= n < self.nodes@.len(),
        ensures
            self.step_to(n, b) matches Some(x) ==> n < x < self.nodes@.len(),
            self.step_to(n, b) is Some <==> self.nodes@[n].labels@.contains(b),
    {
        if self.step_to(n, b) is Some {
            let c = choose|c: int| 0 <= c < self.nodes@[n].labels@.len() && #[trigger] self.nodes@[n].labels@[c] == b;
            assert(self.nodes@[n].labels@[c] == b);
        }
        if self.nodes@[n].labels@.contains(b) {
            let c = choose|c: int| 0 <= c < self.nodes@[n].labels@.len() && self.nodes@[n].labels@[c] == b;
            assert(self.nodes@[n].labels@[c] == b);
        }
    }

    proof fn lemma_walk_valid(&self, s: Seq<u8>)
        requires
            self.wf(),
        ensures
            self.walk(s) matches Some(x) ==> 0 <= x < self.nodes@.len() && (s.len() > 0 ==> x > 0),
        decreases s.len(),
    {
        if s.len() > 0 {
            self.lemma_walk_valid(s.drop_last());
            if let Some(m) = self.walk(s.drop_last()) {
                self.lemma_step_valid(m, s.last());
            }
        }
    }

    /// Different byte strings lead to different nodes.
    proof fn lemma_walk_inj(&self, s1: Seq<u8>, s2: Seq<u8>)
        requires
            self.wf(),
            self.walk(s1) is Some,
            self.walk(s1) == self.walk(s2),
        ensures
            s1 == s2,
        decreases s1.len(),
    {
        self.lemma_walk_valid(s1);
        self.lemma_walk_valid(s2);
        if s1.len() == 0 || s2.len() == 0 {
            assert(s1.len() == 0 && s2.len() == 0);
            assert(s1 =~= s2);
        } else {
            let m1 = self.walk(s1.drop_last())->0;
            let m2 = self.walk(s2.drop_last())->0;
            self.lemma_walk_valid(s1.drop_last());
            self.lemma_walk_valid(s2.drop_last());
            let c1 = choose|c: int| 0 <= c < self.nodes@[m1].labels@.len() && #[trigger] self.nodes@[m1].labels@[c] == s1.last();
            let c2 = choose|c: int| 0 <= c < self.nodes@[m2].labels@.len() && #[trigger] self.nodes@[m2].labels@[c] == s2.last();
            assert(self.nodes@[m1].kids@[c1] == self.nodes@[m2].kids@[c2]);
            self.lemma_walk_inj(s1.drop_last(), s2.drop_last());
            assert(s1 =~= s1.drop_last().push(s1.last()));
            assert(s2 =~= s2.drop_last().push(s2.last()));
        }
    }

    /// An empty trie (a root only).
    pub fn new() -> (t: ByteTrie)
        ensures
            t.wf(),
            t.size() == 1,
            t.stored() == Set::<Seq<u8>>::empty(),
            t.leaves_end(),
    {
        let mut nodes: Vec<BNode> = Vec::new();
        nodes.push(BNode { labels: Vec::new(), kids: Vec::new(), end: false });
        let t = ByteTrie { nodes };
        proof {
            assert forall|s: Seq<u8>| !t.stored().contains(s) by {
                t.lemma_walk_root_only(s);
            }
            assert(t.stored() =~= Set::<Seq<u8>>::empty());
        }
        t
    }

    proof fn lemma_walk_root_only(&self, s: Seq<u8>)
        requires
            self.nodes@.len() == 1,
            self.nodes@[0].labels@.len() == 0,
        ensures
            self.walk(s) == if s.len() == 0 { Some(0int) } else { None },
        decreases s.len(),
    {
        if s.len() > 0 {
            self.lemma_walk_root_only(s.drop_last());
        }
    }

    /// A well-formed trie has a root.
    pub proof fn lemma_size_pos(&self)
        requires
            self.wf(),
        ensures
            self.size() >= 1,
    {
    }

    /// The kid indices of node `n`, in label order.
    pub closed spec fn kids(&self, n: int) -> Seq<usize> {
        self.nodes@[n].kids@
    }

    /// The children of node `n`: their labels in ascending order, and the node each leads to.
    pub(crate) fn children(&self, n: usize) -> (r: (&Vec<u8>, &Vec<usize>))
        requires
            self.wf(),
            n < self.size(),
        ensures
            r.0@ == self.labels(n as int),
            r.1@ == self.kids(n as int),
            r.0@.len() == r.1@.len(),
            forall|c: int| 0 <= c < r.1@.len() ==> n < #[trigger] r.1@[c] < self.size(),
    {
        (&self.nodes[n].labels, &self.nodes[n].kids)
    }

    /// The child of node `n` along byte `b`, if any.
    pub(crate) fn child(&self, n: usize, b: u8) -> (r: Option<usize>)
        requires
            self.wf(),
            n < self.size(),
        ensures
            r is Some <==> self.labels(n as int).contains(b),
            r matches Some(x) ==> n < x < self.size(),
            r matches Some(x) ==> exists|c: int| 0 <= c < self.labels(n as int).len() && self.labels(n as int)[c] == b
                && self.kids(n as int)[c] == x,
            r matches Some(x) ==> self.step_to(n as int, b) == Some(x as int),
            r is None ==> self.step_to(n as int, b) is None,
    {
        let node = &self.nodes[n];
        let mut c: usize = 0;
        while c < node.labels.len()
            invariant
                self.wf(),
                n < self.nodes@.len(),
                *node == self.nodes@[n as int],
                c <= node.labels@.len(),
                forall|d: int| 0 <= d < c ==> node.labels@[d] != b,
            decreases node.labels.len() - c,
        {
            if node.labels[c] == b {
                let x = node.kids[c];
                proof {
                    assert(n < self.nodes@[n as int].kids@[c as int]);
                    assert(self.labels(n as int)[c as int] == b);
                    assert(self.kids(n as int)[c as int] == x);
                    self.lemma_step_at(n as int, c as int);
                }
                return Some(x);
            }
            c += 1;
        }
        proof {
            assert(!self.labels(n as int).contains(b)) by {
                if self.labels(n as int).contains(b) {
                    let d = choose|d: int| 0 <= d < self.labels(n as int).len() && self.labels(n as int)[d] == b;
                }
            }
            self.lemma_step_label(n as int, b);
        }
        None
    }

    /// Store one byte string: follow its path from the root, creating the missing nodes, and
    /// mark where it ends.
    pub fn insert_bytes(&mut self, bytes: &[u8])
        requires
            old(self).wf(),
            node_room((old(self).size() + bytes@.len()) as int),
        ensures
            final(self).wf(),
            final(self).size() <= old(self).size() + bytes@.len(),
            final(self).stored() == old(self).stored().insert(bytes@),
            old(self).leaves_end() ==> final(self).leaves_end(),
    {
        let ghost t0 = *self;
        let mut node: usize = 0;
        let mut i: usize = 0;
        proof {
            assert(bytes@.take(0) =~= Seq::<u8>::empty());
        }
        while i < bytes.len()
            invariant
                self.wf(),
                t0 == *old(self),
                t0.wf(),
                node < self.size(),
                i <= bytes@.len(),
                self.size() <= old(self).size() + i,
                t0.nodes@.len() <= self.nodes@.len(),
                node_room((old(self).size() + bytes@.len()) as int),
                self.walk(bytes@.take(i as int)) == Some(node as int),
                forall|s: Seq<u8>| #[trigger] t0.walk(s) is Some ==> self.walk(s) == t0.walk(s),
                forall|s: Seq<u8>| #[trigger] self.walk(s) is Some && self.walk(s)->0 < t0.nodes@.len() ==> t0.walk(s) == self.walk(s),
                forall|x: int| t0.nodes@.len() <= x < self.nodes@.len() ==> !(#[trigger] self.nodes@[x]).end,
                forall|x: int| 0 <= x < t0.nodes@.len() ==> (#[trigger] self.nodes@[x]).end == t0.nodes@[x].end,
                t0.leaves_end() ==> forall|x: int| 1 <= x < self.nodes@.len() && x != node
                    && #[trigger] self.nodes@[x].labels@.len() == 0 ==> self.nodes@[x].end,
            decreases bytes.len() - i,
        {
            let b = bytes[i];
            let ghost t1 = *self;
            proof {
                assert(bytes@.take(i + 1).drop_last() =~= bytes@.take(i as int));
                assert(bytes@.take(i + 1).last() == b);
            }
            match self.child(node, b) {
                Some(x) => {
                    proof {
                        let c = choose|c: int| 0 <= c < self.labels(node as int).len() && self.labels(node as int)[c] == b
                            && self.kids(node as int)[c] == x;
                        self.lemma_step_at(node as int, c);
                        assert(self.nodes@[node as int].labels@.len() > 0);
                    }
                    node = x;
                }
                None => {
                    let id = self.nodes.len();
                    self.nodes.push(BNode { labels: Vec::new(), kids: Vec::new(), end: false });
                    // insert (b, id) in label order
                    let mut labels: Vec<u8> = Vec::new();
                    let mut kids: Vec<usize> = Vec::new();
                    std::mem::swap(&mut labels, &mut self.nodes[node].labels);
                    std::mem::swap(&mut kids, &mut self.nodes[node].kids);
                    let ghost l0 = labels@;
                    let ghost k0 = kids@;
                    let mut pos: usize = 0;
                    while pos < labels.len() && labels[pos] < b
                        invariant
                            pos <= labels@.len(),
                            labels@ == l0,
                            forall|d: int| 0 <= d < pos ==> l0[d] < b,
                        decreases labels.len() - pos,
                    {
                        pos += 1;
                    }
                    labels.insert(pos, b);
                    kids.insert(pos, id);
                    proof {
                        assert(!l0.contains(b));
                        assert forall|c: int, d: int| 0 <= c < d < labels@.len() implies #[trigger] labels@[c] < #[trigger] labels@[d] by {
                            if d < pos {
                            } else if d == pos {
                                assert(l0[c] < b);
                            } else if c < pos {
                                assert(labels@[d] == l0[d - 1]);
                                assert(l0[c] < l0[d - 1] || c == d - 1);
                                if c != d - 1 {
                                } else {
                                    assert(l0[c] < b);
                                }
                            } else if c == pos {
                                assert(labels@[d] == l0[d - 1]);
                                if l0[d - 1] < b {
                                    assert(d - 1 >= pos);
                                    assert(l0[pos as int] <= l0[d - 1]);
                                }
                            }
                        }
                    }
                    std::mem::swap(&mut labels, &mut self.nodes[node].labels);
                    std::mem::swap(&mut kids, &mut self.nodes[node].kids);
                    proof {
                        assert forall|n: int, c: int| 0 <= n < self.nodes@.len() && 0 <= c < self.nodes@[n].kids@.len()
                            implies n < #[trigger] self.nodes@[n].kids@[c] < self.nodes@.len() by {
                            if n == node {
                                if c != pos {
                                    let c0 = if c < pos { c } else { c - 1 };
                                    assert(self.nodes@[n].kids@[c] == k0[c0]);
                                }
                            }
                        }
                        let t2 = *self;
                        assert(t1.nodes@[node as int].labels@ == l0);
                        assert(t1.nodes@[node as int].kids@ == k0);
                        t2.lemma_step_at(node as int, pos as int);
                        assert(t2.step_to(node as int, b) == Some(id as int));
                        assert forall|n: int, bb: u8| 0 <= n < t1.nodes@.len() && #[trigger] t1.step_to(n, bb) is Some
                            implies t2.step_to(n, bb) == t1.step_to(n, bb) by {
                            if n == node {
                                t1.lemma_step_valid(n, bb);
                                let c = choose|c: int| 0 <= c < l0.len() && l0[c] == bb;
                                assert(l0[c] == bb);
                                t1.lemma_step_at(n, c);
                                let c2 = if c < pos { c } else { c + 1 };
                                assert(t2.nodes@[n].labels@[c2] == bb);
                                assert(t2.nodes@[n].kids@[c2] == k0[c]);
                                t2.lemma_step_at(n, c2);
                            } else {
                                assert(t2.nodes@[n] == t1.nodes@[n]);
                            }
                        }
                        assert(keeps(t1, t2));
                        assert forall|n: int, bb: u8| 0 <= n < t2.nodes@.len() && #[trigger] t2.step_to(n, bb) is Some
                            implies (n < t1.nodes@.len() && t2.step_to(n, bb) == t1.step_to(n, bb))
                                || (n == node && bb == b && t2.step_to(n, bb) == Some(id as int)) by {
                            t2.lemma_step_valid(n, bb);
                            if n == id {
                                assert(t2.nodes@[n].labels@.len() == 0);
                            } else if n == node {
                                let c2 = choose|c: int| 0 <= c < t2.nodes@[n].labels@.len() && t2.nodes@[n].labels@[c] == bb;
                                assert(t2.nodes@[n].labels@[c2] == bb);
                                t2.lemma_step_at(n, c2);
                                if c2 != pos {
                                    let c = if c2 < pos { c2 } else { c2 - 1 };
                                    assert(l0[c] == bb);
                                    assert(t2.nodes@[n].kids@[c2] == k0[c]);
                                    t1.lemma_step_at(n, c);
                                }
                            } else {
                                assert(t2.nodes@[n] == t1.nodes@[n]);
                            }
                        }
                        assert(adds_only(t1, t2, node as int, b, id as int));
                        assert forall|s: Seq<u8>| #[trigger] t0.walk(s) is Some implies t2.walk(s) == t0.walk(s) by {
                            lemma_walk_keep(t1, t2, s);
                        }
                        assert forall|s: Seq<u8>| #[trigger] t2.walk(s) is Some && t2.walk(s)->0 < t0.nodes@.len() implies t0.walk(s) == t2.walk(s) by {
                            lemma_walk_back(t1, t2, node as int, b, id as int, s);
                        }
                        lemma_walk_keep(t1, t2, bytes@.take(i as int));
                        assert(t2.walk(bytes@.take(i + 1)) == Some(id as int));
                        if t0.leaves_end() {
                            assert forall|x: int| 1 <= x < t2.nodes@.len() && x != id
                                && #[trigger] t2.nodes@[x].labels@.len() == 0 implies t2.nodes@[x].end by {
                                if x == node {
                                    assert(t2.nodes@[x].labels@[pos as int] == b);
                                } else {
                                    assert(x < t1.nodes@.len());
                                    assert(t2.nodes@[x] == t1.nodes@[x]);
                                }
                            }
                        }
                    }
                    node = id;
                }
            }
            i += 1;
        }
        let ghost t3 = *self;
        self.nodes[node].end = true;
        proof {
            assert(bytes@.take(bytes@.len() as int) =~= bytes@);
            let t4 = *self;
            assert forall|s: Seq<u8>| #[trigger] t4.walk(s) == t3.walk(s) by {
                lemma_same_edges_walk(t3, t4, s);
            }
            assert forall|s: Seq<u8>| t4.stored().contains(s) <==> t0.stored().insert(bytes@).contains(s) by {
                t3.lemma_walk_valid(s);
                t0.lemma_walk_valid(s);
                if t4.stored().contains(s) {
                    let x = t4.walk(s)->0;
                    if x == node {
                        t3.lemma_walk_inj(s, bytes@);
                    } else {
                        assert(t3.nodes@[x].end);
                        assert(x < t0.nodes@.len());
                    }
                }
                if t0.stored().contains(s) {
                    let x = t0.walk(s)->0;
                    assert(t3.walk(s) == Some(x));
                }
            }
            assert(t4.stored() =~= t0.stored().insert(bytes@));
            if t0.leaves_end() {
                assert forall|x: int| 1 <= x < t4.nodes@.len() && #[trigger] t4.nodes@[x].labels@.len() == 0
                    implies t4.nodes@[x].end by {
                    if x != node {
                        assert(t4.nodes@[x] == t3.nodes@[x]);
                    }
                }
            }
        }
    }

    /// Build from terms by encoding each.
    pub fn from_terms(terms: &[Term]) -> (t: ByteTrie)
        requires
            forall|i: int| 0 <= i < terms@.len() ==> encodable(#[trigger] terms@[i]@),
            node_room(1 + encoded_total(crate::term::views(terms@))),
        ensures
            t.wf(),
            t.size() <= 1 + encoded_total(crate::term::views(terms@)),
            t.stored() == encodings(crate::term::views(terms@)),
            t.leaves_end(),
            forall|s: Seq<u8>| #[trigger] t.stored().contains(s) ==> spells_one(s),
    {
        let mut t = ByteTrie::new();
        let mut i: usize = 0;
        proof {
            assert(encodings(crate::term::views(terms@).take(0)) =~= Set::<Seq<u8>>::empty());
        }
        while i < terms.len()
            invariant
                t.wf(),
                i <= terms@.len(),
                forall|i: int| 0 <= i < terms@.len() ==> encodable(#[trigger] terms@[i]@),
                node_room(1 + encoded_total(crate::term::views(terms@))),
                t.size() <= 1 + encoded_total(crate::term::views(terms@).take(i as int)),
                t.stored() == encodings(crate::term::views(terms@).take(i as int)),
                t.leaves_end(),
            decreases terms.len() - i,
        {
            let bytes = terms[i].encode();
            proof {
                let vs = crate::term::views(terms@);
                assert(vs.take(i + 1).drop_last() =~= vs.take(i as int));
                assert(vs.take(i + 1).last() == terms@[i as int]@);
                lemma_encoded_total_prefix(vs, i + 1);
            }
            t.insert_bytes(bytes.as_slice());
            proof {
                let vs = crate::term::views(terms@);
                assert(encodings(vs.take(i + 1)) =~= encodings(vs.take(i as int)).insert(bytes@)) by {
                    assert forall|e: Seq<u8>| encodings(vs.take(i + 1)).contains(e) implies encodings(vs.take(i as int)).insert(bytes@).contains(e) by {
                        let j = choose|j: int| 0 <= j < vs.take(i + 1).len() && e == #[trigger] crate::term::encoding(vs.take(i + 1)[j]);
                        if j < i {
                            assert(vs.take(i as int)[j] == vs.take(i + 1)[j]);
                        }
                    }
                    assert forall|e: Seq<u8>| encodings(vs.take(i as int)).insert(bytes@).contains(e) implies encodings(vs.take(i + 1)).contains(e) by {
                        if e == bytes@ {
                            assert(vs.take(i + 1)[i as int] == terms@[i as int]@);
                        } else {
                            let j = choose|j: int| 0 <= j < vs.take(i as int).len() && e == #[trigger] crate::term::encoding(vs.take(i as int)[j]);
                            assert(vs.take(i + 1)[j] == vs.take(i as int)[j]);
                        }
                    }
                }
            }
            i += 1;
        }
        proof {
            let vs = crate::term::views(terms@);
            assert(vs.take(terms@.len() as int) =~= vs);
            assert forall|s: Seq<u8>| #[trigger] t.stored().contains(s) implies spells_one(s) by {
                let j = choose|j: int| 0 <= j < vs.len() && s == #[trigger] crate::term::encoding(vs[j]);
                assert(vs[j] == terms@[j]@);
                law_encoding_spells_one(vs[j]);
            }
        }
        t
    }
}

/// `t2` keeps every edge of `t1`.
spec fn keeps(t1: ByteTrie, t2: ByteTrie) -> bool {
    forall|n: int, b: u8| 0 <= n < t1.nodes@.len() && #[trigger] t1.step_to(n, b) is Some ==> t2.step_to(n, b) == t1.step_to(n, b)
}

/// Every edge of `t2` is an edge of `t1`, or the edge `b0` from `n0` to `id`.
spec fn adds_only(t1: ByteTrie, t2: ByteTrie, n0: int, b0: u8, id: int) -> bool {
    forall|n: int, b: u8| 0 <= n < t2.nodes@.len() && #[trigger] t2.step_to(n, b) is Some
        ==> (n < t1.nodes@.len() && t2.step_to(n, b) == t1.step_to(n, b)) || (n == n0 && b == b0 && t2.step_to(n, b) == Some(id))
}

proof fn lemma_walk_keep(t1: ByteTrie, t2: ByteTrie, s: Seq<u8>)
    requires
        t1.wf(),
        keeps(t1, t2),
    ensures
        t1.walk(s) is Some ==> t2.walk(s) == t1.walk(s),
    decreases s.len(),
{
    if s.len() > 0 {
        lemma_walk_keep(t1, t2, s.drop_last());
        t1.lemma_walk_valid(s.drop_last());
    }
}

proof fn lemma_walk_back(t1: ByteTrie, t2: ByteTrie, n0: int, b0: u8, id: int, s: Seq<u8>)
    requires
        t1.wf(),
        t2.wf(),
        id >= t1.nodes@.len(),
        adds_only(t1, t2, n0, b0, id),
    ensures
        t2.walk(s) is Some && t2.walk(s)->0 < t1.nodes@.len() ==> t1.walk(s) == t2.walk(s),
    decreases s.len(),
{
    if s.len() > 0 {
        t2.lemma_walk_valid(s.drop_last());
        if let Some(m) = t2.walk(s.drop_last()) {
            if t2.step_to(m, s.last()) is Some {
                lemma_walk_back(t1, t2, n0, b0, id, s.drop_last());
            }
        }
    }
}

proof fn lemma_same_edges_walk(t1: ByteTrie, t2: ByteTrie, s: Seq<u8>)
    requires
        t1.nodes@.len() == t2.nodes@.len(),
        forall|n: int| 0 <= n < t1.nodes@.len() ==> (#[trigger] t1.nodes@[n]).labels@ == t2.nodes@[n].labels@
            && t1.nodes@[n].kids@ == t2.nodes@[n].kids@,
        t1.wf(),
    ensures
        t2.walk(s) == t1.walk(s),
    decreases s.len(),
{
    if s.len() > 0 {
        lemma_same_edges_walk(t1, t2, s.drop_last());
        t1.lemma_walk_valid(s.drop_last());
        if let Some(m) = t1.walk(s.drop_last()) {
            assert(t1.nodes@[m].labels@ == t2.nodes@[m].labels@);
            assert(t1.nodes@[m].kids@ == t2.nodes@[m].kids@);
            assert(t2.step_to(m, s.last()) == t1.step_to(m, s.last()));
        }
    }
}

/// The encodings of the terms.
pub open spec fn encodings(ts: Seq<crate::term::TermV>) -> Set<Seq<u8>> {
    Set::new(|e: Seq<u8>| exists|j: int| 0 <= j < ts.len() && e == #[trigger] crate::term::encoding(ts[j]))
}

/// The total length of the encodings of the terms.
pub open spec fn encoded_total(ts: Seq<crate::term::TermV>) -> int
    decreases ts.len(),
{
    if ts.len() == 0 {
        0
    } else {
        encoded_total(ts.drop_last()) + crate::term::encoding(ts.last()).len()
    }
}

proof fn lemma_encoded_total_prefix(ts: Seq<crate::term::TermV>, k: int)
    requires
        0 <= k <= ts.len(),
    ensures
        encoded_total(ts.take(k)) <= encoded_total(ts),
    decreases ts.len() - k,
{
    if k < ts.len() {
        lemma_encoded_total_prefix(ts, k + 1);
        assert(ts.take(k + 1).drop_last() =~= ts.take(k));
    } else {
        assert(ts.take(k) =~= ts);
    }
}


/// A navigation cursor into a `ByteTrie`, holding the path (node indices) from the root.
pub struct TrieZipper<'a> {
    trie: &'a ByteTrie,
    stack: Vec<usize>,
}

impl<'a> TrieZipper<'a> {
    /// The trie under the zipper.
    pub closed spec fn tree(&self) -> ByteTrie {
        *self.trie
    }

    /// The node indices on the path from the starting node to the focus.
    pub closed spec fn path(&self) -> Seq<usize> {
        self.stack@
    }

    /// The path names nodes of the trie, each deeper than the last.
    pub closed spec fn wf(&self) -> bool {
        &&& self.trie.wf()
        &&& self.stack@.len() >= 1
        &&& forall|i: int| 0 <= i < self.stack@.len() ==> #[trigger] self.stack@[i] < self.trie.nodes@.len()
        &&& forall|i: int| 0 <= i < self.stack@.len() ==> #[trigger] self.stack@[i] >= i
    }

    /// The focus node.
    pub closed spec fn focus(&self) -> int {
        self.stack@.last() as int
    }

    /// A zipper at the root.
    pub fn new(root: &'a ByteTrie) -> (z: TrieZipper<'a>)
        requires
            root.wf(),
        ensures
            z.wf(),
            z.tree() == *root,
            z.path() == seq![0usize],
    {
        let mut stack: Vec<usize> = Vec::new();
        stack.push(0);
        TrieZipper { trie: root, stack }
    }

    /// The focus is the last node of the path.
    pub proof fn lemma_focus(&self)
        requires
            self.wf(),
        ensures
            self.focus() == self.path().last(),
            0 <= self.focus() < self.tree().size(),
    {
    }

    /// A well-formed zipper runs over a well-formed trie.
    pub proof fn lemma_tree_wf(&self)
        requires
            self.wf(),
        ensures
            self.tree().wf(),
    {
    }

    /// The trie under the zipper.
    pub(crate) fn trie_ref(&self) -> (t: &'a ByteTrie)
        ensures
            *t == self.tree(),
    {
        self.trie
    }

    fn node(&self) -> (n: usize)
        requires
            self.wf(),
        ensures
            n == self.focus(),
            n < self.tree().size(),
    {
        self.stack[self.stack.len() - 1]
    }

    /// The child bytes present at the focus.
    pub fn child_mask(&self) -> (m: ByteMask)
        requires
            self.wf(),
        ensures
            forall|b: u8| mask_has(m, b) <==> self.tree().labels(self.focus()).contains(b),
    {
        let n = self.node();
        let labels = &self.trie.nodes[n].labels;
        let mut w: [u64; 4] = [0u64, 0u64, 0u64, 0u64];
        let mut i: usize = 0;
        proof {
            assert forall|b: u8| !mask_has(ByteMask(w), b) by {
                lemma_byte_split(b);
                let s = (b % 64) as u64;
                lemma_zero_word_bit(s);
            }
        }
        while i < labels.len()
            invariant
                i <= labels@.len(),
                forall|b: u8| mask_has(ByteMask(w), b) <==> labels@.take(i as int).contains(b),
            decreases labels.len() - i,
        {
            let b = labels[i];
            proof {
                lemma_byte_split(b);
            }
            let hi: usize = (b >> 6) as usize;
            let lo: u64 = (b & 63) as u64;
            let old_w = w;
            let nw: u64 = w[hi] | (1u64 << lo);
            w.set(hi, nw);
            proof {
                assert(labels@.take(i + 1) =~= labels@.take(i as int).push(b));
                assert forall|y: u8| mask_has(ByteMask(w), y) <==> labels@.take(i + 1).contains(y) by {
                    lemma_byte_split(y);
                    let hy = (y / 64) as int;
                    let j = (y % 64) as u64;
                    assert(y as int == hy * 64 + j);
                    assert(b as int == hi * 64 + lo);
                    assert(mask_has(ByteMask(old_w), y) <==> labels@.take(i as int).contains(y));
                    assert(labels@.take(i + 1).contains(y) <==> (labels@.take(i as int).contains(y) || y == b)) by {
                        if labels@.take(i + 1).contains(y) && y != b {
                            let x = choose|x: int| 0 <= x < i + 1 && #[trigger] labels@.take(i + 1)[x] == y;
                            assert(labels@.take(i as int)[x] == y);
                        }
                        if labels@.take(i as int).contains(y) {
                            let x = choose|x: int| 0 <= x < i && #[trigger] labels@.take(i as int)[x] == y;
                            assert(labels@.take(i + 1)[x] == y);
                        }
                        if y == b {
                            assert(labels@.take(i + 1)[i as int] == b);
                        }
                    }
                    if hy == hi {
                        let ow = old_w@[hi as int];
                        assert(((ow | (1u64 << lo)) >> j) & 1u64 == if j == lo { 1u64 } else { (ow >> j) & 1u64 }) by (bit_vector)
                            requires
                                lo < 64,
                                j < 64,
                        ;
                        assert(w@[hi as int] == ow | (1u64 << lo));
                        assert((y == b) <==> (j == lo));
                    } else {
                        assert(w@[hy] == old_w@[hy]);
                        assert(y != b);
                    }
                }
            }
            i += 1;
        }
        proof {
            assert(labels@.take(labels@.len() as int) =~= labels@);
        }
        ByteMask(w)
    }

    /// Descend along `b`; returns false (without moving) if there is no such child.
    pub fn descend_to_byte(&mut self, b: u8) -> (r: bool)
        requires
            old(self).wf(),
        ensures
            final(self).wf(),
            final(self).tree() == old(self).tree(),
            r == old(self).tree().labels(old(self).focus()).contains(b),
            r ==> final(self).path().len() == old(self).path().len() + 1
                && final(self).path().drop_last() == old(self).path()
                && final(self).focus() > old(self).focus()
                && old(self).tree().step_to(old(self).focus(), b) == Some(final(self).focus()),
            !r ==> final(self).path() == old(self).path() && final(self).focus() == old(self).focus(),
    {
        let n = self.node();
        match self.trie.child(n, b) {
            Some(x) => {
                let ghost s0 = self.stack@;
                proof {
                    let c = choose|c: int| 0 <= c < self.trie.labels(n as int).len() && self.trie.labels(n as int)[c] == b
                        && self.trie.kids(n as int)[c] == x;
                    self.trie.lemma_step_at(n as int, c);
                }
                self.stack.push(x);
                proof {
                    assert(self.stack@.drop_last() =~= s0);
                }
                true
            }
            None => false,
        }
    }

    /// Step back up one byte.
    pub fn ascend_byte(&mut self)
        requires
            old(self).wf(),
            old(self).path().len() > 1,
        ensures
            final(self).wf(),
            final(self).tree() == old(self).tree(),
            final(self).path() == old(self).path().drop_last(),
            final(self).focus() == old(self).path()[old(self).path().len() - 2],
    {
        self.stack.pop();
    }

    /// How many bytes below its starting node the focus is.
    pub fn depth(&self) -> (d: usize)
        requires
            self.wf(),
        ensures
            d == self.path().len() - 1,
    {
        self.stack.len() - 1
    }
}

proof fn lemma_path_room(z: TrieZipper)
    requires
        z.wf(),
    ensures
        z.path().len() <= z.tree().size(),
        node_room(z.tree().size() as int),
{
    let i = z.stack@.len() - 1;
    assert(z.stack@[i] >= i);
}

/// A cursor over the complete subterms branching from a zipper's focus, in ascending byte
/// order, with a leapfrog `seek`.
pub struct SubtermCursor<'a> {
    z: TrieZipper<'a>,
    key: Vec<u8>,
    at_end: bool,
    floor: Ghost<nat>,
}

impl<'a> SubtermCursor<'a> {
    /// The bytes of the current subterm, relative to the starting focus.
    pub closed spec fn key_seq(&self) -> Seq<u8> {
        self.key@
    }

    /// The cursor has no current subterm.
    pub closed spec fn ended(&self) -> bool {
        self.at_end
    }

    /// The node the cursor's subterms branch from.
    pub closed spec fn base(&self) -> int {
        self.z.path()[self.floor@ - 1] as int
    }

    /// The trie under the cursor.
    pub closed spec fn tree(&self) -> ByteTrie {
        self.z.tree()
    }

    /// The zipper moves with the key, along the key's bytes, and the key never runs past one
    /// subterm.
    pub closed spec fn wf(&self) -> bool {
        &&& self.z.wf()
        &&& self.floor@ >= 1
        &&& self.z.path().len() == self.floor@ + self.key@.len()
        &&& within_one(self.key@)
        &&& forall|k: int| 0 <= k < self.key@.len() ==> self.z.tree().step_to(self.z.path()[self.floor@ - 1 + k] as int, #[trigger] self.key@[k])
            == Some(self.z.path()[self.floor@ + k] as int)
    }

    /// The key spells a path from the base node to the focus.
    proof fn lemma_key_path(&self, k: int)
        requires
            self.wf(),
            0 <= k <= self.key@.len(),
        ensures
            self.z.tree().walk_from(self.base(), self.key@.take(k)) == Some(self.z.path()[self.floor@ - 1 + k] as int),
        decreases k,
    {
        if k > 0 {
            self.lemma_key_path(k - 1);
            assert(self.key@.take(k).drop_last() =~= self.key@.take(k - 1));
            assert(self.key@.take(k).last() == self.key@[k - 1]);
        } else {
            assert(self.key@.take(0) =~= Seq::<u8>::empty());
        }
    }

    /// The current key is a path in the trie from the base node.
    proof fn lemma_key_in_trie(&self)
        requires
            self.wf(),
        ensures
            self.z.tree().walk_from(self.base(), self.key@) is Some,
    {
        self.lemma_key_path(self.key@.len() as int);
        assert(self.key@.take(self.key@.len() as int) =~= self.key@);
    }

    /// `k` is the key of one complete subterm stored below the base node.
    pub closed spec fn skey(&self, k: Seq<u8>) -> bool {
        &&& complete(k)
        &&& within_one(k)
        &&& self.z.tree().walk_from(self.base(), k) is Some
    }

    /// `p` leads from the base node to a node with no children without completing a subterm:
    /// a path that no complete subterm extends.
    pub closed spec fn dead_end(&self, p: Seq<u8>) -> bool {
        &&& within_one(p)
        &&& !complete(p)
        &&& self.z.tree().walk_from(self.base(), p) matches Some(n) && self.z.tree().labels(n).len() == 0
    }

    /// No path from the base node stops, within one subterm, at a node without children before
    /// the subterm is complete (so the leftmost descent from any node always completes one).
    pub closed spec fn no_dead_ends(&self) -> bool {
        forall|p: Seq<u8>| !#[trigger] self.dead_end(p)
    }

    /// From a node reached along `q`, where `q` ends between subterms, in a trie whose childless
    /// nodes all end stored strings, each of them one complete subterm: the leftmost descent
    /// always completes a subterm, so there is no dead end, unless the node has no children, and
    /// then no subterm key is below it either.
    pub proof fn lemma_no_dead_ends(&self, q: Seq<u8>)
        requires
            self.wf(),
            self.tree().walk(q) == Some(self.base()),
            parse_state(q).1 == 0,
            self.tree().leaves_end(),
            forall|s: Seq<u8>| #[trigger] self.tree().stored().contains(s) ==> spells_one(s),
        ensures
            self.no_dead_ends() || forall|k: Seq<u8>| !#[trigger] self.skey(k),
    {
        let t = self.z.tree();
        let b = self.base();
        if !self.no_dead_ends() {
            let p = choose|p: Seq<u8>| #[trigger] self.dead_end(p);
            let n = t.walk_from(b, p)->Some_0;
            if p.len() > 0 {
                t.lemma_walk_from_root(q);
                t.lemma_walk_append(0, q, p);
                t.lemma_walk_from_root(q + p);
                t.lemma_walk_valid(q + p);
                assert(t.nodes@[n].end);
                assert(t.stored().contains(q + p));
                let e = q + p;
                assert(spells_one(e));
                let m = parse_state(q).0;
                lemma_run_parse(q);
                lemma_run_parse(e);
                lemma_run_parse(p);
                lemma_run_append(q, p, (1, 0));
                lemma_run_shift(p, 1, 0, m - 1);
                assert(e.take(q.len() as int) =~= q);
                assert(!complete(q));
                assert forall|k: int| 0 <= k < q.len() implies !#[trigger] complete(q.take(k)) by {
                    assert(e.take(k) =~= q.take(k));
                }
                lemma_parse_bounds(q);
                lemma_parse_bounds(p);
                assert(false);
            } else {
                assert(n == b);
                assert forall|k: Seq<u8>| !#[trigger] self.skey(k) by {
                    if self.skey(k) {
                        if k.len() > 0 {
                            t.lemma_walk_from_prefix(b, k, 0);
                            assert(k.take(0) =~= Seq::<u8>::empty());
                            t.lemma_step_valid(b, k[0]);
                            assert(t.nodes@[b].labels@.contains(k[0]));
                        } else {
                            assert(parse_state(k) == (1int, 0int));
                        }
                    }
                }
            }
        }
    }

    /// From a node reached along `q`, the subterm keys are the byte strings that spell exactly
    /// one subterm and continue `q` along a path of the trie.
    pub proof fn lemma_skey(&self, q: Seq<u8>, k: Seq<u8>)
        requires
            self.wf(),
            self.tree().walk(q) == Some(self.base()),
        ensures
            self.skey(k) <==> spells_one(k) && self.tree().walk(q + k) is Some,
    {
        let t = self.z.tree();
        t.lemma_walk_from_root(q);
        t.lemma_walk_append(0, q, k);
        t.lemma_walk_from_root(q + k);
    }

    /// Two cursors over one trie from one base node have the same subterm keys and dead ends.
    pub proof fn lemma_same_base(&self, other: &Self)
        requires
            self.base() == other.base(),
            self.tree() == other.tree(),
        ensures
            forall|k: Seq<u8>| #[trigger] self.skey(k) == other.skey(k),
            self.no_dead_ends() == other.no_dead_ends(),
    {
        assert forall|p: Seq<u8>| #[trigger] self.dead_end(p) == other.dead_end(p) by {}
        if self.no_dead_ends() {
            assert forall|p: Seq<u8>| !#[trigger] other.dead_end(p) by {
                assert(!self.dead_end(p));
            }
        }
        if other.no_dead_ends() {
            assert forall|p: Seq<u8>| !#[trigger] self.dead_end(p) by {
                assert(!other.dead_end(p));
            }
        }
    }

    /// A stored subterm that runs through the key continues along one of the focus's labels.
    proof fn lemma_next_label(&self, k: Seq<u8>)
        requires
            self.wf(),
            self.z.tree().walk_from(self.base(), k) is Some,
            is_prefix(self.key@, k),
            k.len() > self.key@.len(),
        ensures
            self.z.tree().labels(self.z.focus()).contains(k[self.key@.len() as int]),
    {
        let d = self.key@.len() as int;
        self.lemma_key_path(d);
        assert(self.key@.take(d) =~= self.key@);
        self.z.tree().lemma_walk_from_prefix(self.base(), k, d);
        assert(k.take(d) == self.key@);
        assert(self.z.path()[self.floor@ - 1 + d] as int == self.z.focus());
        self.z.tree().lemma_step_label(self.z.focus(), k[d]);
    }

    /// A stored subterm key that starts with a complete key is that key.
    proof fn lemma_complete_prefix(c: Seq<u8>, k: Seq<u8>)
        requires
            complete(c),
            within_one(k),
            is_prefix(c, k),
        ensures
            k == c,
    {
        if k.len() > c.len() {
            assert(!complete(k.take(c.len() as int)));
        }
        assert(k =~= k.take(c.len() as int));
    }

    /// A cursor over the subterms at the zipper's focus, not yet positioned.    /// A cursor over the subterms at the zipper's focus, not yet positioned.
    pub fn new(z: TrieZipper<'a>) -> (c: SubtermCursor<'a>)
        requires
            z.wf(),
        ensures
            c.wf(),
            c.ended(),
            c.base() == z.focus(),
            c.tree() == z.tree(),
    {
        let ghost f = z.path().len();
        let c = SubtermCursor { z, key: Vec::new(), at_end: true, floor: Ghost(f) };
        proof {
            assert forall|k: int| 0 <= k < c.key@.len() implies !#[trigger] complete(c.key@.take(k)) by {}
        }
        c
    }

    fn reset_to_floor(&mut self)
        requires
            old(self).wf(),
        ensures
            final(self).base() == old(self).base(),
            final(self).tree() == old(self).tree(),
            final(self).wf(),
            final(self).key@.len() == 0,
            !final(self).at_end,
    {
        while self.key.len() > 0
            invariant
                self.wf(),
                self.base() == old(self).base(),
                self.tree() == old(self).tree(),
            decreases self.key@.len(),
        {
            let ghost k0 = self.key@;
            self.key.pop();
            self.z.ascend_byte();
            proof {
                assert forall|k: int| 0 <= k < self.key@.len() implies !#[trigger] complete(self.key@.take(k)) by {
                    assert(self.key@.take(k) =~= k0.take(k));
                }
            }
        }
        self.at_end = false;
    }

    fn key_complete(&self) -> (r: bool)
        requires
            self.wf(),
        ensures
            r == complete(self.key@),
    {
        proof {
            lemma_path_room(self.z);
        }
        is_complete(self.key.as_slice())
    }

    /// Descend one byte and append it to the key, after the key was found incomplete.
    fn push_byte(&mut self, b: u8)
        requires
            old(self).wf(),
            !complete(old(self).key@),
            old(self).z.tree().labels(old(self).z.focus()).contains(b),
        ensures
            final(self).base() == old(self).base(),
            final(self).tree() == old(self).tree(),
            final(self).wf(),
            final(self).key@ == old(self).key@.push(b),
            final(self).at_end == old(self).at_end,
            final(self).z.focus() > old(self).z.focus(),
            final(self).z.tree() == old(self).z.tree(),
    {
        let ghost k0 = self.key@;
        self.z.descend_to_byte(b);
        self.key.push(b);
        proof {
            assert forall|k: int| 0 <= k < self.key@.len() implies !#[trigger] complete(self.key@.take(k)) by {
                if k < k0.len() {
                    assert(self.key@.take(k) =~= k0.take(k));
                } else {
                    assert(self.key@.take(k) =~= k0);
                }
            }
        }
    }

    fn complete_leftmost(&mut self) -> (ok: bool)
        requires
            old(self).wf(),
        ensures
            final(self).base() == old(self).base(),
            final(self).tree() == old(self).tree(),
            final(self).wf(),
            final(self).at_end == old(self).at_end,
            is_prefix(old(self).key@, final(self).key@),
            ok ==> complete(final(self).key@),
            ok ==> forall|k: Seq<u8>| #[trigger] final(self).skey(k) && is_prefix(old(self).key@, k) ==> !bytes_lt(k, final(self).key@),
            !ok ==> final(self).dead_end(final(self).key@),
    {
        let ghost k0 = self.key@;
        proof {
            assert(self.key@.take(k0.len() as int) =~= k0);
        }
        loop
            invariant
                self.wf(),
                self.at_end == old(self).at_end,
                self.base() == old(self).base(),
                self.tree() == old(self).tree(),
                k0 == old(self).key@,
                is_prefix(k0, self.key@),
                forall|k: Seq<u8>| #[trigger] self.skey(k) && is_prefix(k0, k) ==> is_prefix(self.key@, k) || bytes_lt(self.key@, k),
            decreases self.z.tree().size() - self.z.focus(),
        {
            if self.key_complete() {
                proof {
                    assert forall|k: Seq<u8>| #[trigger] self.skey(k) && is_prefix(k0, k) implies !bytes_lt(k, self.key@) by {
                        if is_prefix(self.key@, k) {
                            Self::lemma_complete_prefix(self.key@, k);
                            lemma_bytes_lt_irrefl(k);
                        } else {
                            assert(bytes_lt(self.key@, k));
                            if bytes_lt(k, self.key@) {
                                lemma_bytes_lt_trans(k, self.key@, k);
                                lemma_bytes_lt_irrefl(k);
                            }
                        }
                    }
                }
                return true;
            }
            let mask = self.z.child_mask();
            match least_ge(&mask, 0) {
                Some(b) => {
                    let ghost c = self.key@;
                    let ghost pre = *self;
                    proof {
                        assert forall|k: Seq<u8>| #[trigger] self.skey(k) && is_prefix(k0, k) implies
                            is_prefix(c.push(b), k) || bytes_lt(c.push(b), k) by {
                            if is_prefix(c, k) {
                                if k.len() == c.len() {
                                    assert(k =~= k.take(c.len() as int));
                                } else {
                                    assert(k.len() > c.len());
                                    self.lemma_next_label(k);
                                    let x = k[c.len() as int];
                                    assert(mask_has(mask, x));
                                    assert(k.take(c.len() as int) == c);
                                    if x == b {
                                        assert(k.take(c.len() + 1 as int) =~= c.push(b));
                                    } else {
                                        assert(c.push(b).take(c.len() as int) =~= c);
                                        lemma_lt_at(c.push(b), k, c.len() as int);
                                    }
                                }
                            } else {
                                lemma_lt_push(c, b, k);
                            }
                        }
                    }
                    self.push_byte(b);
                    proof {
                        assert(self.key@.take(k0.len() as int) =~= c.push(b).take(k0.len() as int));
                        assert(c.push(b).take(k0.len() as int) =~= c.take(k0.len() as int));
                        assert forall|k: Seq<u8>| #[trigger] self.skey(k) && is_prefix(k0, k) implies
                            is_prefix(self.key@, k) || bytes_lt(self.key@, k) by {
                            assert(pre.skey(k));
                        }
                    }
                }
                None => {
                    proof {
                        self.lemma_key_path(self.key@.len() as int);
                        assert(self.key@.take(self.key@.len() as int) =~= self.key@);
                        let n = self.z.focus();
                        assert(self.z.path()[self.floor@ - 1 + self.key@.len()] as int == n);
                        if self.z.tree().labels(n).len() > 0 {
                            let x = self.z.tree().labels(n)[0];
                            assert(self.z.tree().labels(n).contains(x));
                            assert(mask_has(mask, x));
                        }
                    }
                    return false;
                }
            }
        }
    }

    /// Back up to the nearest position with a later sibling and take the leftmost subterm there.
    /// No stored subterm after `r` runs through the key, so the result is the least one after `r`.
    fn backtrack_then_leftmost(&mut self, Ghost(r): Ghost<Seq<u8>>) -> (ok: bool)
        requires
            old(self).wf(),
            is_prefix(old(self).key@, r),
            forall|k: Seq<u8>| #[trigger] old(self).skey(k) && bytes_lt(r, k) ==> !is_prefix(old(self).key@, k),
        ensures
            final(self).base() == old(self).base(),
            final(self).tree() == old(self).tree(),
            final(self).wf(),
            final(self).at_end == old(self).at_end,
            ok ==> complete(final(self).key@),
            ok ==> bytes_lt(r, final(self).key@),
            ok ==> forall|k: Seq<u8>| #[trigger] final(self).skey(k) && bytes_lt(r, k) ==> !bytes_lt(k, final(self).key@),
            !ok ==> (forall|k: Seq<u8>| #[trigger] final(self).skey(k) ==> !bytes_lt(r, k))
                || (final(self).dead_end(final(self).key@) && bytes_lt(r, final(self).key@)),
    {
        loop
            invariant
                self.wf(),
                self.at_end == old(self).at_end,
                self.base() == old(self).base(),
                self.tree() == old(self).tree(),
                is_prefix(self.key@, r),
                forall|k: Seq<u8>| #[trigger] self.skey(k) && bytes_lt(r, k) ==> !is_prefix(self.key@, k),
            decreases self.key@.len(),
        {
            if self.key.len() == 0 {
                proof {
                    assert forall|k: Seq<u8>| #[trigger] self.skey(k) implies !bytes_lt(r, k) by {
                        assert(k.take(0) =~= self.key@);
                    }
                }
                return false;
            }
            let ghost k0 = self.key@;
            let ghost pre0 = *self;
            let last = match self.key.pop() {
                Some(x) => x,
                None => {
                    return false;
                },
            };
            self.z.ascend_byte();
            let ghost m = k0.len() as int;
            let ghost kp = self.key@;
            proof {
                assert(self.key@ =~= k0.take(k0.len() - 1));
                assert forall|k: int| 0 <= k < self.key@.len() implies !#[trigger] complete(self.key@.take(k)) by {
                    assert(self.key@.take(k) =~= k0.take(k));
                }
                assert(!complete(k0.take(k0.len() - 1)));
                assert(r.take(m) == k0);
                assert(r.take(m - 1) =~= kp);
                assert(r[m - 1] == last);
                assert(is_prefix(kp, r));
                assert forall|k: Seq<u8>| #[trigger] self.skey(k) implies pre0.skey(k) by {}
            }
            let mask = self.z.child_mask();
            let ghost pre = *self;
            match mask.next_bit(last) {
                Some(b) => {
                    proof {
                        assert forall|k: Seq<u8>| #[trigger] pre.skey(k) && bytes_lt(r, k) implies
                            is_prefix(kp.push(b), k) || (bytes_lt(kp.push(b), k) && !is_prefix(kp.push(b), k)) by {
                            assert(pre0.skey(k));
                            assert(!is_prefix(k0, k));
                            lemma_lt_split(r, k);
                            if is_prefix(r, k) && r.len() < k.len() {
                                assert(k.take(m) =~= r.take(m));
                            } else {
                                let d = choose|d: int| 0 <= d < r.len() && d < k.len() && r.take(d) == k.take(d) && #[trigger] r[d] < k[d];
                                if d >= m {
                                    assert(k.take(m) =~= k.take(d).take(m));
                                    assert(r.take(m) =~= r.take(d).take(m));
                                } else if d == m - 1 {
                                    assert(k.take(m - 1) == kp);
                                    pre.lemma_next_label(k);
                                    let x = k[m - 1];
                                    assert(mask_has(mask, x));
                                    if x == b {
                                        assert(k.take(m) =~= kp.push(b));
                                    } else {
                                        assert(kp.push(b).take(m - 1) =~= kp);
                                        lemma_lt_at(kp.push(b), k, m - 1);
                                        if is_prefix(kp.push(b), k) {
                                            assert(k.take(m)[m - 1] == b);
                                        }
                                    }
                                } else {
                                    assert(kp.push(b).take(d) =~= r.take(d)) by {
                                        assert forall|i: int| 0 <= i < d implies #[trigger] kp.push(b).take(d)[i] == r.take(d)[i] by {
                                            assert(kp[i] == r.take(m - 1)[i]);
                                        }
                                    }
                                    assert(kp.push(b)[d] == r[d]) by {
                                        assert(kp[d] == r.take(m - 1)[d]);
                                    }
                                    lemma_lt_at(kp.push(b), k, d);
                                    if is_prefix(kp.push(b), k) {
                                        assert(k.take(m)[d] == kp.push(b)[d]);
                                    }
                                }
                            }
                        }
                    }
                    self.push_byte(b);
                    let ghost mid = *self;
                    let ok = self.complete_leftmost();
                    proof {
                        if !ok {
                            let l = self.key@;
                            assert(is_prefix(kp.push(b), l));
                            assert(l.take(m - 1) =~= kp) by {
                                assert forall|i: int| 0 <= i < m - 1 implies #[trigger] l.take(m - 1)[i] == kp[i] by {
                                    assert(l.take(m)[i] == kp.push(b)[i]);
                                }
                            }
                            assert(l[m - 1] == b) by {
                                assert(l.take(m)[m - 1] == kp.push(b)[m - 1]);
                            }
                            assert(r.take(m - 1) == l.take(m - 1));
                            lemma_lt_at(r, l, m - 1);
                        }
                        if ok {
                            let l = self.key@;
                            assert(is_prefix(kp.push(b), l));
                            assert(l.take(m - 1) =~= kp) by {
                                assert forall|i: int| 0 <= i < m - 1 implies #[trigger] l.take(m - 1)[i] == kp[i] by {
                                    assert(l.take(m)[i] == kp.push(b)[i]);
                                }
                            }
                            assert(l[m - 1] == b) by {
                                assert(l.take(m)[m - 1] == kp.push(b)[m - 1]);
                            }
                            assert(r.take(m - 1) == l.take(m - 1));
                            lemma_lt_at(r, l, m - 1);
                            assert forall|k: Seq<u8>| #[trigger] self.skey(k) && bytes_lt(r, k) implies !bytes_lt(k, l) by {
                                assert(pre.skey(k));
                                assert(mid.skey(k));
                                if is_prefix(kp.push(b), k) {
                                } else {
                                    lemma_lt_extend(kp.push(b), l, k);
                                    if bytes_lt(k, l) {
                                        lemma_bytes_lt_trans(k, l, k);
                                        lemma_bytes_lt_irrefl(k);
                                    }
                                }
                            }
                        }
                    }
                    return ok;
                }
                None => {
                    proof {
                        assert forall|k: Seq<u8>| #[trigger] self.skey(k) && bytes_lt(r, k) implies !is_prefix(self.key@, k) by {
                            assert(pre0.skey(k));
                            assert(!is_prefix(k0, k));
                            if is_prefix(kp, k) {
                                lemma_lt_split(r, k);
                                if is_prefix(r, k) && r.len() < k.len() {
                                    assert(k.take(m) =~= r.take(m));
                                } else {
                                    let d = choose|d: int| 0 <= d < r.len() && d < k.len() && r.take(d) == k.take(d) && #[trigger] r[d] < k[d];
                                    if d >= m {
                                        assert(k.take(m) =~= k.take(d).take(m));
                                        assert(r.take(m) =~= r.take(d).take(m));
                                    } else if d == m - 1 {
                                        self.lemma_next_label(k);
                                        assert(mask_has(mask, k[m - 1]));
                                    } else {
                                        assert(k[d] == k.take(m - 1)[d]);
                                        assert(r[d] == r.take(m - 1)[d]);
                                    }
                                }
                            }
                        }
                    }
                }
            }
        }
    }

    /// Position at the first complete subterm.
    pub fn first(&mut self)
        requires
            old(self).wf(),
        ensures
            final(self).base() == old(self).base(),
            final(self).tree() == old(self).tree(),
            final(self).wf(),
            !final(self).ended() ==> complete(final(self).key_seq()),
            !final(self).ended() ==> final(self).tree().walk_from(final(self).base(), final(self).key_seq()) is Some,
            !final(self).ended() ==> final(self).skey(final(self).key_seq())
                && forall|k: Seq<u8>| #[trigger] final(self).skey(k) ==> !bytes_lt(k, final(self).key_seq()),
            final(self).ended() && final(self).no_dead_ends() ==> forall|k: Seq<u8>| !#[trigger] final(self).skey(k),
    {
        self.reset_to_floor();
        let ghost k0 = self.key@;
        let ok = self.complete_leftmost();
        if !ok {
            self.at_end = true;
        }
        proof {
            self.lemma_key_in_trie();
            if !ok {
                assert(self.dead_end(self.key@));
            }
            if ok {
                assert forall|k: Seq<u8>| #[trigger] self.skey(k) implies !bytes_lt(k, self.key@) by {
                    assert(k.take(0) =~= k0);
                }
            }
        }
    }

    /// Advance to the next complete subterm (or the end).
    pub fn next(&mut self)
        requires
            old(self).wf(),
            !old(self).ended() ==> complete(old(self).key_seq()),
        ensures
            final(self).base() == old(self).base(),
            final(self).tree() == old(self).tree(),
            final(self).wf(),
            !final(self).ended() ==> complete(final(self).key_seq()),
            !final(self).ended() ==> final(self).tree().walk_from(final(self).base(), final(self).key_seq()) is Some,
            old(self).ended() ==> final(self).ended(),
            !final(self).ended() ==> final(self).skey(final(self).key_seq())
                && bytes_lt(old(self).key_seq(), final(self).key_seq())
                && forall|k: Seq<u8>| #[trigger] final(self).skey(k) && bytes_lt(old(self).key_seq(), k)
                    ==> !bytes_lt(k, final(self).key_seq()),
            !old(self).ended() && final(self).ended() && final(self).no_dead_ends()
                ==> forall|k: Seq<u8>| #[trigger] final(self).skey(k) ==> !bytes_lt(old(self).key_seq(), k),
    {
        if self.at_end {
            return;
        }
        let ghost r = self.key@;
        proof {
            assert(self.key@.take(r.len() as int) =~= r);
            assert forall|k: Seq<u8>| #[trigger] self.skey(k) && bytes_lt(r, k) implies !is_prefix(self.key@, k) by {
                if is_prefix(self.key@, k) {
                    Self::lemma_complete_prefix(r, k);
                    lemma_bytes_lt_irrefl(k);
                }
            }
        }
        let ok = self.backtrack_then_leftmost(Ghost(r));
        let ghost after = *self;
        if !ok {
            self.at_end = true;
        }
        proof {
            self.lemma_key_in_trie();
            self.lemma_same_base(&after);
            if !ok && !(forall|k: Seq<u8>| #[trigger] after.skey(k) ==> !bytes_lt(r, k)) {
                assert(after.dead_end(after.key@));
            }
        }
    }

    /// The current subterm's bytes, or `None` at the end.
    pub fn key(&self) -> (r: Option<&[u8]>)
        requires
            self.wf(),
        ensures
            r is None <==> self.ended(),
            r matches Some(k) ==> k@ == self.key_seq(),
    {
        if self.at_end {
            None
        } else {
            Some(self.key.as_slice())
        }
    }

    /// Whether the cursor has no current subterm.
    pub fn at_end(&self) -> (r: bool)
        ensures
            r == self.ended(),
    {
        self.at_end
    }

    /// Position at the least subterm `>= target` (a complete subterm).
    pub fn seek(&mut self, target: &[u8])
        requires
            old(self).wf(),
        ensures
            final(self).base() == old(self).base(),
            final(self).tree() == old(self).tree(),
            final(self).wf(),
            !final(self).ended() ==> complete(final(self).key_seq()),
            !final(self).ended() ==> final(self).tree().walk_from(final(self).base(), final(self).key_seq()) is Some,
            !final(self).ended() && within_one(target@) ==> final(self).skey(final(self).key_seq())
                && !bytes_lt(final(self).key_seq(), target@)
                && forall|k: Seq<u8>| #[trigger] final(self).skey(k) && !bytes_lt(k, target@) ==> !bytes_lt(k, final(self).key_seq()),
            final(self).ended() && final(self).no_dead_ends() ==> forall|k: Seq<u8>| #[trigger] final(self).skey(k) ==> bytes_lt(k, target@),
            within_one(target@) && final(self).no_dead_ends() ==> seek_landed(*final(self), target@),
    {
        proof {
            self.lemma_key_in_trie();
        }
        self.reset_to_floor();
        let mut ti: usize = 0;
        proof {
            assert(self.key@ =~= target@.take(0));
        }
        loop
            invariant
                self.wf(),
                !self.at_end,
                ti <= target@.len(),
                self.key@ == target@.take(ti as int),
                self.base() == old(self).base(),
                self.tree() == old(self).tree(),
            decreases self.z.tree().size() - self.z.focus(),
        {
            if self.key_complete() {
                self.at_end = false;
                proof {
                    self.lemma_key_in_trie();
                    if within_one(target@) {
                        if ti < target@.len() {
                            assert(!complete(target@.take(ti as int)));
                        }
                        assert(target@.take(ti as int) =~= target@);
                        lemma_bytes_lt_irrefl(target@);
                    }
                }
                return;
            }
            let mask = self.z.child_mask();
            if ti < target.len() {
                let t = target[ti];
                if mask.has(t) {
                    self.push_byte(t);
                    ti += 1;
                    proof {
                        assert(self.key@ =~= target@.take(ti as int));
                    }
                    continue;
                }
                let ghost pre = *self;
                let ghost kp = self.key@;
                let ghost m = ti as int;
                proof {
                    // no stored subterm runs through the key and then along `t`
                    assert forall|k: Seq<u8>| #[trigger] pre.skey(k) && is_prefix(kp, k) && k.len() > m implies k[m] != t by {
                        pre.lemma_next_label(k);
                    }
                    assert(target@.take(m + 1) =~= kp.push(t));
                }
                match mask.next_bit(t) {
                    Some(b) => {
                        proof {
                            assert forall|k: Seq<u8>| #[trigger] pre.skey(k) && !bytes_lt(k, target@) && !is_prefix(kp.push(b), k)
                                implies bytes_lt(kp.push(b), k) by {
                                if k == target@ {
                                    assert(is_prefix(kp, k));
                                    assert(k[m] == t);
                                } else {
                                    lemma_bytes_lt_total(k, target@);
                                    lemma_lt_split(target@, k);
                                    if is_prefix(target@, k) && target@.len() < k.len() {
                                        assert(k.take(m) =~= target@.take(m));
                                        assert(k[m] == target@[m]);
                                    } else {
                                        let d = choose|d: int| 0 <= d < target@.len() && d < k.len() && target@.take(d) == k.take(d) && #[trigger] target@[d] < k[d];
                                        if d > m {
                                            assert(k.take(m) =~= k.take(d).take(m));
                                            assert(target@.take(m) =~= target@.take(d).take(m));
                                            assert(k[m] == k.take(d)[m]);
                                            assert(target@[m] == target@.take(d)[m]);
                                        } else if d == m {
                                            assert(k.take(m) =~= kp);
                                            pre.lemma_next_label(k);
                                            assert(mask_has(mask, k[m]));
                                            assert(kp.push(b).take(m) =~= kp);
                                            if k[m] != b {
                                                lemma_lt_at(kp.push(b), k, m);
                                            } else {
                                                assert(k.take(m + 1) =~= kp.push(b));
                                            }
                                        } else {
                                            assert(kp.push(b).take(d) =~= target@.take(d)) by {
                                                assert forall|i: int| 0 <= i < d implies #[trigger] kp.push(b).take(d)[i] == target@.take(d)[i] by {
                                                    assert(kp[i] == target@.take(m)[i]);
                                                }
                                            }
                                            assert(kp.push(b)[d] == target@[d]) by {
                                                assert(kp[d] == target@.take(m)[d]);
                                            }
                                            lemma_lt_at(kp.push(b), k, d);
                                        }
                                    }
                                }
                            }
                        }
                        self.push_byte(b);
                        let ghost mid = *self;
                        let ok = self.complete_leftmost();
                        if !ok {
                            self.at_end = true;
                        }
                        proof {
                            self.lemma_key_in_trie();
                            if !ok {
                                assert(self.dead_end(self.key@));
                            }
                            if ok {
                                let l = self.key@;
                                assert(is_prefix(kp.push(b), l));
                                assert(l.take(m) =~= kp) by {
                                    assert forall|i: int| 0 <= i < m implies #[trigger] l.take(m)[i] == kp[i] by {
                                        assert(l.take(m + 1)[i] == kp.push(b)[i]);
                                    }
                                }
                                assert(l[m] == b) by {
                                    assert(l.take(m + 1)[m] == kp.push(b)[m]);
                                }
                                assert(target@.take(m) == l.take(m));
                                lemma_lt_at(target@, l, m);
                                if bytes_lt(l, target@) {
                                    lemma_bytes_lt_trans(l, target@, l);
                                    lemma_bytes_lt_irrefl(l);
                                }
                                assert forall|k: Seq<u8>| #[trigger] self.skey(k) && !bytes_lt(k, target@) implies !bytes_lt(k, l) by {
                                    assert(pre.skey(k));
                                    assert(mid.skey(k));
                                    if !is_prefix(kp.push(b), k) {
                                        lemma_lt_extend(kp.push(b), l, k);
                                        if bytes_lt(k, l) {
                                            lemma_bytes_lt_trans(k, l, k);
                                            lemma_bytes_lt_irrefl(k);
                                        }
                                    }
                                }
                            }
                        }
                        return;
                    }
                    None => {
                        proof {
                            assert(self.key@.take(kp.len() as int) =~= kp);
                            assert(target@.take(kp.len() as int) == kp);
                            assert forall|k: Seq<u8>| #[trigger] self.skey(k) && bytes_lt(target@, k) implies !is_prefix(self.key@, k) by {
                                assert(pre.skey(k));
                                if is_prefix(kp, k) {
                                    if k.len() == m {
                                        assert(k =~= kp);
                                    }
                                    pre.lemma_next_label(k);
                                    assert(mask_has(mask, k[m]));
                                    assert(k[m] < t);
                                    assert(k.take(m) =~= target@.take(m));
                                    lemma_lt_at(k, target@, m);
                                    lemma_bytes_lt_trans(k, target@, k);
                                    lemma_bytes_lt_irrefl(k);
                                }
                            }
                        }
                        let ok = self.backtrack_then_leftmost(Ghost(target@));
                        let ghost after = *self;
                        if !ok {
                            self.at_end = true;
                        }
                        proof {
                            self.lemma_key_in_trie();
                            self.lemma_same_base(&after);
                            if !ok {
                                if forall|k: Seq<u8>| #[trigger] after.skey(k) ==> !bytes_lt(target@, k) {
                                    assert forall|k: Seq<u8>| #[trigger] after.skey(k) implies bytes_lt(k, target@) by {
                                        assert(pre.skey(k));
                                        if k == target@ {
                                            assert(is_prefix(kp, k));
                                            pre.lemma_next_label(k);
                                            assert(k[m] == t);
                                            assert(mask_has(mask, k[m]));
                                        } else {
                                            lemma_bytes_lt_total(k, target@);
                                        }
                                    }
                                } else {
                                    assert(after.dead_end(after.key@));
                                }
                            }
                            if ok {
                                let l = self.key@;
                                if bytes_lt(l, target@) {
                                    lemma_bytes_lt_trans(l, target@, l);
                                    lemma_bytes_lt_irrefl(l);
                                }
                                assert forall|k: Seq<u8>| #[trigger] self.skey(k) && !bytes_lt(k, target@) implies !bytes_lt(k, l) by {
                                    assert(pre.skey(k));
                                    if k == target@ {
                                        assert(is_prefix(kp, k));
                                        assert(k[m] == t);
                                    } else {
                                        lemma_bytes_lt_total(k, target@);
                                    }
                                }
                            }
                        }
                        return;
                    }
                }
            } else {
                let ghost kp = self.key@;
                let ok = self.complete_leftmost();
                if !ok {
                    self.at_end = true;
                }
                proof {
                    self.lemma_key_in_trie();
                    if !ok {
                        assert(self.dead_end(self.key@));
                    }
                    if ok {
                        let l = self.key@;
                        assert(kp =~= target@) by {
                            assert(target@.take(ti as int) =~= target@);
                        }
                        if l.len() == kp.len() {
                            assert(l =~= l.take(kp.len() as int));
                        }
                        lemma_lt_proper_prefix(target@, l);
                        if bytes_lt(l, target@) {
                            lemma_bytes_lt_trans(l, target@, l);
                            lemma_bytes_lt_irrefl(l);
                        }
                        assert forall|k: Seq<u8>| #[trigger] self.skey(k) && !bytes_lt(k, target@) implies !bytes_lt(k, l) by {
                            if !is_prefix(target@, k) {
                                if k == target@ {
                                    assert(k.take(k.len() as int) =~= k);
                                } else {
                                    lemma_bytes_lt_total(k, target@);
                                    lemma_lt_extend(target@, l, k);
                                    if bytes_lt(k, l) {
                                        lemma_bytes_lt_trans(k, l, k);
                                        lemma_bytes_lt_irrefl(k);
                                    }
                                }
                            }
                        }
                    }
                }
                return;
            }
        }
    }
}


impl<'a> SubtermCursor<'a> {
    /// `k` is the least complete subterm at the base: where `first` leaves the cursor.
    pub open spec fn is_least(&self, k: Seq<u8>) -> bool {
        &&& self.skey(k)
        &&& forall|j: Seq<u8>| #[trigger] self.skey(j) ==> !bytes_lt(j, k)
    }

    /// `k` is the least complete subterm after `prev`: where `next` moves the cursor from `prev`.
    pub open spec fn is_next(&self, prev: Seq<u8>, k: Seq<u8>) -> bool {
        &&& self.skey(k)
        &&& bytes_lt(prev, k)
        &&& forall|j: Seq<u8>| #[trigger] self.skey(j) && bytes_lt(prev, j) ==> !bytes_lt(j, k)
    }

    /// No complete subterm comes after `prev`: where `next` ends.
    pub open spec fn none_after(&self, prev: Seq<u8>) -> bool {
        forall|j: Seq<u8>| #[trigger] self.skey(j) ==> !bytes_lt(prev, j)
    }
}

proof fn lemma_enum_prefix(c: SubtermCursor, ks: Seq<Seq<u8>>, m: int, k: Seq<u8>)
    requires
        0 <= m < ks.len(),
        c.is_least(ks[0]),
        forall|i: int| 0 <= i < ks.len() - 1 ==> c.is_next(#[trigger] ks[i], ks[i + 1]),
        c.skey(k),
        !bytes_lt(ks[m], k),
    ensures
        ks.contains(k),
    decreases m,
{
    if k != ks[m] {
        lemma_bytes_lt_total(k, ks[m]);
        if m == 0 {
            assert(!bytes_lt(k, ks[0]));
        } else {
            assert(c.is_next(ks[m - 1], ks[m]));
            if bytes_lt(ks[m - 1], k) {
                assert(!bytes_lt(k, ks[m]));
            } else {
                lemma_enum_prefix(c, ks, m - 1, k);
            }
        }
    }
}

proof fn lemma_enum_sorted(c: SubtermCursor, ks: Seq<Seq<u8>>, i: int, j: int)
    requires
        0 <= i < j < ks.len(),
        forall|x: int| 0 <= x < ks.len() - 1 ==> c.is_next(#[trigger] ks[x], ks[x + 1]),
    ensures
        bytes_lt(ks[i], ks[j]),
    decreases j - i,
{
    assert(c.is_next(ks[j - 1], ks[j]));
    if i < j - 1 {
        lemma_enum_sorted(c, ks, i, j - 1);
        lemma_bytes_lt_trans(ks[i], ks[j - 1], ks[j]);
    }
}

/// Running the cursor with `first` and then `next` until it ends lists every complete subterm at
/// the base exactly once, in ascending byte order: if `ks` is the sequence of positions that the
/// two operations' contracts give (the least subterm, then each time the least one after the
/// last, and nothing after the final one), then `ks` holds exactly the complete subterms and is
/// strictly increasing.
pub proof fn law_cursor_enumeration(c: SubtermCursor, ks: Seq<Seq<u8>>)
    requires
        ks.len() == 0 ==> forall|k: Seq<u8>| !#[trigger] c.skey(k),
        ks.len() > 0 ==> c.is_least(ks[0]),
        forall|i: int| 0 <= i < ks.len() - 1 ==> c.is_next(#[trigger] ks[i], ks[i + 1]),
        ks.len() > 0 ==> c.none_after(ks.last()),
    ensures
        forall|k: Seq<u8>| #[trigger] c.skey(k) <==> ks.contains(k),
        forall|i: int, j: int| 0 <= i < j < ks.len() ==> bytes_lt(#[trigger] ks[i], #[trigger] ks[j]),
{
    assert forall|k: Seq<u8>| #[trigger] c.skey(k) <==> ks.contains(k) by {
        if c.skey(k) && ks.len() > 0 {
            lemma_enum_prefix(c, ks, ks.len() - 1, k);
        }
        if ks.contains(k) {
            let i = choose|i: int| 0 <= i < ks.len() && ks[i] == k;
            if i > 0 {
                assert(c.is_next(ks[i - 1], ks[i]));
            }
        }
    }
    assert forall|i: int, j: int| 0 <= i < j < ks.len() implies bytes_lt(#[trigger] ks[i], #[trigger] ks[j]) by {
        lemma_enum_sorted(c, ks, i, j);
    }
}

/// Where `seek(target)` leaves a cursor, by its contract: at the least complete subterm not
/// below `target`, or at the end when every complete subterm is below it.
pub open spec fn seek_landed(c: SubtermCursor, target: Seq<u8>) -> bool {
    &&& !c.ended() ==> c.skey(c.key_seq()) && !bytes_lt(c.key_seq(), target)
        && forall|k: Seq<u8>| #[trigger] c.skey(k) && !bytes_lt(k, target) ==> !bytes_lt(k, c.key_seq())
    &&& c.ended() ==> forall|k: Seq<u8>| #[trigger] c.skey(k) ==> bytes_lt(k, target)
}

/// The outcome of `seek` does not depend on where the cursor stood before: two cursors over the
/// same subterms that `seek` has left at the same target agree on whether they ended and on
/// the key.
pub proof fn law_seek_position_independent(c1: SubtermCursor, c2: SubtermCursor, target: Seq<u8>)
    requires
        c1.tree() == c2.tree(),
        c1.base() == c2.base(),
        seek_landed(c1, target),
        seek_landed(c2, target),
    ensures
        c1.ended() == c2.ended(),
        !c1.ended() ==> c1.key_seq() == c2.key_seq(),
{
    assert forall|k: Seq<u8>| c1.skey(k) == c2.skey(k) by {}
    if !c1.ended() && !c2.ended() {
        let k1 = c1.key_seq();
        let k2 = c2.key_seq();
        assert(c2.skey(k1) && c1.skey(k2));
        if k1 != k2 {
            lemma_bytes_lt_total(k1, k2);
        }
    } else if !c1.ended() {
        assert(c2.skey(c1.key_seq()));
    } else if !c2.ended() {
        assert(c1.skey(c2.key_seq()));
    }
}

} // verus!
