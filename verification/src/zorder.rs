//! Z-order (Morton) space-filling curve: interleave the bits of each coordinate, most
//! significant first, into one key, so a multidimensional point becomes a single trie path and
//! a box query becomes a contiguous range scan. One prefix narrows every dimension at once.
//!
//! A box range over-covers on the curve (the curve leaves and re-enters the box); the index
//! scans the Z-interval and filters.

use vstd::prelude::*;
use vstd::arithmetic::div_mod::lemma_fundamental_div_mod_converse;

verus! {

/// Bit `j` of a coordinate.
pub open spec fn cbit(x: u32, j: int) -> u32 {
    (x >> (j as u32)) & 1u32
}

/// Bit `j` of a code.
pub open spec fn zbit(z: u128, j: int) -> u128 {
    (z >> (j as u128)) & 1u128
}

/// The interleaving the encoder produces, bit by bit: bit `pos` of the code (for `pos` below
/// `dims * bits`) is bit `pos / dims` of coordinate `dims - 1 - pos % dims`, so the last
/// coordinate owns the lowest bit of each level; every higher bit of the code is zero.
pub open spec fn is_morton(z: u128, c: Seq<u32>, bits: u32) -> bool {
    let dims = c.len() as int;
    let total = dims * bits;
    &&& forall|pos: int| 0 <= pos < total ==> #[trigger] zbit(z, pos) == cbit(c[dims - 1 - pos % dims], pos / dims) as u128
    &&& forall|pos: int| total <= pos < 128 ==> #[trigger] zbit(z, pos) == 0
}

/// The coordinates the decoder produces: bit `j` of coordinate `d` (for `j < bits`) is bit
/// `j * dims + dims - 1 - d` of the code; higher bits are zero.
pub open spec fn is_decoded(out: Seq<u32>, z: u128, dims: int, bits: u32) -> bool {
    &&& out.len() == dims
    &&& forall|d: int, j: int| 0 <= d < dims && 0 <= j < 32 ==> #[trigger] cbit(out[d], j) as u128
        == if j < bits { zbit(z, j * dims + dims - 1 - d) } else { 0u128 }
}

/// The encoder's bit at step `p`: levels most significant first, coordinates in order.
pub open spec fn emitted(c: Seq<u32>, bits: u32, p: int) -> u128 {
    cbit(c[p % (c.len() as int)], bits - 1 - p / (c.len() as int)) as u128
}

/// No bit is set in the empty 32-bit word.
proof fn lemma_zero_bit32(j: u32)
    by (bit_vector)
    ensures
        (0u32 >> j) & 1u32 == 0u32,
{
}

proof fn lemma_shift_in(c: u128, x: u128, q: u128)
    requires
        x <= 1,
        q < 127,
    ensures
        ((c << 1u128) | x) & 1u128 == x,
        (((c << 1u128) | x) >> 0u128) & 1u128 == x,
        (((c << 1u128) | x) >> (q + 1u128) as u128) & 1u128 == (c >> q) & 1u128,
        c >> q == 0u128 ==> ((c << 1u128) | x) >> (q + 1u128) as u128 == 0u128,
{
    assert(((c << 1u128) | x) & 1u128 == x) by (bit_vector)
        requires
            x <= 1,
    ;
    assert((((c << 1u128) | x) >> 0u128) & 1u128 == x) by (bit_vector)
        requires
            x <= 1,
    ;
    assert((((c << 1u128) | x) >> (q + 1u128) as u128) & 1u128 == (c >> q) & 1u128) by (bit_vector)
        requires
            x <= 1,
            q < 127,
    ;
    assert(c >> q == 0u128 ==> ((c << 1u128) | x) >> (q + 1u128) as u128 == 0u128) by (bit_vector)
        requires
            x <= 1,
            q < 127,
    ;
}

proof fn lemma_zero_above(c: u128, k: u128, j: u128)
    requires
        c >> k == 0u128,
        k <= j < 128,
    ensures
        (c >> j) & 1u128 == 0u128,
{
    assert((c >> j) & 1u128 == 0u128) by (bit_vector)
        requires
            c >> k == 0u128,
            k <= j < 128,
    ;
}

/// Bit positions of the interleave: step `p` of the encoder lands at code bit
/// `total - 1 - p`, whose level and coordinate are read back from the position.
proof fn lemma_positions(pos: int, dims: int, bits: int)
    requires
        dims > 0,
        bits >= 0,
        0 <= pos < dims * bits,
    ensures
        pos == (pos / dims) * dims + pos % dims,
        0 <= pos / dims < bits,
        0 <= pos % dims < dims,
        (dims * bits - 1 - pos) % dims == dims - 1 - pos % dims,
        (dims * bits - 1 - pos) / dims == bits - 1 - pos / dims,
{
    let a = pos / dims;
    let r = pos % dims;
    vstd::arithmetic::div_mod::lemma_fundamental_div_mod(pos, dims);
    vstd::arithmetic::div_mod::lemma_mod_bound(pos, dims);
    assert(pos == a * dims + r) by (nonlinear_arith)
        requires
            pos == dims * a + r,
    ;
    assert(0 <= a) by (nonlinear_arith)
        requires
            pos == a * dims + r,
            0 <= r < dims,
            pos >= 0,
    ;
    assert(a < bits) by (nonlinear_arith)
        requires
            pos == a * dims + r,
            0 <= r < dims,
            pos < dims * bits,
            dims > 0,
    ;
    let x = dims * bits - 1 - pos;
    assert(x == (bits - 1 - a) * dims + (dims - 1 - r)) by (nonlinear_arith)
        requires
            pos == a * dims + r,
            x == dims * bits - 1 - pos,
    ;
    lemma_fundamental_div_mod_converse(x, dims, bits - 1 - a, dims - 1 - r);
}

/// Interleave `coords` (each `bits` wide), most significant bit first, into a Morton code.
/// `dims * bits` must be at most 128, and a coordinate is at most 32 bits wide.
pub fn morton_encode(coords: &[u32], bits: u32) -> (code: u128)
    requires
        coords@.len() * bits <= 128,
        coords@.len() == 0 || bits <= 32,
    ensures
        is_morton(code, coords@, bits),
{
    let dims = coords.len();
    let ghost total = dims * bits;
    let mut code: u128 = 0;
    let mut k: usize = 0;
    let mut b: u32 = bits;
    proof {
        assert forall|pos: int| 0 <= pos < 128 implies #[trigger] zbit(code, pos) == 0 by {
            let j = pos as u128;
            assert((0u128 >> j) & 1u128 == 0u128) by (bit_vector);
        }
        assert(0u128 >> 0u128 == 0u128) by (bit_vector);
    }
    while b > 0
        invariant
            dims == coords@.len(),
            total == dims * bits,
            total <= 128,
            dims == 0 || bits <= 32,
            b <= bits,
            k == (bits - b) * dims,
            forall|p: int| 0 <= p < k ==> #[trigger] zbit(code, k - 1 - p) == emitted(coords@, bits, p),
            k < 128 ==> code >> (k as u128) == 0u128,
        decreases b,
    {
        b -= 1;
        let mut d: usize = 0;
        while d < dims
            invariant
                dims == coords@.len(),
                total == dims * bits,
                total <= 128,
                dims == 0 || bits <= 32,
                b < bits,
                d <= dims,
                k == (bits - 1 - b) * dims + d,
                forall|p: int| 0 <= p < k ==> #[trigger] zbit(code, k - 1 - p) == emitted(coords@, bits, p),
                k < 128 ==> code >> (k as u128) == 0u128,
            decreases dims - d,
        {
            proof {
                assert(k < total) by (nonlinear_arith)
                    requires
                        k == (bits - 1 - b) * dims + d,
                        d < dims,
                        b < bits,
                        total == dims * bits,
                ;
                lemma_fundamental_div_mod_converse(k as int, dims as int, (bits - 1 - b) as int, d as int);
            }
            let cv: u32 = coords[d];
            let x: u128 = ((cv >> b) & 1) as u128;
            let ghost old_code = code;
            code = (code << 1u128) | x;
            proof {
                assert(x <= 1) by (bit_vector)
                    requires
                        x == ((cv >> b) & 1u32) as u128,
                ;
                assert(x == emitted(coords@, bits, k as int));
                lemma_shift_in(old_code, x, 0);
                assert(zbit(code, 0) == x);
                assert forall|p: int| 0 <= p < k + 1 implies #[trigger] zbit(code, k + 1 - 1 - p) == emitted(coords@, bits, p) by {
                    if p < k {
                        let q = (k - 1 - p) as u128;
                        lemma_shift_in(old_code, x, q);
                        assert(zbit(old_code, k - 1 - p) == emitted(coords@, bits, p));
                        assert(zbit(code, k - p) == zbit(old_code, k - 1 - p));
                    } else {
                        assert(k + 1 - 1 - p == 0);
                    }
                }
                if k + 1 < 128 {
                    lemma_shift_in(old_code, x, k as u128);
                }
            }
            k += 1;
            d += 1;
        }
        proof {
            assert((bits - 1 - b) * dims + dims == (bits - b) * dims) by (nonlinear_arith);
        }
    }
    proof {
        assert(k == total) by (nonlinear_arith)
            requires
                k == (bits - b) * dims,
                b == 0,
                total == dims * bits,
        ;
        if dims > 0 {
            let dn = dims as int;
            assert forall|pos: int| 0 <= pos < total implies #[trigger] zbit(code, pos) == cbit(coords@[dn - 1 - pos % dn], pos / dn) as u128 by {
                lemma_positions(pos, dims as int, bits as int);
                let p = total - 1 - pos;
                assert(zbit(code, k - 1 - p) == emitted(coords@, bits, p));
            }
        }
        assert forall|pos: int| total <= pos < 128 implies #[trigger] zbit(code, pos) == 0 by {
            lemma_zero_above(code, k as u128, pos as u128);
        }
    }
    code
}

proof fn lemma_set_bit(x: u32, bit: u32, s: u32, j: u32)
    requires
        bit <= 1,
        s < 32,
        j < 32,
        (x >> s) & 1u32 == 0u32,
    ensures
        ((x | (bit << s)) >> j) & 1u32 == if j == s { bit } else { (x >> j) & 1u32 },
{
    assert(((x | (bit << s)) >> j) & 1u32 == if j == s { bit } else { (x >> j) & 1u32 }) by (bit_vector)
        requires
            bit <= 1,
            s < 32,
            j < 32,
            (x >> s) & 1u32 == 0u32,
    ;
}

/// Invert [`morton_encode`]: the `dims` coordinates interleaved in `code`.
pub fn morton_decode(code: u128, dims: usize, bits: u32) -> (coords: Vec<u32>)
    requires
        dims * bits <= 128,
        dims == 0 || bits <= 32,
    ensures
        is_decoded(coords@, code, dims as int, bits),
{
    let mut coords: Vec<u32> = Vec::new();
    let mut i: usize = 0;
    while i < dims
        invariant
            i <= dims,
            coords@.len() == i,
            forall|x: int| 0 <= x < i ==> #[trigger] coords@[x] == 0u32,
        decreases dims - i,
    {
        coords.push(0);
        i += 1;
    }
    let dn32: u32 = #[verifier::truncate] (dims as u32);
    proof {
        if bits > 0 {
            assert(dims <= 128) by (nonlinear_arith)
                requires
                    dims * bits <= 128,
                    bits > 0,
            ;
            assert(dn32 == dims);
        }
        assert(dn32 * bits == dims * bits) by {
            if bits == 0 {
                assert(dn32 * bits == 0);
            }
        }
    }
    let total: u32 = dn32 * bits;
    let ghost dn = dims as int;
    let mut p: u32 = 0;
    proof {
        assert forall|d: int, j: int| 0 <= d < dn && 0 <= j < 32 implies #[trigger] cbit(coords@[d], j) == 0u32 by {
            let jj = j as u32;
            lemma_zero_bit32(jj);
        }
    }
    while p < total
        invariant
            coords@.len() == dims,
            dn == dims,
            total == dims * bits,
            total <= 128,
            dims == 0 || bits <= 32,
            total > 0 ==> dn32 == dims,
            p <= total,
            forall|d: int, j: int| 0 <= d < dn && 0 <= j < 32 ==> #[trigger] cbit(coords@[d], j) as u128
                == if j < bits && (bits - 1 - j) * dn + d < p { zbit(code, j * dn + dn - 1 - d) } else { 0u128 },
        decreases total - p,
    {
        proof {
            assert(dims > 0) by {
                if dims == 0 {
                    assert(total == 0);
                }
            }
            lemma_positions(p as int, dn, bits as int);
        }
        let pos: u32 = total - 1 - p;
        let bit: u32 = #[verifier::truncate] (((code >> (pos as u128)) & 1u128) as u32);
        let round: u32 = p / dn32;
        let dim: usize = (p % dn32) as usize;
        let shift: u32 = bits - 1 - round;
        let ghost old_coords = coords@;
        proof {
            assert(bit <= 1 && bit as u128 == (code >> (pos as u128)) & 1u128) by (bit_vector)
                requires
                    bit == ((code >> pos as u128) & 1u128) as u32,
            ;
            assert(pos == shift * dn + dn - 1 - dim) by (nonlinear_arith)
                requires
                    p == round * dn + dim,
                    pos == total - 1 - p,
                    total == dn * bits,
                    shift == bits - 1 - round,
            ;
            assert(round * dn + dim == p);
            assert(cbit(old_coords[dim as int], shift as int) == 0u32);
        }
        let nv: u32 = coords[dim] | (bit << shift);
        coords.set(dim, nv);
        proof {
            assert forall|d: int, j: int| 0 <= d < dn && 0 <= j < 32 implies #[trigger] cbit(coords@[d], j) as u128
                == if j < bits && (bits - 1 - j) * dn + d < p + 1 { zbit(code, j * dn + dn - 1 - d) } else { 0u128 } by {
                if d == dim {
                    lemma_set_bit(old_coords[d], bit, shift, j as u32);
                    assert(coords@[d] == nv);
                    assert(cbit(coords@[d], j) == if j == shift { bit } else { cbit(old_coords[d], j) });
                    if j == shift {
                        assert(j * dn + dn - 1 - d == pos);
                        assert((bits - 1 - j) * dn + d == p);
                        assert(cbit(coords@[d], j) as u128 == zbit(code, j * dn + dn - 1 - d));
                    } else if j < bits {
                        let q = bits - 1 - j;
                        if q * dn + d == p {
                            lemma_fundamental_div_mod_converse(p as int, dn, q, d);
                            lemma_fundamental_div_mod_converse(p as int, dn, round as int, dim as int);
                        }
                    }
                } else {
                    assert(coords@[d] == old_coords[d]);
                    if j < bits {
                        let q = bits - 1 - j;
                        if q * dn + d == p {
                            lemma_fundamental_div_mod_converse(p as int, dn, q, d);
                            lemma_fundamental_div_mod_converse(p as int, dn, round as int, dim as int);
                        }
                    }
                }
            }
        }
        p += 1;
    }
    proof {
        assert forall|d: int, j: int| 0 <= d < dn && 0 <= j < 32 implies #[trigger] cbit(coords@[d], j) as u128
            == if j < bits { zbit(code, j * dn + dn - 1 - d) } else { 0u128 } by {
            if j < bits {
                assert((bits - 1 - j) * dn + d < total) by (nonlinear_arith)
                    requires
                        0 <= j < bits,
                        0 <= d < dn,
                        total == dn * bits,
                ;
            }
        }
    }
    coords
}


/// Two coordinates with the same 32 bits are equal.
proof fn lemma_bits_eq(x: u32, y: u32)
    requires
        forall|j: int| 0 <= j < 32 ==> #[trigger] cbit(x, j) == cbit(y, j),
    ensures
        x == y,
{
    assert(cbit(x, 0) == cbit(y, 0));
    assert(cbit(x, 1) == cbit(y, 1));
    assert(cbit(x, 2) == cbit(y, 2));
    assert(cbit(x, 3) == cbit(y, 3));
    assert(cbit(x, 4) == cbit(y, 4));
    assert(cbit(x, 5) == cbit(y, 5));
    assert(cbit(x, 6) == cbit(y, 6));
    assert(cbit(x, 7) == cbit(y, 7));
    assert(cbit(x, 8) == cbit(y, 8));
    assert(cbit(x, 9) == cbit(y, 9));
    assert(cbit(x, 10) == cbit(y, 10));
    assert(cbit(x, 11) == cbit(y, 11));
    assert(cbit(x, 12) == cbit(y, 12));
    assert(cbit(x, 13) == cbit(y, 13));
    assert(cbit(x, 14) == cbit(y, 14));
    assert(cbit(x, 15) == cbit(y, 15));
    assert(cbit(x, 16) == cbit(y, 16));
    assert(cbit(x, 17) == cbit(y, 17));
    assert(cbit(x, 18) == cbit(y, 18));
    assert(cbit(x, 19) == cbit(y, 19));
    assert(cbit(x, 20) == cbit(y, 20));
    assert(cbit(x, 21) == cbit(y, 21));
    assert(cbit(x, 22) == cbit(y, 22));
    assert(cbit(x, 23) == cbit(y, 23));
    assert(cbit(x, 24) == cbit(y, 24));
    assert(cbit(x, 25) == cbit(y, 25));
    assert(cbit(x, 26) == cbit(y, 26));
    assert(cbit(x, 27) == cbit(y, 27));
    assert(cbit(x, 28) == cbit(y, 28));
    assert(cbit(x, 29) == cbit(y, 29));
    assert(cbit(x, 30) == cbit(y, 30));
    assert(cbit(x, 31) == cbit(y, 31));
    assert(x == y) by (bit_vector)
        requires
            (x >> 0u32) & 1u32 == (y >> 0u32) & 1u32,
            (x >> 1u32) & 1u32 == (y >> 1u32) & 1u32,
            (x >> 2u32) & 1u32 == (y >> 2u32) & 1u32,
            (x >> 3u32) & 1u32 == (y >> 3u32) & 1u32,
            (x >> 4u32) & 1u32 == (y >> 4u32) & 1u32,
            (x >> 5u32) & 1u32 == (y >> 5u32) & 1u32,
            (x >> 6u32) & 1u32 == (y >> 6u32) & 1u32,
            (x >> 7u32) & 1u32 == (y >> 7u32) & 1u32,
            (x >> 8u32) & 1u32 == (y >> 8u32) & 1u32,
            (x >> 9u32) & 1u32 == (y >> 9u32) & 1u32,
            (x >> 10u32) & 1u32 == (y >> 10u32) & 1u32,
            (x >> 11u32) & 1u32 == (y >> 11u32) & 1u32,
            (x >> 12u32) & 1u32 == (y >> 12u32) & 1u32,
            (x >> 13u32) & 1u32 == (y >> 13u32) & 1u32,
            (x >> 14u32) & 1u32 == (y >> 14u32) & 1u32,
            (x >> 15u32) & 1u32 == (y >> 15u32) & 1u32,
            (x >> 16u32) & 1u32 == (y >> 16u32) & 1u32,
            (x >> 17u32) & 1u32 == (y >> 17u32) & 1u32,
            (x >> 18u32) & 1u32 == (y >> 18u32) & 1u32,
            (x >> 19u32) & 1u32 == (y >> 19u32) & 1u32,
            (x >> 20u32) & 1u32 == (y >> 20u32) & 1u32,
            (x >> 21u32) & 1u32 == (y >> 21u32) & 1u32,
            (x >> 22u32) & 1u32 == (y >> 22u32) & 1u32,
            (x >> 23u32) & 1u32 == (y >> 23u32) & 1u32,
            (x >> 24u32) & 1u32 == (y >> 24u32) & 1u32,
            (x >> 25u32) & 1u32 == (y >> 25u32) & 1u32,
            (x >> 26u32) & 1u32 == (y >> 26u32) & 1u32,
            (x >> 27u32) & 1u32 == (y >> 27u32) & 1u32,
            (x >> 28u32) & 1u32 == (y >> 28u32) & 1u32,
            (x >> 29u32) & 1u32 == (y >> 29u32) & 1u32,
            (x >> 30u32) & 1u32 == (y >> 30u32) & 1u32,
            (x >> 31u32) & 1u32 == (y >> 31u32) & 1u32,
    ;
}

/// Every coordinate fits in `bits` bits.
pub open spec fn fits(c: Seq<u32>, bits: u32) -> bool {
    forall|d: int, j: int| 0 <= d < c.len() && bits <= j < 32 ==> #[trigger] cbit(c[d], j) == 0u32
}

/// Decoding the Morton code of a point gives the point back, when every coordinate fits in
/// `bits` bits.
pub proof fn lemma_morton_roundtrip(c: Seq<u32>, bits: u32, z: u128, out: Seq<u32>)
    requires
        c.len() * bits <= 128,
        fits(c, bits),
        is_morton(z, c, bits),
        is_decoded(out, z, c.len() as int, bits),
    ensures
        out == c,
{
    let dims = c.len() as int;
    assert forall|d: int| 0 <= d < dims implies #[trigger] out[d] == c[d] by {
        assert forall|j: int| 0 <= j < 32 implies #[trigger] cbit(out[d], j) == cbit(c[d], j) by {
            assert(cbit(out[d], j) as u128 == if j < bits { zbit(z, j * dims + dims - 1 - d) } else { 0u128 });
            if j < bits {
                let pos = j * dims + dims - 1 - d;
                assert(0 <= pos < dims * bits) by (nonlinear_arith)
                    requires
                        pos == j * dims + dims - 1 - d,
                        0 <= j < bits,
                        0 <= d < dims,
                ;
                lemma_fundamental_div_mod_converse(pos, dims, j, dims - 1 - d);
                assert(zbit(z, pos) == cbit(c[dims - 1 - pos % dims], pos / dims) as u128);
                assert(cbit(c[d], j) <= 1u32) by {
                    let x = c[d];
                    let jj = j as u32;
                    assert((x >> jj) & 1u32 <= 1u32) by (bit_vector);
                }
                assert(cbit(out[d], j) <= 1u32) by {
                    let x = out[d];
                    let jj = j as u32;
                    assert((x >> jj) & 1u32 <= 1u32) by (bit_vector);
                }
            } else {
                assert(cbit(out[d], j) <= 1u32) by {
                    let x = out[d];
                    let jj = j as u32;
                    assert((x >> jj) & 1u32 <= 1u32) by (bit_vector);
                }
            }
        }
        lemma_bits_eq(out[d], c[d]);
    }
    assert(out =~= c);
}


/// An entry's code lies in `[a, b]`.
pub open spec fn code_within(a: u128, b: u128) -> spec_fn((u128, Vec<u32>)) -> bool {
    |e: (u128, Vec<u32>)| a <= e.0 <= b
}

/// An entry's point.
pub open spec fn entry_point() -> spec_fn((u128, Vec<u32>)) -> Seq<u32> {
    |e: (u128, Vec<u32>)| e.1@
}

/// A point lies in the box `[lo, hi]`.
pub open spec fn boxed(lo: Seq<u32>, hi: Seq<u32>) -> spec_fn(Seq<u32>) -> bool {
    |p: Seq<u32>| in_box(p, lo, hi)
}

/// A Z-order index: points keyed by their Morton code, kept in curve order (points with the
/// same code in insertion order).
pub struct ZIndex {
    dims: usize,
    bits: u32,
    points: Vec<(u128, Vec<u32>)>,
}

/// Counters showing the over-coverage a Z-interval scan pays.
#[derive(Default, Debug, Clone, Copy)]
pub struct RangeStats {
    pub scanned: u64,
    pub returned: u64,
}

/// `p` lies in the box `[lo, hi]` on every dimension the three have in common.
pub open spec fn in_box(p: Seq<u32>, lo: Seq<u32>, hi: Seq<u32>) -> bool {
    forall|d: int| 0 <= d < p.len() && d < lo.len() && d < hi.len() ==> lo[d] <= #[trigger] p[d] <= hi[d]
}

/// `a` sorts strictly before `b` lexicographically (a proper prefix sorts first).
pub open spec fn lex_lt(a: Seq<u32>, b: Seq<u32>) -> bool
    decreases a.len(),
{
    if b.len() == 0 {
        false
    } else if a.len() == 0 {
        true
    } else if a[0] != b[0] {
        a[0] < b[0]
    } else {
        lex_lt(a.drop_first(), b.drop_first())
    }
}

/// The points are in ascending lexicographic order.
pub open spec fn lex_sorted(s: Seq<Seq<u32>>) -> bool {
    forall|i: int, j: int| 0 <= i < j < s.len() ==> !lex_lt(#[trigger] s[j], #[trigger] s[i])
}

/// The coordinates of a list of vectors.
pub open spec fn vec_views(v: Seq<Vec<u32>>) -> Seq<Seq<u32>> {
    v.map_values(|x: Vec<u32>| x@)
}

impl ZIndex {
    /// The number of dimensions.
    pub closed spec fn dims_of(&self) -> nat {
        self.dims as nat
    }

    /// The width of a coordinate in bits.
    pub closed spec fn bits_of(&self) -> u32 {
        self.bits
    }

    /// The stored points, in curve order.
    pub closed spec fn entries(&self) -> Seq<Seq<u32>> {
        self.points@.map_values(|e: (u128, Vec<u32>)| e.1@)
    }

    /// The Morton codes of the stored points, in the same order.
    pub closed spec fn codes(&self) -> Seq<u128> {
        self.points@.map_values(|e: (u128, Vec<u32>)| e.0)
    }

    /// Every point has `dims` coordinates and is keyed by its code, in ascending code order.
    pub closed spec fn wf(&self) -> bool {
        &&& forall|i: int| 0 <= i < self.points@.len() ==> (#[trigger] self.points@[i]).1@.len() == self.dims
        &&& forall|i: int| 0 <= i < self.points@.len() ==> is_morton((#[trigger] self.points@[i]).0, self.points@[i].1@, self.bits)
        &&& forall|i: int, j: int| 0 <= i < j < self.points@.len() ==> (#[trigger] self.points@[i]).0 <= (#[trigger] self.points@[j]).0
    }

    /// An empty index over `dims` coordinates of `bits` bits each.
    pub fn new(dims: usize, bits: u32) -> (z: ZIndex)
        ensures
            z.wf(),
            z.dims_of() == dims,
            z.bits_of() == bits,
            z.entries() == Seq::<Seq<u32>>::empty(),
    {
        let z = ZIndex { dims, bits, points: Vec::new() };
        proof {
            assert(z.entries() =~= Seq::<Seq<u32>>::empty());
        }
        z
    }

    /// Add a point, keeping curve order.
    pub fn insert(&mut self, coords: &[u32])
        requires
            old(self).wf(),
            coords@.len() == old(self).dims_of(),
            old(self).dims_of() * old(self).bits_of() <= 128,
            old(self).dims_of() == 0 || old(self).bits_of() <= 32,
        ensures
            final(self).wf(),
            final(self).dims_of() == old(self).dims_of(),
            final(self).bits_of() == old(self).bits_of(),
            final(self).entries().to_multiset() == old(self).entries().to_multiset().insert(coords@),
    {
        let code = morton_encode(coords, self.bits);
        let mut copy: Vec<u32> = Vec::new();
        let mut i: usize = 0;
        while i < coords.len()
            invariant
                i <= coords@.len(),
                copy@ == coords@.take(i as int),
            decreases coords.len() - i,
        {
            copy.push(coords[i]);
            proof {
                assert(coords@.take(i + 1) =~= coords@.take(i as int).push(coords@[i as int]));
            }
            i += 1;
        }
        proof {
            assert(coords@.take(coords@.len() as int) =~= coords@);
        }
        let mut pos: usize = self.points.len();
        while pos > 0 && self.points[pos - 1].0 > code
            invariant
                pos <= self.points@.len(),
                forall|j: int| pos <= j < self.points@.len() ==> (#[trigger] self.points@[j]).0 > code,
            decreases pos,
        {
            pos -= 1;
        }
        let ghost old_pts = self.points@;
        self.points.insert(pos, (code, copy));
        proof {
            assert forall|i: int, j: int| 0 <= i < j < self.points@.len() implies (#[trigger] self.points@[i]).0 <= (#[trigger] self.points@[j]).0 by {
                if i < pos && j < pos {
                    assert(old_pts[i].0 <= old_pts[j].0);
                } else if i < pos && j == pos {
                    if pos > 0 {
                        assert(old_pts[pos - 1].0 <= code);
                        if i < pos - 1 {
                            assert(old_pts[i].0 <= old_pts[pos - 1].0);
                        }
                    }
                } else if i < pos && j > pos {
                    assert(old_pts[i].0 <= old_pts[j - 1].0);
                } else if i == pos {
                    assert(old_pts[j - 1].0 > code);
                } else {
                    assert(old_pts[i - 1].0 <= old_pts[j - 1].0);
                }
            }
            let e0 = old_pts.map_values(|e: (u128, Vec<u32>)| e.1@);
            assert(self.entries() =~= e0.insert(pos as int, coords@));
            vstd::seq_lib::to_multiset_insert(e0, pos as int, coords@);
        }
    }

    /// The points stored with a code in `[a, b]`, in curve order.
    pub closed spec fn in_interval(&self, a: u128, b: u128) -> Seq<Seq<u32>> {
        self.points@.filter(code_within(a, b)).map_values(entry_point())
    }
}


/// Two codes with the same 128 bits are equal.
proof fn lemma_codes_eq(x: u128, y: u128)
    requires
        forall|j: int| 0 <= j < 128 ==> #[trigger] zbit(x, j) == zbit(y, j),
    ensures
        x == y,
{
    assert(zbit(x, 0) == zbit(y, 0));
    assert(zbit(x, 1) == zbit(y, 1));
    assert(zbit(x, 2) == zbit(y, 2));
    assert(zbit(x, 3) == zbit(y, 3));
    assert(zbit(x, 4) == zbit(y, 4));
    assert(zbit(x, 5) == zbit(y, 5));
    assert(zbit(x, 6) == zbit(y, 6));
    assert(zbit(x, 7) == zbit(y, 7));
    assert(zbit(x, 8) == zbit(y, 8));
    assert(zbit(x, 9) == zbit(y, 9));
    assert(zbit(x, 10) == zbit(y, 10));
    assert(zbit(x, 11) == zbit(y, 11));
    assert(zbit(x, 12) == zbit(y, 12));
    assert(zbit(x, 13) == zbit(y, 13));
    assert(zbit(x, 14) == zbit(y, 14));
    assert(zbit(x, 15) == zbit(y, 15));
    assert(zbit(x, 16) == zbit(y, 16));
    assert(zbit(x, 17) == zbit(y, 17));
    assert(zbit(x, 18) == zbit(y, 18));
    assert(zbit(x, 19) == zbit(y, 19));
    assert(zbit(x, 20) == zbit(y, 20));
    assert(zbit(x, 21) == zbit(y, 21));
    assert(zbit(x, 22) == zbit(y, 22));
    assert(zbit(x, 23) == zbit(y, 23));
    assert(zbit(x, 24) == zbit(y, 24));
    assert(zbit(x, 25) == zbit(y, 25));
    assert(zbit(x, 26) == zbit(y, 26));
    assert(zbit(x, 27) == zbit(y, 27));
    assert(zbit(x, 28) == zbit(y, 28));
    assert(zbit(x, 29) == zbit(y, 29));
    assert(zbit(x, 30) == zbit(y, 30));
    assert(zbit(x, 31) == zbit(y, 31));
    assert(zbit(x, 32) == zbit(y, 32));
    assert(zbit(x, 33) == zbit(y, 33));
    assert(zbit(x, 34) == zbit(y, 34));
    assert(zbit(x, 35) == zbit(y, 35));
    assert(zbit(x, 36) == zbit(y, 36));
    assert(zbit(x, 37) == zbit(y, 37));
    assert(zbit(x, 38) == zbit(y, 38));
    assert(zbit(x, 39) == zbit(y, 39));
    assert(zbit(x, 40) == zbit(y, 40));
    assert(zbit(x, 41) == zbit(y, 41));
    assert(zbit(x, 42) == zbit(y, 42));
    assert(zbit(x, 43) == zbit(y, 43));
    assert(zbit(x, 44) == zbit(y, 44));
    assert(zbit(x, 45) == zbit(y, 45));
    assert(zbit(x, 46) == zbit(y, 46));
    assert(zbit(x, 47) == zbit(y, 47));
    assert(zbit(x, 48) == zbit(y, 48));
    assert(zbit(x, 49) == zbit(y, 49));
    assert(zbit(x, 50) == zbit(y, 50));
    assert(zbit(x, 51) == zbit(y, 51));
    assert(zbit(x, 52) == zbit(y, 52));
    assert(zbit(x, 53) == zbit(y, 53));
    assert(zbit(x, 54) == zbit(y, 54));
    assert(zbit(x, 55) == zbit(y, 55));
    assert(zbit(x, 56) == zbit(y, 56));
    assert(zbit(x, 57) == zbit(y, 57));
    assert(zbit(x, 58) == zbit(y, 58));
    assert(zbit(x, 59) == zbit(y, 59));
    assert(zbit(x, 60) == zbit(y, 60));
    assert(zbit(x, 61) == zbit(y, 61));
    assert(zbit(x, 62) == zbit(y, 62));
    assert(zbit(x, 63) == zbit(y, 63));
    assert(zbit(x, 64) == zbit(y, 64));
    assert(zbit(x, 65) == zbit(y, 65));
    assert(zbit(x, 66) == zbit(y, 66));
    assert(zbit(x, 67) == zbit(y, 67));
    assert(zbit(x, 68) == zbit(y, 68));
    assert(zbit(x, 69) == zbit(y, 69));
    assert(zbit(x, 70) == zbit(y, 70));
    assert(zbit(x, 71) == zbit(y, 71));
    assert(zbit(x, 72) == zbit(y, 72));
    assert(zbit(x, 73) == zbit(y, 73));
    assert(zbit(x, 74) == zbit(y, 74));
    assert(zbit(x, 75) == zbit(y, 75));
    assert(zbit(x, 76) == zbit(y, 76));
    assert(zbit(x, 77) == zbit(y, 77));
    assert(zbit(x, 78) == zbit(y, 78));
    assert(zbit(x, 79) == zbit(y, 79));
    assert(zbit(x, 80) == zbit(y, 80));
    assert(zbit(x, 81) == zbit(y, 81));
    assert(zbit(x, 82) == zbit(y, 82));
    assert(zbit(x, 83) == zbit(y, 83));
    assert(zbit(x, 84) == zbit(y, 84));
    assert(zbit(x, 85) == zbit(y, 85));
    assert(zbit(x, 86) == zbit(y, 86));
    assert(zbit(x, 87) == zbit(y, 87));
    assert(zbit(x, 88) == zbit(y, 88));
    assert(zbit(x, 89) == zbit(y, 89));
    assert(zbit(x, 90) == zbit(y, 90));
    assert(zbit(x, 91) == zbit(y, 91));
    assert(zbit(x, 92) == zbit(y, 92));
    assert(zbit(x, 93) == zbit(y, 93));
    assert(zbit(x, 94) == zbit(y, 94));
    assert(zbit(x, 95) == zbit(y, 95));
    assert(zbit(x, 96) == zbit(y, 96));
    assert(zbit(x, 97) == zbit(y, 97));
    assert(zbit(x, 98) == zbit(y, 98));
    assert(zbit(x, 99) == zbit(y, 99));
    assert(zbit(x, 100) == zbit(y, 100));
    assert(zbit(x, 101) == zbit(y, 101));
    assert(zbit(x, 102) == zbit(y, 102));
    assert(zbit(x, 103) == zbit(y, 103));
    assert(zbit(x, 104) == zbit(y, 104));
    assert(zbit(x, 105) == zbit(y, 105));
    assert(zbit(x, 106) == zbit(y, 106));
    assert(zbit(x, 107) == zbit(y, 107));
    assert(zbit(x, 108) == zbit(y, 108));
    assert(zbit(x, 109) == zbit(y, 109));
    assert(zbit(x, 110) == zbit(y, 110));
    assert(zbit(x, 111) == zbit(y, 111));
    assert(zbit(x, 112) == zbit(y, 112));
    assert(zbit(x, 113) == zbit(y, 113));
    assert(zbit(x, 114) == zbit(y, 114));
    assert(zbit(x, 115) == zbit(y, 115));
    assert(zbit(x, 116) == zbit(y, 116));
    assert(zbit(x, 117) == zbit(y, 117));
    assert(zbit(x, 118) == zbit(y, 118));
    assert(zbit(x, 119) == zbit(y, 119));
    assert(zbit(x, 120) == zbit(y, 120));
    assert(zbit(x, 121) == zbit(y, 121));
    assert(zbit(x, 122) == zbit(y, 122));
    assert(zbit(x, 123) == zbit(y, 123));
    assert(zbit(x, 124) == zbit(y, 124));
    assert(zbit(x, 125) == zbit(y, 125));
    assert(zbit(x, 126) == zbit(y, 126));
    assert(zbit(x, 127) == zbit(y, 127));
    assert(x == y) by (bit_vector)
        requires
            (x >> 0u128) & 1u128 == (y >> 0u128) & 1u128,
            (x >> 1u128) & 1u128 == (y >> 1u128) & 1u128,
            (x >> 2u128) & 1u128 == (y >> 2u128) & 1u128,
            (x >> 3u128) & 1u128 == (y >> 3u128) & 1u128,
            (x >> 4u128) & 1u128 == (y >> 4u128) & 1u128,
            (x >> 5u128) & 1u128 == (y >> 5u128) & 1u128,
            (x >> 6u128) & 1u128 == (y >> 6u128) & 1u128,
            (x >> 7u128) & 1u128 == (y >> 7u128) & 1u128,
            (x >> 8u128) & 1u128 == (y >> 8u128) & 1u128,
            (x >> 9u128) & 1u128 == (y >> 9u128) & 1u128,
            (x >> 10u128) & 1u128 == (y >> 10u128) & 1u128,
            (x >> 11u128) & 1u128 == (y >> 11u128) & 1u128,
            (x >> 12u128) & 1u128 == (y >> 12u128) & 1u128,
            (x >> 13u128) & 1u128 == (y >> 13u128) & 1u128,
            (x >> 14u128) & 1u128 == (y >> 14u128) & 1u128,
            (x >> 15u128) & 1u128 == (y >> 15u128) & 1u128,
            (x >> 16u128) & 1u128 == (y >> 16u128) & 1u128,
            (x >> 17u128) & 1u128 == (y >> 17u128) & 1u128,
            (x >> 18u128) & 1u128 == (y >> 18u128) & 1u128,
            (x >> 19u128) & 1u128 == (y >> 19u128) & 1u128,
            (x >> 20u128) & 1u128 == (y >> 20u128) & 1u128,
            (x >> 21u128) & 1u128 == (y >> 21u128) & 1u128,
            (x >> 22u128) & 1u128 == (y >> 22u128) & 1u128,
            (x >> 23u128) & 1u128 == (y >> 23u128) & 1u128,
            (x >> 24u128) & 1u128 == (y >> 24u128) & 1u128,
            (x >> 25u128) & 1u128 == (y >> 25u128) & 1u128,
            (x >> 26u128) & 1u128 == (y >> 26u128) & 1u128,
            (x >> 27u128) & 1u128 == (y >> 27u128) & 1u128,
            (x >> 28u128) & 1u128 == (y >> 28u128) & 1u128,
            (x >> 29u128) & 1u128 == (y >> 29u128) & 1u128,
            (x >> 30u128) & 1u128 == (y >> 30u128) & 1u128,
            (x >> 31u128) & 1u128 == (y >> 31u128) & 1u128,
            (x >> 32u128) & 1u128 == (y >> 32u128) & 1u128,
            (x >> 33u128) & 1u128 == (y >> 33u128) & 1u128,
            (x >> 34u128) & 1u128 == (y >> 34u128) & 1u128,
            (x >> 35u128) & 1u128 == (y >> 35u128) & 1u128,
            (x >> 36u128) & 1u128 == (y >> 36u128) & 1u128,
            (x >> 37u128) & 1u128 == (y >> 37u128) & 1u128,
            (x >> 38u128) & 1u128 == (y >> 38u128) & 1u128,
            (x >> 39u128) & 1u128 == (y >> 39u128) & 1u128,
            (x >> 40u128) & 1u128 == (y >> 40u128) & 1u128,
            (x >> 41u128) & 1u128 == (y >> 41u128) & 1u128,
            (x >> 42u128) & 1u128 == (y >> 42u128) & 1u128,
            (x >> 43u128) & 1u128 == (y >> 43u128) & 1u128,
            (x >> 44u128) & 1u128 == (y >> 44u128) & 1u128,
            (x >> 45u128) & 1u128 == (y >> 45u128) & 1u128,
            (x >> 46u128) & 1u128 == (y >> 46u128) & 1u128,
            (x >> 47u128) & 1u128 == (y >> 47u128) & 1u128,
            (x >> 48u128) & 1u128 == (y >> 48u128) & 1u128,
            (x >> 49u128) & 1u128 == (y >> 49u128) & 1u128,
            (x >> 50u128) & 1u128 == (y >> 50u128) & 1u128,
            (x >> 51u128) & 1u128 == (y >> 51u128) & 1u128,
            (x >> 52u128) & 1u128 == (y >> 52u128) & 1u128,
            (x >> 53u128) & 1u128 == (y >> 53u128) & 1u128,
            (x >> 54u128) & 1u128 == (y >> 54u128) & 1u128,
            (x >> 55u128) & 1u128 == (y >> 55u128) & 1u128,
            (x >> 56u128) & 1u128 == (y >> 56u128) & 1u128,
            (x >> 57u128) & 1u128 == (y >> 57u128) & 1u128,
            (x >> 58u128) & 1u128 == (y >> 58u128) & 1u128,
            (x >> 59u128) & 1u128 == (y >> 59u128) & 1u128,
            (x >> 60u128) & 1u128 == (y >> 60u128) & 1u128,
            (x >> 61u128) & 1u128 == (y >> 61u128) & 1u128,
            (x >> 62u128) & 1u128 == (y >> 62u128) & 1u128,
            (x >> 63u128) & 1u128 == (y >> 63u128) & 1u128,
            (x >> 64u128) & 1u128 == (y >> 64u128) & 1u128,
            (x >> 65u128) & 1u128 == (y >> 65u128) & 1u128,
            (x >> 66u128) & 1u128 == (y >> 66u128) & 1u128,
            (x >> 67u128) & 1u128 == (y >> 67u128) & 1u128,
            (x >> 68u128) & 1u128 == (y >> 68u128) & 1u128,
            (x >> 69u128) & 1u128 == (y >> 69u128) & 1u128,
            (x >> 70u128) & 1u128 == (y >> 70u128) & 1u128,
            (x >> 71u128) & 1u128 == (y >> 71u128) & 1u128,
            (x >> 72u128) & 1u128 == (y >> 72u128) & 1u128,
            (x >> 73u128) & 1u128 == (y >> 73u128) & 1u128,
            (x >> 74u128) & 1u128 == (y >> 74u128) & 1u128,
            (x >> 75u128) & 1u128 == (y >> 75u128) & 1u128,
            (x >> 76u128) & 1u128 == (y >> 76u128) & 1u128,
            (x >> 77u128) & 1u128 == (y >> 77u128) & 1u128,
            (x >> 78u128) & 1u128 == (y >> 78u128) & 1u128,
            (x >> 79u128) & 1u128 == (y >> 79u128) & 1u128,
            (x >> 80u128) & 1u128 == (y >> 80u128) & 1u128,
            (x >> 81u128) & 1u128 == (y >> 81u128) & 1u128,
            (x >> 82u128) & 1u128 == (y >> 82u128) & 1u128,
            (x >> 83u128) & 1u128 == (y >> 83u128) & 1u128,
            (x >> 84u128) & 1u128 == (y >> 84u128) & 1u128,
            (x >> 85u128) & 1u128 == (y >> 85u128) & 1u128,
            (x >> 86u128) & 1u128 == (y >> 86u128) & 1u128,
            (x >> 87u128) & 1u128 == (y >> 87u128) & 1u128,
            (x >> 88u128) & 1u128 == (y >> 88u128) & 1u128,
            (x >> 89u128) & 1u128 == (y >> 89u128) & 1u128,
            (x >> 90u128) & 1u128 == (y >> 90u128) & 1u128,
            (x >> 91u128) & 1u128 == (y >> 91u128) & 1u128,
            (x >> 92u128) & 1u128 == (y >> 92u128) & 1u128,
            (x >> 93u128) & 1u128 == (y >> 93u128) & 1u128,
            (x >> 94u128) & 1u128 == (y >> 94u128) & 1u128,
            (x >> 95u128) & 1u128 == (y >> 95u128) & 1u128,
            (x >> 96u128) & 1u128 == (y >> 96u128) & 1u128,
            (x >> 97u128) & 1u128 == (y >> 97u128) & 1u128,
            (x >> 98u128) & 1u128 == (y >> 98u128) & 1u128,
            (x >> 99u128) & 1u128 == (y >> 99u128) & 1u128,
            (x >> 100u128) & 1u128 == (y >> 100u128) & 1u128,
            (x >> 101u128) & 1u128 == (y >> 101u128) & 1u128,
            (x >> 102u128) & 1u128 == (y >> 102u128) & 1u128,
            (x >> 103u128) & 1u128 == (y >> 103u128) & 1u128,
            (x >> 104u128) & 1u128 == (y >> 104u128) & 1u128,
            (x >> 105u128) & 1u128 == (y >> 105u128) & 1u128,
            (x >> 106u128) & 1u128 == (y >> 106u128) & 1u128,
            (x >> 107u128) & 1u128 == (y >> 107u128) & 1u128,
            (x >> 108u128) & 1u128 == (y >> 108u128) & 1u128,
            (x >> 109u128) & 1u128 == (y >> 109u128) & 1u128,
            (x >> 110u128) & 1u128 == (y >> 110u128) & 1u128,
            (x >> 111u128) & 1u128 == (y >> 111u128) & 1u128,
            (x >> 112u128) & 1u128 == (y >> 112u128) & 1u128,
            (x >> 113u128) & 1u128 == (y >> 113u128) & 1u128,
            (x >> 114u128) & 1u128 == (y >> 114u128) & 1u128,
            (x >> 115u128) & 1u128 == (y >> 115u128) & 1u128,
            (x >> 116u128) & 1u128 == (y >> 116u128) & 1u128,
            (x >> 117u128) & 1u128 == (y >> 117u128) & 1u128,
            (x >> 118u128) & 1u128 == (y >> 118u128) & 1u128,
            (x >> 119u128) & 1u128 == (y >> 119u128) & 1u128,
            (x >> 120u128) & 1u128 == (y >> 120u128) & 1u128,
            (x >> 121u128) & 1u128 == (y >> 121u128) & 1u128,
            (x >> 122u128) & 1u128 == (y >> 122u128) & 1u128,
            (x >> 123u128) & 1u128 == (y >> 123u128) & 1u128,
            (x >> 124u128) & 1u128 == (y >> 124u128) & 1u128,
            (x >> 125u128) & 1u128 == (y >> 125u128) & 1u128,
            (x >> 126u128) & 1u128 == (y >> 126u128) & 1u128,
            (x >> 127u128) & 1u128 == (y >> 127u128) & 1u128,
    ;
}

/// The Morton code of a point (the code `morton_encode` returns).
pub open spec fn morton_of(c: Seq<u32>, bits: u32) -> u128 {
    choose|z: u128| is_morton(z, c, bits)
}

/// A point has one Morton code.
pub proof fn lemma_morton_unique(z: u128, c: Seq<u32>, bits: u32)
    requires
        is_morton(z, c, bits),
        c.len() * bits <= 128,
    ensures
        morton_of(c, bits) == z,
{
    let w = morton_of(c, bits);
    assert(is_morton(w, c, bits));
    assert forall|j: int| 0 <= j < 128 implies #[trigger] zbit(w, j) == zbit(z, j) by {
        if j < c.len() * bits {
        } else {
        }
    }
    lemma_codes_eq(w, z);
}

proof fn lemma_lex_total(a: Seq<u32>, b: Seq<u32>)
    ensures
        lex_lt(a, b) || lex_lt(b, a) || a == b,
        !(lex_lt(a, b) && lex_lt(b, a)),
        !lex_lt(a, a),
    decreases a.len(),
{
    if a.len() > 0 && b.len() > 0 && a[0] == b[0] {
        lemma_lex_total(a.drop_first(), b.drop_first());
        if a.drop_first() == b.drop_first() {
            assert(a =~= seq![a[0]] + a.drop_first());
            assert(b =~= seq![b[0]] + b.drop_first());
        }
    } else if a.len() == 0 && b.len() == 0 {
        assert(a =~= b);
    }
    if a.len() > 0 {
        lemma_lex_total(a.drop_first(), a.drop_first());
    }
}

proof fn lemma_lex_trans(a: Seq<u32>, b: Seq<u32>, c: Seq<u32>)
    requires
        lex_lt(a, b),
        lex_lt(b, c),
    ensures
        lex_lt(a, c),
    decreases a.len(),
{
    if a.len() > 0 && a[0] == b[0] && b[0] == c[0] {
        lemma_lex_trans(a.drop_first(), b.drop_first(), c.drop_first());
    }
}

/// Compare lexicographically.
fn lex_less(a: &Vec<u32>, b: &Vec<u32>) -> (r: bool)
    ensures
        r == lex_lt(a@, b@),
{
    let mut i: usize = 0;
    proof {
        assert(a@.subrange(0, a@.len() as int) =~= a@);
        assert(b@.subrange(0, b@.len() as int) =~= b@);
    }
    while i < a.len() && i < b.len()
        invariant
            i <= a@.len(),
            i <= b@.len(),
            lex_lt(a@, b@) == lex_lt(a@.subrange(i as int, a@.len() as int), b@.subrange(i as int, b@.len() as int)),
        decreases a.len() - i,
    {
        proof {
            let xs = a@.subrange(i as int, a@.len() as int);
            let ys = b@.subrange(i as int, b@.len() as int);
            assert(xs.drop_first() =~= a@.subrange(i + 1, a@.len() as int));
            assert(ys.drop_first() =~= b@.subrange(i + 1, b@.len() as int));
        }
        if a[i] != b[i] {
            return a[i] < b[i];
        }
        i += 1;
    }
    i < b.len()
}

/// Sort points in ascending lexicographic order (stable insertion sort).
fn sort_points(v: Vec<Vec<u32>>) -> (r: Vec<Vec<u32>>)
    ensures
        lex_sorted(vec_views(r@)),
        vec_views(r@).to_multiset() == vec_views(v@).to_multiset(),
        r@.len() == v@.len(),
{
    let mut sorted: Vec<Vec<u32>> = Vec::new();
    let mut src = v;
    let ghost orig = vec_views(src@);
    let ghost moved: Seq<Seq<u32>> = Seq::empty();
    proof {
        assert(vec_views(sorted@) =~= Seq::<Seq<u32>>::empty());
        assert(orig =~= moved + vec_views(src@));
    }
    while src.len() > 0
        invariant
            lex_sorted(vec_views(sorted@)),
            vec_views(sorted@).to_multiset() == moved.to_multiset(),
            orig == moved + vec_views(src@),
        decreases src@.len(),
    {
        let ghost s0 = src@;
        let x = src.remove(0);
        proof {
            assert(vec_views(s0) =~= seq![x@] + vec_views(src@));
        }
        let mut pos: usize = sorted.len();
        while pos > 0 && lex_less(&x, &sorted[pos - 1])
            invariant
                pos <= sorted@.len(),
                forall|j: int| pos <= j < sorted@.len() ==> lex_lt(x@, #[trigger] sorted@[j]@),
            decreases pos,
        {
            pos -= 1;
        }
        let ghost old_sorted = vec_views(sorted@);
        sorted.insert(pos, x);
        proof {
            assert(vec_views(sorted@) =~= old_sorted.insert(pos as int, x@));
            vstd::seq_lib::to_multiset_insert(old_sorted, pos as int, x@);
            let ns = vec_views(sorted@);
            assert forall|i: int, j: int| 0 <= i < j < ns.len() implies !lex_lt(#[trigger] ns[j], #[trigger] ns[i]) by {
                if j == pos {
                    // ns[i] = old[i] <= old[pos - 1] <= x
                    assert(!lex_lt(x@, old_sorted[pos - 1]));
                    if i < pos - 1 {
                        assert(!lex_lt(old_sorted[pos - 1], old_sorted[i]));
                        lemma_lex_total(old_sorted[pos - 1], old_sorted[i]);
                        lemma_lex_total(x@, old_sorted[pos - 1]);
                        if lex_lt(x@, old_sorted[i]) {
                            if lex_lt(old_sorted[i], old_sorted[pos - 1]) {
                                lemma_lex_trans(x@, old_sorted[i], old_sorted[pos - 1]);
                            }
                        }
                    }
                } else if i == pos {
                    // x < old[j - 1]
                    assert(lex_lt(x@, sorted@[j]@));
                    lemma_lex_total(x@, ns[j]);
                } else {
                    let oi = if i < pos { i } else { i - 1 };
                    let oj = if j < pos { j } else { j - 1 };
                    assert(ns[i] == old_sorted[oi]);
                    assert(ns[j] == old_sorted[oj]);
                    if oi < oj {
                    }
                }
            }
            assert(orig =~= moved.push(x@) + vec_views(src@));
            vstd::seq_lib::to_multiset_build(moved, x@);
        }
        proof {
            moved = moved.push(x@);
        }
    }
    proof {
        assert(vec_views(src@) =~= Seq::<Seq<u32>>::empty());
        assert(orig =~= moved);
        vstd::seq_lib::to_multiset_len(vec_views(sorted@));
        vstd::seq_lib::to_multiset_len(orig);
    }
    sorted
}

/// `p` lies in the box `[lo, hi]`.
fn in_box_exec(p: &Vec<u32>, lo: &[u32], hi: &[u32]) -> (r: bool)
    ensures
        r == in_box(p@, lo@, hi@),
{
    let mut d: usize = 0;
    while d < p.len() && d < lo.len() && d < hi.len()
        invariant
            d <= p@.len(),
            forall|x: int| 0 <= x < d && x < lo@.len() && x < hi@.len() ==> lo@[x] <= #[trigger] p@[x] <= hi@[x],
        decreases p.len() - d,
    {
        if !(lo[d] <= p[d] && p[d] <= hi[d]) {
            return false;
        }
        d += 1;
    }
    true
}


/// Filtering a sequence with one more element.
proof fn lemma_filter_push<A>(s: Seq<A>, x: A, pred: spec_fn(A) -> bool)
    ensures
        s.push(x).filter(pred) == if pred(x) { s.filter(pred).push(x) } else { s.filter(pred) },
{
    reveal(Seq::filter);
    assert(s.push(x).drop_last() =~= s);
}

/// Filtering a sequence whose elements from `i` on all fail the predicate.
proof fn lemma_filter_rest_fails<A>(s: Seq<A>, pred: spec_fn(A) -> bool, i: int)
    requires
        0 <= i <= s.len(),
        forall|k: int| i <= k < s.len() ==> !pred(#[trigger] s[k]),
    ensures
        s.filter(pred) == s.take(i).filter(pred),
    decreases s.len() - i,
{
    if i < s.len() {
        lemma_filter_rest_fails(s, pred, i + 1);
        assert(s.take(i + 1) =~= s.take(i).push(s[i]));
        lemma_filter_push(s.take(i), s[i], pred);
    } else {
        assert(s.take(i) =~= s);
    }
}

/// Filtering a sequence none of whose elements passes.
proof fn lemma_filter_none<A>(s: Seq<A>, pred: spec_fn(A) -> bool)
    requires
        forall|k: int| 0 <= k < s.len() ==> !pred(#[trigger] s[k]),
    ensures
        s.filter(pred) == Seq::<A>::empty(),
{
    lemma_filter_rest_fails(s, pred, 0);
    reveal(Seq::filter);
    assert(s.take(0) =~= Seq::<A>::empty());
}

impl ZIndex {
    /// All points inside the box `[lo, hi]` (inclusive per dimension), found by scanning the
    /// Z-interval between the two corners' codes and filtering, in ascending lexicographic
    /// order. The scan is one contiguous run of the index; the filter drops the points the
    /// curve passed through outside the box.
    pub fn range(&self, lo: &[u32], hi: &[u32]) -> (res: (Vec<Vec<u32>>, RangeStats))
        requires
            self.wf(),
            lo@.len() * self.bits_of() <= 128,
            hi@.len() * self.bits_of() <= 128,
            lo@.len() == 0 || self.bits_of() <= 32,
            hi@.len() == 0 || self.bits_of() <= 32,
        ensures
            ({
                let zlo = morton_of(lo@, self.bits_of());
                let zhi = morton_of(hi@, self.bits_of());
                let a = if zlo <= zhi { zlo } else { zhi };
                let b = if zlo <= zhi { zhi } else { zlo };
                let scan = self.in_interval(a, b);
                &&& vec_views(res.0@).to_multiset() == scan.filter(boxed(lo@, hi@)).to_multiset()
                &&& lex_sorted(vec_views(res.0@))
                &&& res.1.scanned == scan.len()
                &&& res.1.returned == res.0@.len()
            }),
            lo@.len() == self.dims_of() && hi@.len() == self.dims_of() && fits(hi@, self.bits_of())
                ==> vec_views(res.0@).to_multiset() == self.entries().filter(boxed(lo@, hi@)).to_multiset(),
    {
        let zlo = morton_encode(lo, self.bits);
        let zhi = morton_encode(hi, self.bits);
        proof {
            lemma_morton_unique(zlo, lo@, self.bits);
            lemma_morton_unique(zhi, hi@, self.bits);
        }
        let a = if zlo <= zhi { zlo } else { zhi };
        let b = if zlo <= zhi { zhi } else { zlo };
        let ghost pts = self.points@;
        let ghost inter = code_within(a, b);
        let ghost inb = boxed(lo@, hi@);
        let ghost view = entry_point();
        // the first entry whose code is at least `a`
        let mut l: usize = 0;
        let mut h: usize = self.points.len();
        while l < h
            invariant
                pts == self.points@,
                self.wf(),
                l <= h <= pts.len(),
                forall|k: int| 0 <= k < l ==> (#[trigger] pts[k]).0 < a,
                forall|k: int| h <= k < pts.len() ==> (#[trigger] pts[k]).0 >= a,
            decreases h - l,
        {
            let mid = l + (h - l) / 2;
            if self.points[mid].0 < a {
                proof {
                    assert forall|k: int| 0 <= k < mid + 1 implies (#[trigger] pts[k]).0 < a by {
                        if k < mid {
                            assert(self.wf());
                            assert(pts[k].0 <= pts[mid as int].0);
                        }
                    }
                }
                l = mid + 1;
            } else {
                proof {
                    assert forall|k: int| mid <= k < pts.len() implies (#[trigger] pts[k]).0 >= a by {
                        if k > mid {
                            assert(pts[mid as int].0 <= pts[k].0);
                        }
                    }
                }
                h = mid;
            }
        }
        let start = l;
        proof {
            lemma_filter_none(pts.take(start as int), inter);
        }
        let mut out: Vec<Vec<u32>> = Vec::new();
        let mut scanned: u64 = 0;
        let mut returned: u64 = 0;
        let mut i: usize = start;
        proof {
            assert(pts.subrange(start as int, i as int).map_values(view) =~= Seq::<Seq<u32>>::empty());
            assert(vec_views(out@) =~= Seq::<Seq<u32>>::empty());
            assert(pts.take(start as int).filter(inter) =~= pts.subrange(start as int, i as int));
            reveal(Seq::filter);
        }
        while i < self.points.len() && self.points[i].0 <= b
            invariant
                pts == self.points@,
                self.wf(),
                inter == code_within(a, b),
                inb == boxed(lo@, hi@),
                view == entry_point(),
                start <= i <= pts.len(),
                forall|k: int| 0 <= k < start ==> (#[trigger] pts[k]).0 < a,
                forall|k: int| start <= k < pts.len() ==> (#[trigger] pts[k]).0 >= a,
                pts.take(i as int).filter(inter) == pts.subrange(start as int, i as int),
                vec_views(out@) == pts.subrange(start as int, i as int).map_values(view).filter(inb),
                scanned == i - start,
                returned == out@.len(),
                returned <= scanned,
            decreases pts.len() - i,
        {
            let p = &self.points[i].1;
            proof {
                assert(inter(pts[i as int]));
                assert(view(pts[i as int]) == p@);
                assert(pts.take(i + 1) =~= pts.take(i as int).push(pts[i as int]));
                lemma_filter_push(pts.take(i as int), pts[i as int], inter);
                assert(pts.subrange(start as int, i + 1) =~= pts.subrange(start as int, i as int).push(pts[i as int]));
                assert(pts.subrange(start as int, i + 1).map_values(view) =~= pts.subrange(start as int, i as int).map_values(view).push(p@));
                lemma_filter_push(pts.subrange(start as int, i as int).map_values(view), p@, inb);
            }
            scanned = scanned + 1;
            if in_box_exec(p, lo, hi) {
                let mut copy: Vec<u32> = Vec::new();
                let mut x: usize = 0;
                while x < p.len()
                    invariant
                        x <= p@.len(),
                        copy@ == p@.take(x as int),
                    decreases p.len() - x,
                {
                    copy.push(p[x]);
                    proof {
                        assert(p@.take(x + 1) =~= p@.take(x as int).push(p@[x as int]));
                    }
                    x += 1;
                }
                proof {
                    assert(p@.take(p@.len() as int) =~= p@);
                }
                let ghost o0 = vec_views(out@);
                out.push(copy);
                returned = returned + 1;
                proof {
                    assert(vec_views(out@) =~= o0.push(p@));
                }
            }
            i += 1;
        }
        proof {
            assert forall|k: int| i <= k < pts.len() implies !inter(#[trigger] pts[k]) by {
                assert(self.points@[i as int].0 > b);
                assert(pts[i as int].0 <= pts[k].0);
            }
            lemma_filter_rest_fails(pts, inter, i as int);
            assert(pts.filter(inter) == pts.subrange(start as int, i as int));
            assert(self.in_interval(a, b) =~= pts.subrange(start as int, i as int).map_values(view));
        }
        let ghost ov = vec_views(out@);
        let sorted = sort_points(out);
        proof {
            let scan = self.in_interval(a, b);
            assert(scan == pts.subrange(start as int, i as int).map_values(view));
            assert(ov == scan.filter(inb));
            assert(scan.len() == i - start);
            if lo@.len() == self.dims && hi@.len() == self.dims && fits(hi@, self.bits) {
                self.lemma_box_within(lo@, hi@, zlo, zhi);
                let q = |e: (u128, Vec<u32>)| inb(view(e));
                lemma_filter_filter(pts, inter, q);
                lemma_filter_map(pts.filter(inter), view, inb);
                lemma_filter_map(pts, view, inb);
                assert(self.entries() == pts.map_values(view));
                assert(scan.filter(inb) == self.entries().filter(inb));
            }
        }
        (sorted, RangeStats { scanned, returned })
    }
}


/// Two codes agreeing on every bit from `k` up, with the smaller one strictly smaller: there is
/// a highest differing bit below `k`, where the larger code has the one.
proof fn lemma_highest_diff(x: u128, y: u128, k: u128)
    requires
        y < x,
        k <= 128,
        k < 128 ==> x >> k == y >> k,
    ensures
        exists|t: int| 0 <= t < k && #[trigger] zbit(x, t) == 1u128 && zbit(y, t) == 0u128
            && forall|u: int| t < u < 128 ==> #[trigger] zbit(x, u) == zbit(y, u),
    decreases k,
{
    if k == 0 {
        assert(x >> 0u128 == y >> 0u128 ==> x == y) by (bit_vector);
        assert(false);
    } else {
        let t = (k - 1) as u128;
        let bx = (x >> t) & 1u128;
        let by = (y >> t) & 1u128;
        if bx == by {
            assert((k == 128 || x >> k == y >> k) && (x >> t) & 1u128 == (y >> t) & 1u128 && t + 1 == k && t < 128
                ==> x >> t == y >> t) by (bit_vector);
            lemma_highest_diff(x, y, t);
        } else {
            assert(y < x && (k == 128 || x >> k == y >> k) && t + 1 == k && t < 128 && (x >> t) & 1u128 != (y >> t) & 1u128
                ==> (x >> t) & 1u128 == 1u128 && (y >> t) & 1u128 == 0u128) by (bit_vector);
            assert forall|u: int| t < u < 128 implies #[trigger] zbit(x, u) == zbit(y, u) by {
                let uu = u as u128;
                assert((k == 128 || x >> k == y >> k) && t + 1 == k && t < uu && uu < 128
                    ==> (x >> uu) & 1u128 == (y >> uu) & 1u128) by (bit_vector);
            }
            assert(zbit(x, t as int) == 1u128 && zbit(y, t as int) == 0u128);
        }
    }
}

/// A coordinate with a one where another has a zero, agreeing above, is the larger.
proof fn lemma_coord_greater(a: u32, b: u32, j: u32)
    requires
        j < 32,
        cbit(a, j as int) == 1u32,
        cbit(b, j as int) == 0u32,
        forall|i: int| j < i < 32 ==> #[trigger] cbit(a, i) == cbit(b, i),
    ensures
        b < a,
{
    let sh = (j + 1) as u32;
    if j < 31 {
        assert forall|i: int| 0 <= i < 32 implies #[trigger] cbit(a >> sh, i) == cbit(b >> sh, i) by {
            let ii = i as u32;
            if i + j + 1 < 32 {
                let m = (i + j + 1) as u32;
                assert(cbit(a, m as int) == cbit(b, m as int));
                assert(ii + sh == m && m < 32 ==> ((a >> sh) >> ii) & 1u32 == (a >> m) & 1u32 && ((b >> sh) >> ii) & 1u32 == (b >> m) & 1u32) by (bit_vector);
            } else {
                assert(ii + sh >= 32 && sh <= 32 && ii < 32 ==> ((a >> sh) >> ii) & 1u32 == 0u32 && ((b >> sh) >> ii) & 1u32 == 0u32) by (bit_vector);
            }
        }
        lemma_bits_eq(a >> sh, b >> sh);
    }
    assert((j == 31 || a >> sh == b >> sh) && sh == j + 1 && j < 32 && (a >> j) & 1u32 == 1u32 && (b >> j) & 1u32 == 0u32 ==> b < a) by (bit_vector);
}

/// The Morton code is monotone in every coordinate: a point below another on every coordinate
/// (both fitting in `bits` bits) has a code no larger.
pub proof fn lemma_morton_monotone(a: Seq<u32>, b: Seq<u32>, bits: u32, za: u128, zb: u128)
    requires
        a.len() == b.len(),
        a.len() * bits <= 128,
        a.len() == 0 || bits <= 32,
        fits(a, bits),
        fits(b, bits),
        forall|d: int| 0 <= d < a.len() ==> #[trigger] a[d] <= b[d],
        is_morton(za, a, bits),
        is_morton(zb, b, bits),
    ensures
        za <= zb,
{
    if zb < za {
        lemma_highest_diff(za, zb, 128);
        let t = choose|t: int| 0 <= t < 128 && #[trigger] zbit(za, t) == 1u128 && zbit(zb, t) == 0u128
            && forall|u: int| t < u < 128 ==> #[trigger] zbit(za, u) == zbit(zb, u);
        let dims = a.len() as int;
        let total = dims * bits;
        assert(t < total);
        assert(dims > 0) by {
            if dims == 0 {
                assert(dims * bits == 0) by (nonlinear_arith)
                    requires
                        dims == 0,
                ;
            }
        }
        lemma_positions(t, dims, bits as int);
        let j = t / dims;
        let d = dims - 1 - t % dims;
        assert(cbit(a[d], j) == 1u32);
        assert(cbit(b[d], j) == 0u32);
        assert forall|i: int| j < i < 32 implies #[trigger] cbit(a[d], i) == cbit(b[d], i) by {
            if i < bits {
                let u = i * dims + (dims - 1 - d);
                assert(t < u < total) by (nonlinear_arith)
                    requires
                        t == j * dims + (dims - 1 - d),
                        u == i * dims + (dims - 1 - d),
                        j < i < bits,
                        total == dims * bits,
                        0 <= dims - 1 - d < dims,
                ;
                lemma_fundamental_div_mod_converse(u, dims, i, dims - 1 - d);
                assert(zbit(za, u) == zbit(zb, u));
                assert(zbit(za, u) == cbit(a[d], i) as u128);
                assert(zbit(zb, u) == cbit(b[d], i) as u128);
                assert(cbit(a[d], i) <= 1u32 && cbit(b[d], i) <= 1u32) by {
                    let x = a[d];
                    let y = b[d];
                    let ii = i as u32;
                    assert((x >> ii) & 1u32 <= 1u32 && (y >> ii) & 1u32 <= 1u32) by (bit_vector);
                }
            }
        }
        lemma_coord_greater(a[d], b[d], j as u32);
        assert(a[d] <= b[d]);
    }
}


/// A coordinate below one that fits in `bits` bits fits too.
proof fn lemma_fits_below(p: u32, h: u32, bits: u32)
    requires
        p <= h,
        bits <= 32,
        forall|j: int| bits <= j < 32 ==> #[trigger] cbit(h, j) == 0u32,
    ensures
        forall|j: int| bits <= j < 32 ==> #[trigger] cbit(p, j) == 0u32,
{
    if bits < 32 {
        assert forall|i: int| 0 <= i < 32 implies #[trigger] cbit(h >> bits, i) == cbit(0u32, i) by {
            let ii = i as u32;
            lemma_zero_bit32(ii);
            if i + bits < 32 {
                let m = (i + bits) as u32;
                assert(cbit(h, m as int) == 0u32);
                assert(ii + bits == m && m < 32 ==> ((h >> bits) >> ii) & 1u32 == (h >> m) & 1u32) by (bit_vector);
            } else {
                assert(ii + bits >= 32 && bits <= 32 && ii < 32 ==> ((h >> bits) >> ii) & 1u32 == 0u32) by (bit_vector);
            }
        }
        lemma_bits_eq(h >> bits, 0u32);
        assert forall|j: int| bits <= j < 32 implies #[trigger] cbit(p, j) == 0u32 by {
            let jj = j as u32;
            assert(h >> bits == 0u32 && p <= h && bits <= jj && jj < 32 ==> (p >> jj) & 1u32 == 0u32) by (bit_vector);
        }
    }
}

/// Filtering after a map is mapping after filtering by the composed predicate.
proof fn lemma_filter_map<A, B>(s: Seq<A>, f: spec_fn(A) -> B, p: spec_fn(B) -> bool)
    ensures
        s.map_values(f).filter(p) == s.filter(|e: A| p(f(e))).map_values(f),
    decreases s.len(),
{
    reveal(Seq::filter);
    if s.len() > 0 {
        lemma_filter_map(s.drop_last(), f, p);
        assert(s.map_values(f).drop_last() =~= s.drop_last().map_values(f));
        let q = |e: A| p(f(e));
        if q(s.last()) {
            assert(s.filter(q).map_values(f) =~= s.drop_last().filter(q).map_values(f).push(f(s.last())));
        } else {
            assert(s.filter(q).map_values(f) =~= s.drop_last().filter(q).map_values(f));
        }
    } else {
        assert(s.map_values(f).filter(p) =~= Seq::<B>::empty());
        assert(s.filter(|e: A| p(f(e))).map_values(f) =~= Seq::<B>::empty());
    }
}

/// A second filter whose predicate implies the first's makes the first redundant.
proof fn lemma_filter_filter<A>(s: Seq<A>, c: spec_fn(A) -> bool, q: spec_fn(A) -> bool)
    requires
        forall|i: int| 0 <= i < s.len() && #[trigger] q(s[i]) ==> c(s[i]),
    ensures
        s.filter(c).filter(q) == s.filter(q),
    decreases s.len(),
{
    reveal(Seq::filter);
    if s.len() > 0 {
        let t = s.drop_last();
        assert forall|i: int| 0 <= i < t.len() && #[trigger] q(t[i]) implies c(t[i]) by {
            assert(t[i] == s[i]);
        }
        lemma_filter_filter(t, c, q);
        assert(q(s.last()) ==> c(s.last())) by {
            if q(s.last()) {
                assert(s.last() == s[s.len() - 1]);
            }
        }
        if c(s.last()) {
            lemma_filter_push(t.filter(c), s.last(), q);
            assert(s.filter(c) == t.filter(c).push(s.last()));
        }
        lemma_filter_push(t, s.last(), q);
        assert(s =~= t.push(s.last()));
    }
}


impl ZIndex {
    /// Every stored point inside the box `[lo, hi]` has a code between the corners' codes, and
    /// the lower corner's code is the smaller, when the upper corner fits in `bits` bits.
    proof fn lemma_box_within(&self, lo: Seq<u32>, hi: Seq<u32>, zlo: u128, zhi: u128)
        requires
            self.wf(),
            lo.len() == self.dims,
            hi.len() == self.dims,
            self.dims * self.bits <= 128,
            self.dims == 0 || self.bits <= 32,
            fits(hi, self.bits),
            is_morton(zlo, lo, self.bits),
            is_morton(zhi, hi, self.bits),
        ensures
            forall|i: int| 0 <= i < self.points@.len() && #[trigger] boxed(lo, hi)(entry_point()(self.points@[i]))
                ==> zlo <= self.points@[i].0 <= zhi,
    {
        let bits = self.bits;
        assert forall|i: int| 0 <= i < self.points@.len() && #[trigger] boxed(lo, hi)(entry_point()(self.points@[i]))
            implies zlo <= self.points@[i].0 <= zhi by {
            let p = self.points@[i].1@;
            assert(p.len() == self.dims);
            assert(in_box(p, lo, hi));
            assert forall|d: int| 0 <= d < p.len() implies lo[d] <= #[trigger] p[d] <= hi[d] by {}
            if self.dims > 0 {
                assert forall|d: int, j: int| 0 <= d < p.len() && bits <= j < 32 implies #[trigger] cbit(p[d], j) == 0u32 by {
                    assert forall|jj: int| bits <= jj < 32 implies #[trigger] cbit(hi[d], jj) == 0u32 by {}
                    lemma_fits_below(p[d], hi[d], bits);
                }
                assert forall|d: int, j: int| 0 <= d < lo.len() && bits <= j < 32 implies #[trigger] cbit(lo[d], j) == 0u32 by {
                    assert forall|jj: int| bits <= jj < 32 implies #[trigger] cbit(hi[d], jj) == 0u32 by {}
                    assert(lo[d] <= p[d] <= hi[d]);
                    lemma_fits_below(lo[d], hi[d], bits);
                }
            }
            assert(fits(p, bits));
            assert(fits(lo, bits));
            assert(is_morton(self.points@[i].0, p, bits));
            lemma_morton_monotone(p, hi, bits, self.points@[i].0, zhi);
            lemma_morton_monotone(lo, p, bits, zlo, self.points@[i].0);
        }
    }
}

} // verus!
