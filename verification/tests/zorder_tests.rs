use mork_uni_join::zorder::{morton_decode, morton_encode, ZIndex};

#[test]
fn morton_roundtrips() {
    for (coords, bits) in [
        (vec![5u32, 3], 4u32),
        (vec![0, 0, 0], 3),
        (vec![15, 15], 4),
        (vec![100, 200, 50], 8),
        (vec![1, 2, 3, 4], 5),
    ] {
        let code = morton_encode(&coords, bits);
        assert_eq!(morton_decode(code, coords.len(), bits), coords);
    }
}

#[test]
fn nearby_points_share_a_prefix() {
    let near = morton_encode(&[4, 4], 4) ^ morton_encode(&[4, 5], 4);
    let far = morton_encode(&[4, 4], 4) ^ morton_encode(&[12, 4], 4);
    assert!(near < far);
}

struct Rng(u64);
impl Rng {
    fn next(&mut self) -> u64 {
        let mut x = self.0;
        x ^= x >> 12;
        x ^= x << 25;
        x ^= x >> 27;
        self.0 = x;
        x.wrapping_mul(0x2545F4914F6CDD1D)
    }
    fn below(&mut self, n: u32) -> u32 {
        (self.next() % n as u64) as u32
    }
}

fn in_box(p: &[u32], lo: &[u32], hi: &[u32]) -> bool {
    p.iter().zip(lo).zip(hi).all(|((&v, &l), &h)| l <= v && v <= h)
}

#[test]
fn range_query_matches_brute_force() {
    let mut rng = Rng(0x5EED);
    let bits = 5u32;
    let max = 1u32 << bits;
    for dims in [2usize, 3] {
        for _ in 0..400 {
            let pts: Vec<Vec<u32>> = (0..40)
                .map(|_| (0..dims).map(|_| rng.below(max)).collect())
                .collect();
            let mut idx = ZIndex::new(dims, bits);
            for p in &pts {
                idx.insert(p);
            }
            let mut lo = vec![0u32; dims];
            let mut hi = vec![0u32; dims];
            for d in 0..dims {
                let a = rng.below(max);
                let b = rng.below(max);
                lo[d] = a.min(b);
                hi[d] = a.max(b);
            }
            let (got, _stats) = idx.range(&lo, &hi);
            let mut want: Vec<Vec<u32>> = pts.iter().filter(|p| in_box(p, &lo, &hi)).cloned().collect();
            want.sort();
            assert_eq!(got, want, "Z-order range != brute force for box {lo:?}..{hi:?}");
        }
    }
}

#[test]
fn morton_code_interleaves_most_significant_first() {
    // (x=0b10, y=0b01), 2 bits: levels high then low, x before y: 1,0 then 0,1 -> 0b1001.
    assert_eq!(morton_encode(&[0b10, 0b01], 2), 0b1001);
    assert_eq!(morton_encode(&[], 7), 0);
    assert_eq!(morton_decode(0b1001, 2, 2), vec![0b10, 0b01]);
}

#[test]
fn range_stats_count_the_over_coverage() {
    let mut idx = ZIndex::new(2, 2);
    for p in [[0u32, 0], [1, 1], [2, 0], [3, 3]] {
        idx.insert(&p);
    }
    let (got, stats) = idx.range(&[0, 0], &[1, 1]);
    assert_eq!(got, vec![vec![0, 0], vec![1, 1]]);
    assert_eq!(stats.returned, 2);
    assert!(stats.scanned >= stats.returned);
}
