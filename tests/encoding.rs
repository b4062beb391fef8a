use hilbert::FloatDataRange;
use particle_treemap::curve::{encode_point, SpaceFillingCurve};
use particle_treemap::quantize::{clamp_level, clamp_point};
use particle_treemap::morton::{decode_morton_64bit, encode_morton_64bit, spread_64bits_by2};
use particle_treemap::treemap::ParticleTreemap;

#[test]
fn spread_places_bits_three_apart() {
    assert_eq!(spread_64bits_by2(0), 0);
    assert_eq!(spread_64bits_by2(1), 1);
    assert_eq!(spread_64bits_by2(0b111), 0b1001001);
    assert_eq!(spread_64bits_by2(0b1010), 0b1000001000);
    assert_eq!(spread_64bits_by2(0x1FFFFF), 0x1249249249249249);
    assert_eq!(spread_64bits_by2(u64::MAX), 0x1249249249249249);
}

#[test]
fn morton_interleaves_dimensions() {
    assert_eq!(encode_morton_64bit(vec![1, 0, 0]), 1);
    assert_eq!(encode_morton_64bit(vec![0, 1, 0]), 2);
    assert_eq!(encode_morton_64bit(vec![0, 0, 1]), 4);
    assert_eq!(encode_morton_64bit(vec![1, 1, 1]), 7);
    assert_eq!(encode_morton_64bit(vec![2, 0, 3]), 0b101100);
    assert_eq!(encode_morton_64bit(vec![]), 0);
}

#[test]
fn morton_round_trip_ten_bits() {
    let cases: Vec<[u32; 3]> = vec![[0, 0, 0], [1023, 0, 512], [5, 1000, 77], [1023, 1023, 1023]];
    for c in cases {
        let key = encode_morton_64bit(c.to_vec());
        assert_eq!(decode_morton_64bit(key, 3), c.to_vec());
    }
}

#[test]
fn morton_three_dimensions_matches_spread() {
    let cases: Vec<[u32; 3]> = vec![[1, 2, 3], [0x1FFFFF, 0, 0x12345], [777, 0x100000, 9]];
    for c in cases {
        let spread = spread_64bits_by2(c[0] as u64)
            | (spread_64bits_by2(c[1] as u64) << 1)
            | (spread_64bits_by2(c[2] as u64) << 2);
        assert_eq!(encode_morton_64bit(c.to_vec()), spread);
    }
}

#[test]
fn morton_spreads_by_dimension_count() {
    assert_eq!(encode_morton_64bit(vec![2, 0]), 4);
    assert_eq!(encode_morton_64bit(vec![0, 1]), 2);
    assert_eq!(encode_morton_64bit(vec![u32::MAX, 0]), 0x5555555555555555);
    assert_eq!(encode_morton_64bit(vec![0, u32::MAX]), 0xAAAAAAAAAAAAAAAA);
    assert_eq!(encode_morton_64bit(vec![2, 0, 0, 0]), 16);
    assert_eq!(encode_morton_64bit(vec![0, 0, 0, 1]), 8);
    assert_eq!(encode_morton_64bit(vec![0xDEADBEEF]), 0xDEADBEEF);
}

#[test]
fn morton_round_trip_other_dimensions() {
    let two = vec![0xFFFF_0001u32, 0x8000_0000];
    assert_eq!(decode_morton_64bit(encode_morton_64bit(two.clone()), 2), two);
    let four = vec![0xFFFFu32, 1, 0x8000, 0x1234];
    assert_eq!(decode_morton_64bit(encode_morton_64bit(four.clone()), 4), four);
    let five = vec![0xFFFu32, 0, 0x800, 3, 0xABC];
    assert_eq!(decode_morton_64bit(encode_morton_64bit(five.clone()), 5), five);
    assert_eq!(decode_morton_64bit(u64::MAX, 0), Vec::<u32>::new());
}

#[test]
fn encode_rejects_over_budget() {
    assert_eq!(encode_point(&vec![1, 2, 3], 22, SpaceFillingCurve::Morton), None);
    assert_eq!(encode_point(&vec![1, 2, 3], 22, SpaceFillingCurve::Hilbert), None);
    assert_eq!(encode_point(&vec![1], 40, SpaceFillingCurve::Hilbert), None);
    assert_eq!(encode_point(&vec![1, 2, 3], 21, SpaceFillingCurve::Morton), Some(encode_morton_64bit(vec![1, 2, 3])));
}

#[test]
fn hilbert_ranks_within_budget() {
    assert!(encode_point(&vec![1, 2, 3], 21, SpaceFillingCurve::Hilbert).is_some());
    assert!(encode_point(&vec![u32::MAX, u32::MAX], 32, SpaceFillingCurve::Hilbert).is_some());
    assert!(encode_point(&vec![7], 32, SpaceFillingCurve::Hilbert).is_some());
}

#[test]
fn hilbert_ranks_small_grid() {
    let mut ranks: Vec<u64> = Vec::new();
    for x in 0..2u32 {
        for y in 0..2u32 {
            ranks.push(encode_point(&vec![x, y], 1, SpaceFillingCurve::Hilbert).unwrap());
        }
    }
    assert_eq!(ranks[0], 0);
    ranks.sort();
    assert_eq!(ranks, vec![0, 1, 2, 3]);
}

fn quantize(rows: &[Vec<f64>], bits: usize) -> Vec<Vec<u32>> {
    let mut low = f64::MAX;
    let mut high = f64::MIN;
    for r in rows {
        for x in r {
            low = low.min(*x);
            high = high.max(*x);
        }
    }
    let range = FloatDataRange::new(low, high, (1u64 << 28) as f64);
    rows.iter().map(|r| r.iter().map(|x| range.compress(*x, bits)).collect()).collect()
}

#[test]
fn identical_rows_collapse_to_one_key() {
    let rows = vec![vec![0.1, 0.5, 0.9], vec![0.1, 0.5, 0.9]];
    let points = quantize(&rows, 8);
    for curve in [SpaceFillingCurve::Morton, SpaceFillingCurve::Hilbert] {
        let mut t = ParticleTreemap::new();
        t.insert_points(&points, 8, curve);
        assert_eq!(t.len(), 1);
    }
}

#[test]
fn points_over_budget_are_skipped() {
    let points = vec![vec![1u32, 2, 3], vec![4u32, 5, 6]];
    let mut t = ParticleTreemap::new();
    t.insert_points(&points, 30, SpaceFillingCurve::Morton);
    assert_eq!(t.len(), 0);
    t.insert_points(&points, 10, SpaceFillingCurve::Morton);
    assert_eq!(t.len(), 2);
}

#[test]
fn levels_clamped_to_bit_budget() {
    assert_eq!(clamp_level(300, 8), 255);
    assert_eq!(clamp_level(255, 8), 255);
    assert_eq!(clamp_level(17, 8), 17);
    assert_eq!(clamp_level(5, 0), 0);
    assert_eq!(clamp_level(u32::MAX, 32), u32::MAX);
    assert_eq!(clamp_level(u32::MAX, 40), u32::MAX);
    assert_eq!(clamp_point(&vec![1, 1024, 2000], 10), vec![1, 1023, 1023]);
}
