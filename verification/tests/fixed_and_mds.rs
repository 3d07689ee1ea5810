use mesh_localization::fixed_point::{fixed_sqrt, isqrt};
use mesh_localization::kabsch::{align, apply_rotation, centroid, rotation_vector};
use mesh_localization::mds::{
    initialize_mds, make_symmetric, mat_mul, pairwise_distances, subtract_mean, MDS,
};

const ONE: i32 = 65536;

fn bits(x: f64) -> i32 {
    (x * 65536.0).round() as i32
}

#[test]
fn isqrt_exact_values() {
    assert_eq!(isqrt(0), 0);
    assert_eq!(isqrt(-7), 0);
    assert_eq!(isqrt(1), 1);
    assert_eq!(isqrt(15), 3);
    assert_eq!(isqrt(16), 4);
    assert_eq!(isqrt(17), 4);
    assert_eq!(isqrt(1 << 47), 11863283);
    assert_eq!(isqrt(i64::MAX - 1), 3037000499);
}

#[test]
fn isqrt_is_floor_sqrt_on_a_range() {
    for n in 1..5000i64 {
        let r = isqrt(n);
        assert!(r * r <= n && n < (r + 1) * (r + 1), "n = {}", n);
    }
}

#[test]
fn fixed_sqrt_exact_values() {
    assert_eq!(fixed_sqrt(4 * ONE), 2 * ONE);
    assert_eq!(fixed_sqrt(25 * ONE), 5 * ONE);
    // sqrt(2) * 2^16 = 92681.9...
    assert_eq!(fixed_sqrt(2 * ONE), 92681);
    assert_eq!(fixed_sqrt(0), 0);
    assert_eq!(fixed_sqrt(-ONE), 0);
    // sqrt(1/65536) = 1/256
    assert_eq!(fixed_sqrt(1), 256);
}

#[test]
fn make_symmetric_averages_mirrored_entries() {
    let d = vec![
        vec![0, 2 * ONE, 5 * ONE],
        vec![4 * ONE, 0, ONE],
        vec![7 * ONE, 3 * ONE, 0],
    ];
    let s = make_symmetric(d);
    assert_eq!(s[0][1], 3 * ONE);
    assert_eq!(s[1][0], 3 * ONE);
    assert_eq!(s[0][2], 6 * ONE);
    assert_eq!(s[2][0], 6 * ONE);
    assert_eq!(s[1][2], 2 * ONE);
    assert_eq!(s[2][1], 2 * ONE);
    for i in 0..3 {
        assert_eq!(s[i][i], 0);
        for j in 0..3 {
            assert_eq!(s[i][j], s[j][i]);
        }
    }
}

#[test]
fn make_symmetric_rounds_toward_zero() {
    // (1 + 2) bits / 2 = 1.5 bits -> 1 bit
    let s = make_symmetric(vec![vec![0, 1], vec![2, 0]]);
    assert_eq!(s[0][1], 1);
    // (-1 + -2) bits / 2 = -1.5 bits -> -1 bit
    let s = make_symmetric(vec![vec![0, -1], vec![-2, 0]]);
    assert_eq!(s[0][1], -1);
}

#[test]
fn subtract_mean_centres_points() {
    let p = vec![(ONE, ONE), (3 * ONE, 5 * ONE)];
    let r = subtract_mean(&p);
    assert_eq!(r, vec![(-ONE, -2 * ONE), (ONE, 2 * ONE)]);
    assert!(subtract_mean(&Vec::new()).is_empty());
}

#[test]
fn pairwise_distances_three_four_five() {
    let p = vec![(0, 0), (3 * ONE, 4 * ONE), (3 * ONE, 0)];
    let d = pairwise_distances(&p);
    assert_eq!(d[0][1], 5 * ONE);
    assert_eq!(d[1][0], 5 * ONE);
    assert_eq!(d[0][2], 3 * ONE);
    assert_eq!(d[1][2], 4 * ONE);
    for i in 0..3 {
        assert_eq!(d[i][i], 0);
        for j in 0..3 {
            assert_eq!(d[i][j], d[j][i]);
        }
    }
}

#[test]
fn mat_mul_fixed_point_product() {
    // [[2, 0], [1, 1]] * [(1, 2), (3, 4)] = [(2, 4), (4, 6)]
    let m = vec![vec![2 * ONE, 0], vec![ONE, ONE]];
    let p = vec![(ONE, 2 * ONE), (3 * ONE, 4 * ONE)];
    assert_eq!(mat_mul(&m, &p), vec![(2 * ONE, 4 * ONE), (4 * ONE, 6 * ONE)]);
    // 0.5 * 0.5 = 0.25
    let m = vec![vec![ONE / 2]];
    let p = vec![(ONE / 2, -ONE / 2)];
    assert_eq!(mat_mul(&m, &p), vec![(ONE / 4, -ONE / 4)]);
}

#[test]
fn mat_mul_wraps_on_overflow() {
    // 30000 * 30000 does not fit in I16F16 and wraps as `fixed` does.
    let m = vec![vec![30000 * ONE]];
    let p = vec![(30000 * ONE, 0)];
    let expected = fixed::types::I16F16::from_num(30000)
        .wrapping_mul(fixed::types::I16F16::from_num(30000))
        .to_bits();
    assert_eq!(mat_mul(&m, &p)[0].0, expected);
    assert_ne!(expected, 30000 * ONE);
}

#[test]
fn initialize_mds_uses_high_bits_and_centres() {
    let words = [0x8000_0000u32, 0, 0, 0x8000_0000];
    let r = initialize_mds(2, &words);
    // raw points (0.5, 0) and (0, 0.5); mean (0.25, 0.25)
    assert_eq!(r, vec![(ONE / 4, -ONE / 4), (-ONE / 4, ONE / 4)]);
}

#[test]
fn mds_keeps_a_layout_that_matches_the_distances() {
    // Start (0.25, 0), (-0.25, 0): 0.5 apart, as the target says, so every
    // entry of B is -(0.5 / 0.5) = -1 off the diagonal and the layout stays.
    let words: Vec<u32> = vec![0x8000_0000, 0, 0, 0];
    let d = vec![vec![0, ONE / 2], vec![ONE / 2, 0]];
    let mut mds = MDS::new();
    let layout = mds.compute(d, &words).clone();
    assert_eq!(layout, vec![(ONE / 4, 0), (-ONE / 4, 0)]);
    assert_eq!(mds.positions(), &layout);
}

#[test]
fn mds_step_scales_by_layout_over_target_distance() {
    // Start 0.5 apart with a target of 0.25: B = [[2, -2], [-2, 2]], so one
    // step doubles the spread; the next, at ratio 1.0 / 0.25 = 4, quadruples it.
    let words: Vec<u32> = vec![0x8000_0000, 0, 0, 0];
    let d = vec![vec![0, ONE / 4], vec![ONE / 4, 0]];
    let mut mds = MDS::new();
    let dd = mds.prepare(d, &words);
    assert_eq!(mds.positions(), &vec![(ONE / 4, 0), (-ONE / 4, 0)]);
    mds.iterate(&dd);
    assert_eq!(mds.positions(), &vec![(ONE / 2, 0), (-ONE / 2, 0)]);
    mds.iterate(&dd);
    assert_eq!(mds.positions(), &vec![(2 * ONE, 0), (-2 * ONE, 0)]);
}

#[test]
fn mds_restarts_when_the_node_count_changes() {
    let words: Vec<u32> = (0..8u32).map(|i| i.wrapping_mul(0x9E37_79B9)).collect();
    let mut mds = MDS::new();
    let d2 = vec![vec![0, ONE], vec![ONE, 0]];
    assert_eq!(mds.compute(d2, &words).len(), 2);
    let d3 = vec![vec![0, ONE, ONE], vec![ONE, 0, ONE], vec![ONE, ONE, 0]];
    let layout = mds.compute(d3, &words).clone();
    assert_eq!(layout.len(), 3);
}

#[test]
fn mds_iterations_can_be_stepped() {
    let words: Vec<u32> = vec![1 << 20, 7 << 24, 3 << 28, 5 << 16];
    let d = vec![vec![0, 2 * ONE], vec![2 * ONE, 0]];
    let mut stepped = MDS::new();
    let dd = stepped.prepare(d.clone(), &words);
    for _ in 0..mesh_localization::mds::MDS_ITERATIONS {
        stepped.iterate(&dd);
    }
    let mut whole = MDS::new();
    let layout = whole.compute(d, &words).clone();
    assert_eq!(stepped.positions(), &layout);
}

#[test]
fn centroid_of_points() {
    let p = vec![(0, 0), (2 * ONE, 0), (ONE, 3 * ONE)];
    assert_eq!(centroid(&p), (ONE, ONE));
}

#[test]
fn align_leaves_mismatched_or_empty_sets_unchanged() {
    let a = vec![(ONE, 2 * ONE), (3 * ONE, -ONE)];
    let b = vec![(0, 0)];
    assert_eq!(align(&a, &b), a);
    assert_eq!(align(&Vec::new(), &Vec::new()), Vec::<(i32, i32)>::new());
    assert_eq!(align(&Vec::new(), &b), Vec::<(i32, i32)>::new());
}

#[test]
fn align_undoes_a_quarter_turn() {
    let reference = vec![(bits(1.0), 0), (0, bits(1.0)), (bits(-1.0), 0), (0, bits(-1.0)), (bits(0.5), bits(0.5))];
    // The same shape turned by +90 degrees and shifted.
    let current: Vec<(i32, i32)> = reference
        .iter()
        .map(|&(x, y)| (-y + bits(2.0), x + bits(3.0)))
        .collect();
    let aligned = align(&current, &reference);
    assert_eq!(aligned.len(), reference.len());
    for (a, r) in aligned.iter().zip(reference.iter()) {
        assert!(((a.0 - r.0) as f64 / 65536.0).abs() < 0.01, "{:?} vs {:?}", a, r);
        assert!(((a.1 - r.1) as f64 / 65536.0).abs() < 0.01, "{:?} vs {:?}", a, r);
    }
}

#[test]
fn align_of_identical_sets_is_identity() {
    let p = vec![(bits(1.5), bits(-0.5)), (bits(-2.0), bits(1.0)), (bits(0.25), bits(0.75))];
    let aligned = align(&p, &p);
    for (a, r) in aligned.iter().zip(p.iter()) {
        assert!(((a.0 - r.0) as f64 / 65536.0).abs() < 0.01);
        assert!(((a.1 - r.1) as f64 / 65536.0).abs() < 0.01);
    }
}

#[test]
fn rotation_vector_scales_to_fifteen_bits() {
    let p = vec![(ONE, 0), (-ONE, 0)];
    let q = vec![(ONE, 0), (-ONE, 0)];
    // A = 2 * 2^32, B = 0; log2(A) = 33, shift 19 -> x = 2^14
    assert_eq!(rotation_vector(&p, &q, (0, 0), (0, 0)), Some((1 << 14, 0)));
    let z = vec![(0, 0)];
    assert_eq!(rotation_vector(&z, &z, (0, 0), (0, 0)), None);
}

#[test]
fn apply_rotation_with_identity() {
    let p = vec![(ONE, 2 * ONE), (-3 * ONE, ONE)];
    let r = apply_rotation(&p, (0, 0), (ONE, ONE), 0, ONE);
    assert_eq!(r, vec![(2 * ONE, 3 * ONE), (-2 * ONE, 2 * ONE)]);
    // a quarter turn: (x, y) -> (-y, x)
    let r = apply_rotation(&p, (0, 0), (0, 0), ONE, 0);
    assert_eq!(r, vec![(-2 * ONE, ONE), (-ONE, -3 * ONE)]);
}
