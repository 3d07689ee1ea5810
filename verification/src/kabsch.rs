//! 2-D Kabsch alignment in fixed point.
//!
//! MDS recovers a layout only up to rotation and translation, so successive
//! layouts can come out turned relative to each other. Each new layout is
//! rigidly moved (rotated about its centroid, then translated onto the
//! reference centroid) to best match the previous one. Only proper rotations
//! are used, no reflection and no scaling.
//!
//! With both point sets centred on their centroids, the best rotation angle
//! is `atan2(B, A)` with `A = sum(px*qx + py*qy)` and `B = sum(px*qy - py*qx)`.
//! The sums are formed in 64 bits from the raw I16F16 bits (wrapping), then
//! both are scaled down by the same power of two so that the larger one has
//! about 15 significant bits, which keeps the CORDIC evaluation in range;
//! `atan2`, `sin` and `cos` come from the `cordic` crate.
use vstd::prelude::*;
use fixed::types::I16F16;
use vstd::arithmetic::power2::{lemma_pow2_pos, lemma_pow2_unfold, pow2};
use crate::fixed_point::{
    fx_add, fx_add_spec, fx_div, fx_div_spec, fx_from_int, fx_mul, fx_mul_spec, fx_sub,
    fx_sub_spec, fx_sum, abs_int, lemma_i64_wrapping_add, lemma_wrap64_add, lemma_wrap64_range, wrap64,
};
use crate::mds::{xs, ys, fx_count, MAX_SWARM_SIZE};

verus! {

/// The angle (I16F16 radians) that `cordic::atan2` returns for `y`, `x`.
pub uninterp spec fn cordic_atan2_spec(y: i32, x: i32) -> i32;

/// The `(sin, cos)` pair that `cordic::sin_cos` returns for an angle.
pub uninterp spec fn cordic_sin_cos_spec(angle: i32) -> (i32, i32);

/// Inputs on which `cordic::atan2` stays within the I16F16 range: an axis
/// direction, or both parts below 2^30 in magnitude with `|y| <= 16384 |x|`
/// (so that `y / x` and the CORDIC iterations on it fit).
pub open spec fn atan2_in_range(y: i32, x: i32) -> bool {
    x == 0 || y == 0 || (-0x4000_0000 < x < 0x4000_0000 && -0x4000_0000 < y < 0x4000_0000
        && abs_int(y as int) <= 16384 * abs_int(x as int))
}

/// Calls `cordic::atan2` on I16F16 values. Its result is named by
/// `cordic_atan2_spec`; the source returns -pi/2 or pi/2 (bits -102943,
/// 102943) when `x` is 0, and 0 or pi (bits 205887) when `y` is 0. Inputs
/// where the quotient `y / x` or the CORDIC iterations could leave the
/// I16F16 range (which panics when overflow checks are on) are left out.
#[verifier::external_body]
fn cordic_atan2(y: i32, x: i32) -> (r: i32)
    requires
        atan2_in_range(y, x),
    ensures
        r == cordic_atan2_spec(y, x),
        x == 0 ==> r == (if y < 0 {
            -102943i32
        } else {
            102943i32
        }),
        x != 0 && y == 0 ==> r == (if x >= 0 {
            0i32
        } else {
            205887i32
        }),
{
    cordic::atan2(I16F16::from_bits(y), I16F16::from_bits(x)).to_bits()
}

/// Calls `cordic::sin_cos` on an I16F16 angle; its result is named by
/// `cordic_sin_cos_spec`.
#[verifier::external_body]
fn cordic_sin_cos(angle: i32) -> (r: (i32, i32))
    ensures
        r == cordic_sin_cos_spec(angle),
{
    let (s, c) = cordic::sin_cos(I16F16::from_bits(angle));
    (s.to_bits(), c.to_bits())
}

/// Centroid of a non-empty point set: the wrapping sums divided by the
/// count.
pub open spec fn centroid_spec(p: Seq<(i32, i32)>) -> (i32, i32) {
    (
        fx_div_spec(fx_sum(xs(p)), fx_count(p.len() as int)),
        fx_div_spec(fx_sum(ys(p)), fx_count(p.len() as int)),
    )
}

/// Centroid (mean x, mean y) of a non-empty point set.
pub fn centroid(points: &Vec<(i32, i32)>) -> (c: (i32, i32))
    requires
        1 <= points.len() <= MAX_SWARM_SIZE,
    ensures
        c == centroid_spec(points@),
{
    let n = points.len();
    let n_fixed = fx_from_int(n as i32);
    let mut sum_x: i32 = 0;
    let mut sum_y: i32 = 0;
    for i in 0..n
        invariant
            n == points.len(),
            sum_x == fx_sum(xs(points@).take(i as int)),
            sum_y == fx_sum(ys(points@).take(i as int)),
    {
        assert(xs(points@).take(i + 1).drop_last() =~= xs(points@).take(i as int));
        assert(ys(points@).take(i + 1).drop_last() =~= ys(points@).take(i as int));
        sum_x = fx_add(sum_x, points[i].0);
        sum_y = fx_add(sum_y, points[i].1);
    }
    assert(xs(points@).take(n as int) =~= xs(points@));
    assert(ys(points@).take(n as int) =~= ys(points@));
    (fx_div(sum_x, n_fixed), fx_div(sum_y, n_fixed))
}

/// Exact cross-covariance sums over the first `k` pairs of points, each
/// point taken relative to its set's centroid:
/// `(sum(px*qx + py*qy), sum(px*qy - py*qx))`.
pub open spec fn covariance(
    p: Seq<(i32, i32)>,
    q: Seq<(i32, i32)>,
    pc: (i32, i32),
    qc: (i32, i32),
    k: int,
) -> (int, int)
    decreases k,
{
    if k <= 0 {
        (0, 0)
    } else {
        let prev = covariance(p, q, pc, qc, k - 1);
        let px = fx_sub_spec(p[k - 1].0, pc.0) as int;
        let py = fx_sub_spec(p[k - 1].1, pc.1) as int;
        let qx = fx_sub_spec(q[k - 1].0, qc.0) as int;
        let qy = fx_sub_spec(q[k - 1].1, qc.1) as int;
        (prev.0 + (px * qx + py * qy), prev.1 + (px * qy - py * qx))
    }
}

/// Number of times `m` can be halved before reaching 1 (the floor of
/// log2 `m`, and 0 for `m <= 1`).
pub open spec fn log2_floor(m: nat) -> nat
    decreases m,
{
    if m <= 1 {
        0
    } else {
        1 + log2_floor(m / 2)
    }
}

proof fn lemma_log2_floor(m: nat)
    requires
        m >= 1,
    ensures
        pow2(log2_floor(m)) <= m < pow2(log2_floor(m) + 1),
    decreases m,
{
    lemma_pow2_unfold(log2_floor(m) + 1);
    if m > 1 {
        lemma_log2_floor(m / 2);
        lemma_pow2_unfold(log2_floor(m));
    } else {
        vstd::arithmetic::power2::lemma2_to64();
    }
}

/// How far the covariance sums are shifted down: so that the larger
/// magnitude keeps 15 significant bits.
pub open spec fn scale_shift(mag: nat) -> nat {
    if log2_floor(mag) >= 14 {
        (log2_floor(mag) - 14) as nat
    } else {
        0
    }
}

/// The larger magnitude of the two sums.
pub open spec fn max_magnitude(a: int, b: int) -> nat {
    let ua = if a < 0 {
        -a
    } else {
        a
    };
    let ub = if b < 0 {
        -b
    } else {
        b
    };
    (if ua < ub {
        ub
    } else {
        ua
    }) as nat
}

/// The vector `(x, y)` handed to `atan2`: the wrapped covariance sums `A`
/// and `B`, both divided (rounding down) by the same power of two; `None`
/// when both sums are 0 (no defined rotation).
pub open spec fn rotation_vector_spec(
    p: Seq<(i32, i32)>,
    q: Seq<(i32, i32)>,
    pc: (i32, i32),
    qc: (i32, i32),
) -> Option<(i32, i32)> {
    let cov = covariance(p, q, pc, qc, p.len() as int);
    let a = wrap64(cov.0);
    let b = wrap64(cov.1);
    if a == 0 && b == 0 {
        None
    } else {
        let s = scale_shift(max_magnitude(a, b));
        Some(((a / (pow2(s) as int)) as i32, (b / (pow2(s) as int)) as i32))
    }
}

/// Magnitude of an `i64` as a `u64`.
fn magnitude(a: i64) -> (r: u64)
    ensures
        r == (if a < 0 {
            -a
        } else {
            a as int
        }),
{
    if a < 0 {
        if a == i64::MIN {
            0x8000_0000_0000_0000u64
        } else {
            (-a) as u64
        }
    } else {
        a as u64
    }
}

/// Scales `a` down by `2^shift`, rounding toward negative infinity.
fn scale_down(a: i64, shift: u32) -> (r: i64)
    requires
        shift <= 50,
    ensures
        r == (a as int) / (pow2(shift as nat) as int),
{
    let mut dv: i64 = 1;
    let mut i: u32 = 0;
    proof {
        vstd::arithmetic::power2::lemma2_to64();
    }
    while i < shift
        invariant
            i <= shift <= 50,
            dv == pow2(i as nat),
        decreases shift - i,
    {
        proof {
            lemma_pow2_unfold((i + 1) as nat);
            vstd::arithmetic::power2::lemma_pow2_strictly_increases(i as nat, 50);
            vstd::arithmetic::power2::lemma2_to64_rest();
        }
        dv = dv * 2;
        i = i + 1;
    }
    proof {
        lemma_pow2_pos(shift as nat);
        let q = (a as int) / (dv as int);
        let r = (a as int) % (dv as int);
        vstd::arithmetic::div_mod::lemma_fundamental_div_mod(a as int, dv as int);
        assert(0 <= r < dv);
        assert(i64::MIN <= q <= i64::MAX) by (nonlinear_arith)
            requires
                dv >= 1,
                a == dv * q + r,
                0 <= r < dv,
                i64::MIN <= a <= i64::MAX,
        ;
    }
    a.checked_div_euclid(dv).unwrap()
}

/// One pair's contribution to the covariance sums, wrapped into `i64`.
fn cross_terms(px: i64, py: i64, qx: i64, qy: i64) -> (r: (i64, i64))
    requires
        -0x8000_0000 <= px <= 0x7fff_ffff,
        -0x8000_0000 <= py <= 0x7fff_ffff,
        -0x8000_0000 <= qx <= 0x7fff_ffff,
        -0x8000_0000 <= qy <= 0x7fff_ffff,
    ensures
        r.0 as int == wrap64(px * qx + py * qy),
        r.1 as int == wrap64(px * qy - py * qx),
{
    proof {
        assert(-0x4000_0000_0000_0000 <= px * qx <= 0x4000_0000_0000_0000) by (nonlinear_arith)
            requires
                -0x8000_0000 <= px <= 0x7fff_ffff,
                -0x8000_0000 <= qx <= 0x7fff_ffff,
        ;
        assert(-0x4000_0000_0000_0000 <= py * qy <= 0x4000_0000_0000_0000) by (nonlinear_arith)
            requires
                -0x8000_0000 <= py <= 0x7fff_ffff,
                -0x8000_0000 <= qy <= 0x7fff_ffff,
        ;
        assert(-0x4000_0000_0000_0000 <= px * qy <= 0x4000_0000_0000_0000) by (nonlinear_arith)
            requires
                -0x8000_0000 <= px <= 0x7fff_ffff,
                -0x8000_0000 <= qy <= 0x7fff_ffff,
        ;
        assert(-0x4000_0000_0000_0000 <= py * qx <= 0x4000_0000_0000_0000) by (nonlinear_arith)
            requires
                -0x8000_0000 <= py <= 0x7fff_ffff,
                -0x8000_0000 <= qx <= 0x7fff_ffff,
        ;
    }
    let xx = px * qx;
    let yy = py * qy;
    let xy = px * qy;
    let yx = py * qx;
    proof {
        lemma_i64_wrapping_add(xx, yy);
        lemma_i64_wrapping_add(xy, -yx as i64);
    }
    (xx.wrapping_add(yy), xy.wrapping_add(-yx))
}

/// Adding a wrapped term to a wrapped sum wraps the exact sum.
proof fn lemma_accumulate(a: i64, c: int, t: i64, exact: int)
    requires
        a as int == wrap64(c),
        t as int == wrap64(exact),
    ensures
        a.wrapping_add(t) as int == wrap64(c + exact),
{
    lemma_i64_wrapping_add(a, t);
    lemma_wrap64_add(c, t as int);
    lemma_wrap64_add(exact, c);
}

/// The vector handed to `atan2` for aligning `p` (centroid `pc`) onto `q`
/// (centroid `qc`); `None` when the covariance sums are both 0.
pub fn rotation_vector(
    p: &Vec<(i32, i32)>,
    q: &Vec<(i32, i32)>,
    pc: (i32, i32),
    qc: (i32, i32),
) -> (r: Option<(i32, i32)>)
    requires
        p.len() <= q.len(),
    ensures
        r == rotation_vector_spec(p@, q@, pc, qc),
{
    let n = p.len();
    let mut a: i64 = 0;
    let mut b: i64 = 0;
    for k in 0..n
        invariant
            n == p.len(),
            n <= q.len(),
            a as int == wrap64(covariance(p@, q@, pc, qc, k as int).0),
            b as int == wrap64(covariance(p@, q@, pc, qc, k as int).1),
    {
        let px = fx_sub(p[k].0, pc.0) as i64;
        let py = fx_sub(p[k].1, pc.1) as i64;
        let qx = fx_sub(q[k].0, qc.0) as i64;
        let qy = fx_sub(q[k].1, qc.1) as i64;
        let (ta, tb) = cross_terms(px, py, qx, qy);
        proof {
            let cov = covariance(p@, q@, pc, qc, k as int);
            lemma_accumulate(a, cov.0, ta, px * qx + py * qy);
            lemma_accumulate(b, cov.1, tb, px * qy - py * qx);
        }
        a = a.wrapping_add(ta);
        b = b.wrapping_add(tb);
    }
    if a == 0 && b == 0 {
        return None;
    }
    let ua = magnitude(a);
    let ub = magnitude(b);
    let max_mag = if ua < ub {
        ub
    } else {
        ua
    };
    let ghost mag = max_magnitude(a as int, b as int);
    assert(max_mag == mag);
    // floor(log2(max_mag))
    proof {
        lemma_log2_floor(mag);
        if log2_floor(mag) > 63 {
            vstd::arithmetic::power2::lemma_pow2_strictly_increases(63, log2_floor(mag));
            vstd::arithmetic::power2::lemma2_to64_rest();
        }
    }
    let mut m = max_mag;
    let mut e: u32 = 0;
    while m > 1
        invariant
            1 <= m <= max_mag,
            e + log2_floor(m as nat) == log2_floor(mag),
            log2_floor(mag) <= 63,
            max_mag == mag,
        decreases m,
    {
        m = m / 2;
        e = e + 1;
    }
    let shift: u32 = if e >= 14 {
        e - 14
    } else {
        0
    };
    let x = scale_down(a, shift);
    let y = scale_down(b, shift);
    proof {
        lemma_wrap64_range(covariance(p@, q@, pc, qc, n as int).0);
        lemma_scaled_fits(a as int, mag, shift as nat);
        lemma_scaled_fits(b as int, mag, shift as nat);
    }
    Some((x as i32, y as i32))
}

/// The scaled sums keep at most 15 significant bits.
proof fn lemma_scaled_fits(a: int, mag: nat, s: nat)
    requires
        mag >= 1,
        -mag <= a <= mag,
        s == scale_shift(mag),
    ensures
        -0x8000 <= a / (pow2(s) as int) < 0x8000,
{
    lemma_log2_floor(mag);
    let l = log2_floor(mag);
    lemma_pow2_pos(s);
    vstd::arithmetic::power2::lemma2_to64();
    if l >= 14 {
        vstd::arithmetic::power2::lemma_pow2_adds(s, 15);
        assert(l + 1 == s + 15);
        assert(a < 0x8000 * pow2(s));
        assert(-0x8000 * pow2(s) <= a);
        vstd::arithmetic::div_mod::lemma_div_is_ordered(a, 0x8000 * pow2(s) - 1, pow2(s) as int);
        vstd::arithmetic::div_mod::lemma_div_is_ordered(-0x8000 * pow2(s), a, pow2(s) as int);
        assert((0x8000 * pow2(s) - 1) / (pow2(s) as int) < 0x8000) by (nonlinear_arith)
            requires
                pow2(s) > 0,
        ;
        assert((-0x8000 * pow2(s)) / (pow2(s) as int) == -0x8000) by (nonlinear_arith)
            requires
                pow2(s) > 0,
        ;
    } else {
        assert(s == 0);
        vstd::arithmetic::power2::lemma_pow2_strictly_increases(l + 1, 15);
    }
}

/// The rotation angle: `atan2(y, x)` on the rotation vector, and 0 when the
/// covariance sums are both 0.
pub open spec fn optimal_rotation_spec(
    p: Seq<(i32, i32)>,
    q: Seq<(i32, i32)>,
    pc: (i32, i32),
    qc: (i32, i32),
) -> i32 {
    match rotation_vector_spec(p, q, pc, qc) {
        None => 0,
        Some(v) => cordic_atan2_spec(v.1, v.0),
    }
}

/// The rotation vector is one `atan2` can evaluate without leaving the
/// I16F16 range.
pub open spec fn rotation_in_range(
    p: Seq<(i32, i32)>,
    q: Seq<(i32, i32)>,
    pc: (i32, i32),
    qc: (i32, i32),
) -> bool {
    match rotation_vector_spec(p, q, pc, qc) {
        None => true,
        Some(v) => atan2_in_range(v.1, v.0),
    }
}

/// Optimal proper-rotation angle aligning `current` onto `reference`.
fn optimal_rotation(
    current: &Vec<(i32, i32)>,
    reference: &Vec<(i32, i32)>,
    cur_c: (i32, i32),
    ref_c: (i32, i32),
) -> (theta: i32)
    requires
        current.len() <= reference.len(),
        rotation_in_range(current@, reference@, cur_c, ref_c),
    ensures
        theta == optimal_rotation_spec(current@, reference@, cur_c, ref_c),
{
    match rotation_vector(current, reference, cur_c, ref_c) {
        None => 0,
        Some((x, y)) => cordic_atan2(y, x),
    }
}

/// `pt` rotated about `cur_c` by the angle with the given `(sin, cos)`,
/// then moved onto `ref_c`: `R * (pt - cur_c) + ref_c`.
pub open spec fn rotate_point(
    pt: (i32, i32),
    cur_c: (i32, i32),
    ref_c: (i32, i32),
    sc: (i32, i32),
) -> (i32, i32) {
    let dx = fx_sub_spec(pt.0, cur_c.0);
    let dy = fx_sub_spec(pt.1, cur_c.1);
    (
        fx_add_spec(fx_sub_spec(fx_mul_spec(sc.1, dx), fx_mul_spec(sc.0, dy)), ref_c.0),
        fx_add_spec(fx_add_spec(fx_mul_spec(sc.0, dx), fx_mul_spec(sc.1, dy)), ref_c.1),
    )
}

/// Moves every point of `current` rigidly: rotation about `cur_c` by the
/// angle whose sine and cosine are given, then translation onto `ref_c`.
pub fn apply_rotation(
    current: &Vec<(i32, i32)>,
    cur_c: (i32, i32),
    ref_c: (i32, i32),
    sin: i32,
    cos: i32,
) -> (r: Vec<(i32, i32)>)
    ensures
        r@ == current@.map_values(|pt: (i32, i32)| rotate_point(pt, cur_c, ref_c, (sin, cos))),
{
    let mut out: Vec<(i32, i32)> = Vec::new();
    for i in 0..current.len()
        invariant
            out.len() == i,
            i <= current.len(),
            forall|k: int|
                0 <= k < i ==> #[trigger] out@[k] == rotate_point(
                    current@[k],
                    cur_c,
                    ref_c,
                    (sin, cos),
                ),
    {
        let dx = fx_sub(current[i].0, cur_c.0);
        let dy = fx_sub(current[i].1, cur_c.1);
        let rx = fx_add(fx_sub(fx_mul(cos, dx), fx_mul(sin, dy)), ref_c.0);
        let ry = fx_add(fx_add(fx_mul(sin, dx), fx_mul(cos, dy)), ref_c.1);
        out.push((rx, ry));
    }
    assert(out@ =~= current@.map_values(
        |pt: (i32, i32)| rotate_point(pt, cur_c, ref_c, (sin, cos)),
    ));
    out
}

/// `current` aligned onto `reference`; unchanged when the sets differ in
/// length or are empty.
pub open spec fn align_spec(p: Seq<(i32, i32)>, q: Seq<(i32, i32)>) -> Seq<(i32, i32)> {
    if p.len() == 0 || p.len() != q.len() {
        p
    } else {
        let pc = centroid_spec(p);
        let qc = centroid_spec(q);
        let sc = cordic_sin_cos_spec(optimal_rotation_spec(p, q, pc, qc));
        p.map_values(|pt: (i32, i32)| rotate_point(pt, pc, qc, sc))
    }
}

/// Alignment is defined: the sets differ in length, are empty, or give a
/// rotation vector `atan2` can evaluate.
pub open spec fn align_in_range(p: Seq<(i32, i32)>, q: Seq<(i32, i32)>) -> bool {
    p.len() == 0 || p.len() != q.len() || rotation_in_range(p, q, centroid_spec(p), centroid_spec(q))
}

/// Returns `current` rigidly moved (rotated about its centroid, then
/// translated onto `reference`'s centroid) to best match `reference`. If the
/// two sets differ in length or are empty, `current` is returned unchanged.
pub fn align(current: &Vec<(i32, i32)>, reference: &Vec<(i32, i32)>) -> (r: Vec<(i32, i32)>)
    requires
        current.len() <= MAX_SWARM_SIZE,
        reference.len() <= MAX_SWARM_SIZE,
        align_in_range(current@, reference@),
    ensures
        r@ == align_spec(current@, reference@),
        r.len() == current.len(),
{
    let n = current.len();
    if n == 0 || n != reference.len() {
        let mut out: Vec<(i32, i32)> = Vec::new();
        for i in 0..n
            invariant
                n == current.len(),
                out.len() == i,
                forall|k: int| 0 <= k < i ==> #[trigger] out@[k] == current@[k],
        {
            out.push(current[i]);
        }
        assert(out@ =~= current@);
        return out;
    }
    let cur_c = centroid(current);
    let ref_c = centroid(reference);
    let theta = optimal_rotation(current, reference, cur_c, ref_c);
    let (sin, cos) = cordic_sin_cos(theta);
    apply_rotation(current, cur_c, ref_c, sin, cos)
}

/// Whether `atan2` can evaluate `(y, x)` without leaving the I16F16 range.
fn atan2_ok(y: i32, x: i32) -> (r: bool)
    ensures
        r == atan2_in_range(y, x),
{
    if x == 0 || y == 0 {
        return true;
    }
    if !(-0x4000_0000 < x && x < 0x4000_0000 && -0x4000_0000 < y && y < 0x4000_0000) {
        return false;
    }
    let ax: i64 = if x < 0 { -(x as i64) } else { x as i64 };
    let ay: i64 = if y < 0 { -(y as i64) } else { y as i64 };
    ay <= 16384 * ax
}

/// A copy of a point list.
fn copy_points(p: &Vec<(i32, i32)>) -> (r: Vec<(i32, i32)>)
    ensures
        r@ == p@,
{
    let mut out: Vec<(i32, i32)> = Vec::new();
    for i in 0..p.len()
        invariant
            out.len() == i,
            i <= p.len(),
            forall|k: int| 0 <= k < i ==> #[trigger] out@[k] == p@[k],
    {
        out.push(p[i]);
    }
    assert(out@ =~= p@);
    out
}

/// `align` where the rotation can be evaluated; otherwise `current`
/// unchanged.
pub fn align_or_keep(current: &Vec<(i32, i32)>, reference: &Vec<(i32, i32)>) -> (r: Vec<(i32, i32)>)
    requires
        current.len() <= MAX_SWARM_SIZE,
        reference.len() <= MAX_SWARM_SIZE,
    ensures
        r@ == if align_in_range(current@, reference@) {
            align_spec(current@, reference@)
        } else {
            current@
        },
{
    let n = current.len();
    if n == 0 || n != reference.len() {
        return align(current, reference);
    }
    let cur_c = centroid(current);
    let ref_c = centroid(reference);
    let ok = match rotation_vector(current, reference, cur_c, ref_c) {
        None => true,
        Some((x, y)) => atan2_ok(y, x),
    };
    if ok {
        align(current, reference)
    } else {
        copy_points(current)
    }
}

} // verus!
