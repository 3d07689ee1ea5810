//! Iterative metric multidimensional scaling (unweighted, in the style of
//! SMACOF) in I16F16.
//!
//! Outline of one iteration, on positions `X` and target distances `D`:
//! - compute the pairwise distances of the points in `X`;
//! - build the n x n matrix `B` with `-dist[i][j] / D[i][j]` (the distance
//!   in `X` over the target distance) off the diagonal (0 where the current
//!   distance is not positive or the quotient does not fit) and minus the
//!   row sum on the diagonal, so that every row sums to zero;
//! - update `X <- (1/n) * B * X`;
//! - subtract the mean from `X` (keeps the values centred and stable).
//!
//! Positions are pairs of I16F16 bits; matrices are rows of I16F16 bits.
//! All arithmetic is the wrapping I16F16 arithmetic of `fixed_point`.
use vstd::prelude::*;
use crate::fixed_point::{
    fixed_sqrt, fx_add, fx_add_spec, fx_checked_div, fx_checked_div_spec, fx_div, fx_div_spec,
    fx_from_int, fx_mul, fx_mul_spec, fx_neg, fx_neg_spec, fx_sqrt_spec, fx_sub, fx_sub_spec,
    fx_sum, int_sum, lemma_fx_sum_wraps, lemma_int_sum_update, lemma_wrap32_add,
    lemma_wrap32_periodic, lemma_wrap32_range, wrap32, trunc_div, abs_int, fx_quot,
};
use vstd::arithmetic::div_mod::{lemma_div_denominator, lemma_div_multiples_vanish, lemma_fundamental_div_mod, lemma_mod_bound, lemma_basic_div};

verus! {

/// Largest number of nodes a swarm holds.
pub const MAX_SWARM_SIZE: usize = 10;

/// Number of iterations per solve.
pub const MDS_ITERATIONS: usize = 50;

/// The rows of a matrix, as sequences.
pub open spec fn rows(m: Seq<Vec<i32>>) -> Seq<Seq<i32>> {
    m.map_values(|r: Vec<i32>| r@)
}

/// X coordinates of a point list.
pub open spec fn xs(p: Seq<(i32, i32)>) -> Seq<i32> {
    p.map_values(|q: (i32, i32)| q.0)
}

/// Y coordinates of a point list.
pub open spec fn ys(p: Seq<(i32, i32)>) -> Seq<i32> {
    p.map_values(|q: (i32, i32)| q.1)
}

/// Entry `(i, j)` of `d` exists.
pub open spec fn has_entry(d: Seq<Seq<i32>>, i: int, j: int) -> bool {
    j < d[i].len()
}

/// Every off-diagonal entry `(i, j)` with `i, j < d.len()` exists.
pub open spec fn off_diagonal_present(d: Seq<Seq<i32>>) -> bool {
    forall|i: int, j: int|
        0 <= i < d.len() && 0 <= j < d.len() && i != j ==> #[trigger] has_entry(d, i, j)
}

/// Every row of `d` has at least `n` entries.
pub open spec fn rows_at_least(d: Seq<Seq<i32>>, n: int) -> bool {
    forall|i: int| 0 <= i < d.len() ==> n <= #[trigger] d[i].len()
}

/// Average of two I16F16 values: `(a + b) / 2`.
pub open spec fn sym_avg(a: i32, b: i32) -> i32 {
    fx_div_spec(fx_add_spec(a, b), 131072)
}

/// Entry `(i, j)` of the symmetrised matrix: off-diagonal entries inside the
/// square part are replaced by the average of `(i, j)` and `(j, i)`.
pub open spec fn symmetric_entry(d: Seq<Seq<i32>>, i: int, j: int) -> i32 {
    if j < d.len() && i != j {
        sym_avg(d[i][j], d[j][i])
    } else {
        d[i][j]
    }
}

/// The symmetrised matrix.
pub open spec fn make_symmetric_spec(d: Seq<Seq<i32>>) -> Seq<Seq<i32>> {
    Seq::new(d.len(), |i: int| Seq::new(d[i].len(), |j: int| symmetric_entry(d, i, j)))
}

/// `dt` is the transpose of the square matrix `d`.
pub open spec fn is_transpose(d: Seq<Seq<i32>>, dt: Seq<Seq<i32>>) -> bool {
    &&& dt.len() == d.len()
    &&& forall|i: int| 0 <= i < d.len() ==> #[trigger] d[i].len() == d.len()
    &&& forall|i: int| 0 <= i < d.len() ==> #[trigger] dt[i].len() == d.len()
    &&& forall|i: int, j: int| 0 <= i < d.len() && 0 <= j < d.len() ==> #[trigger] dt[i][j] == d[j][i]
}

/// A square matrix and its transpose symmetrise to the same matrix.
pub proof fn lemma_symmetrise_transpose(d: Seq<Seq<i32>>, dt: Seq<Seq<i32>>)
    requires
        is_transpose(d, dt),
    ensures
        make_symmetric_spec(dt) == make_symmetric_spec(d),
{
    let a = make_symmetric_spec(dt);
    let b = make_symmetric_spec(d);
    assert forall|i: int| 0 <= i < d.len() implies #[trigger] a[i] =~= b[i] by {
        assert forall|j: int| 0 <= j < d.len() implies #[trigger] a[i][j] == b[i][j] by {
            assert(dt[i][j] == d[j][i]);
            assert(dt[j][i] == d[i][j]);
            if i != j {
                assert(fx_add_spec(dt[i][j], dt[j][i]) == fx_add_spec(d[i][j], d[j][i]));
            }
        }
    }
    assert(a =~= b);
}

/// Averaging a value that is itself an average with itself gives it back.
proof fn lemma_sym_avg_self(a: i32, b: i32)
    ensures
        sym_avg(sym_avg(a, b), sym_avg(a, b)) == sym_avg(a, b),
{
    let w = fx_add_spec(a, b);
    lemma_div_by_count(w as int, 2);
    let q = trunc_div(w as int, 2);
    lemma_wrap32_range(q);
    let s = sym_avg(a, b);
    assert(s as int == q);
    if w >= 0 {
        assert(q == (w as int) / 2);
    } else {
        assert(q == -((-(w as int)) / 2));
    }
    assert(-0x8000_0000 <= 2 * q <= 0x7fff_ffff);
    lemma_wrap32_range(2 * q);
    assert(fx_add_spec(s, s) as int == 2 * q);
    lemma_div_by_count(2 * q, 2);
    assert(trunc_div(2 * q, 2) == q);
}

/// Symmetrising twice changes nothing: the symmetrised matrix is already
/// symmetric, and the average of two equal averages is that average.
pub proof fn lemma_make_symmetric_idempotent(d: Seq<Seq<i32>>)
    requires
        off_diagonal_present(d),
    ensures
        make_symmetric_spec(make_symmetric_spec(d)) == make_symmetric_spec(d),
{
    let m = make_symmetric_spec(d);
    let mm = make_symmetric_spec(m);
    assert forall|i: int| 0 <= i < d.len() implies #[trigger] mm[i] =~= m[i] by {
        assert forall|j: int| 0 <= j < m[i].len() implies #[trigger] mm[i][j] == m[i][j] by {
            if j < d.len() && i != j {
                assert(has_entry(d, i, j));
                assert(has_entry(d, j, i));
                assert(m[i][j] == sym_avg(d[i][j], d[j][i]));
                assert(m[j][i] == sym_avg(d[j][i], d[i][j]));
                assert(fx_add_spec(d[j][i], d[i][j]) == fx_add_spec(d[i][j], d[j][i]));
                lemma_sym_avg_self(d[i][j], d[j][i]);
            }
        }
    }
    assert(mm =~= m);
}

/// Replaces each pair of mirrored off-diagonal entries by their average.
pub fn make_symmetric(d: Vec<Vec<i32>>) -> (r: Vec<Vec<i32>>)
    requires
        off_diagonal_present(rows(d@)),
    ensures
        rows(r@) == make_symmetric_spec(rows(d@)),
        r.len() == d.len(),
        forall|i: int| 0 <= i < r.len() ==> #[trigger] r@[i].len() == d@[i].len(),
        forall|i: int, j: int|
            0 <= i < r.len() && 0 <= j < r.len() && i != j ==> r@[i]@[j] == r@[j]@[i],
{
    let n = d.len();
    let ghost dv = rows(d@);
    let mut r: Vec<Vec<i32>> = Vec::new();
    for i in 0..n
        invariant
            n == d.len(),
            dv == rows(d@),
            off_diagonal_present(dv),
            r.len() == i,
            forall|k: int| 0 <= k < i ==> #[trigger] r@[k]@ == make_symmetric_spec(dv)[k],
    {
        let m = d[i].len();
        let mut row: Vec<i32> = Vec::new();
        for j in 0..m
            invariant
                n == d.len(),
                dv == rows(d@),
                off_diagonal_present(dv),
                0 <= i < n,
                m == d@[i as int].len(),
                row.len() == j,
                forall|k: int| 0 <= k < j ==> #[trigger] row@[k] == symmetric_entry(dv, i as int, k),
        {
            let v = if j < n && j != i {
                assert(has_entry(dv, j as int, i as int));
                let s = fx_add(d[i][j], d[j][i]);
                fx_div(s, fx_from_int(2))
            } else {
                d[i][j]
            };
            row.push(v);
        }
        assert(row@ =~= make_symmetric_spec(dv)[i as int]);
        r.push(row);
    }
    assert(rows(r@) =~= make_symmetric_spec(dv));
    assert forall|i: int| 0 <= i < r.len() implies #[trigger] r@[i].len() == d@[i].len() by {
        assert(r@[i]@ == make_symmetric_spec(dv)[i]);
    }
    proof {
        assert forall|i: int, j: int|
            0 <= i < r.len() && 0 <= j < r.len() && i != j implies r@[i]@[j] == r@[j]@[i] by {
            assert(has_entry(dv, i, j));
            assert(has_entry(dv, j, i));
            assert(r@[i]@ == make_symmetric_spec(dv)[i]);
            assert(r@[j]@ == make_symmetric_spec(dv)[j]);
            assert(fx_add_spec(dv[i][j], dv[j][i]) == fx_add_spec(dv[j][i], dv[i][j]));
        }
    }
    r
}

/// Wrapping dot product of the first `k` entries of `row` and `col`.
pub open spec fn fx_dot(row: Seq<i32>, col: Seq<i32>, k: int) -> i32
    decreases k,
{
    if k <= 0 {
        0
    } else {
        fx_add_spec(fx_dot(row, col, k - 1), fx_mul_spec(row[k - 1], col[k - 1]))
    }
}

/// `m * p` for an n x n matrix `m` and n points `p` (an n x 2 matrix).
pub open spec fn mat_mul_spec(m: Seq<Seq<i32>>, p: Seq<(i32, i32)>) -> Seq<(i32, i32)> {
    Seq::new(
        m.len(),
        |i: int| (fx_dot(m[i], xs(p), m.len() as int), fx_dot(m[i], ys(p), m.len() as int)),
    )
}

/// Product of an n x n matrix with an n x 2 matrix.
pub fn mat_mul(m1: &Vec<Vec<i32>>, m2: &Vec<(i32, i32)>) -> (r: Vec<(i32, i32)>)
    requires
        m1.len() <= m2.len(),
        rows_at_least(rows(m1@), m1.len() as int),
    ensures
        r@ == mat_mul_spec(rows(m1@), m2@),
{
    let n = m1.len();
    let ghost mv = rows(m1@);
    let mut result: Vec<(i32, i32)> = Vec::new();
    for i in 0..n
        invariant
            n == m1.len(),
            n <= m2.len(),
            mv == rows(m1@),
            rows_at_least(mv, n as int),
            result.len() == i,
            forall|k: int| 0 <= k < i ==> #[trigger] result@[k] == mat_mul_spec(mv, m2@)[k],
    {
        assert(n <= mv[i as int].len());
        let mut sx: i32 = 0;
        let mut sy: i32 = 0;
        for k in 0..n
            invariant
                n == m1.len(),
                n <= m2.len(),
                mv == rows(m1@),
                0 <= i < n,
                n <= mv[i as int].len(),
                sx == fx_dot(mv[i as int], xs(m2@), k as int),
                sy == fx_dot(mv[i as int], ys(m2@), k as int),
        {
            sx = fx_add(sx, fx_mul(m1[i][k], m2[k].0));
            sy = fx_add(sy, fx_mul(m1[i][k], m2[k].1));
        }
        result.push((sx, sy));
    }
    assert(result@ =~= mat_mul_spec(mv, m2@));
    result
}

/// `n` as an I16F16 value (bits `n * 2^16`).
pub open spec fn fx_count(n: int) -> i32 {
    (n * 65536) as i32
}

/// The points with the mean of each coordinate subtracted; the mean is the
/// wrapping sum divided by the count.
pub open spec fn subtract_mean_spec(p: Seq<(i32, i32)>) -> Seq<(i32, i32)> {
    if p.len() == 0 {
        Seq::empty()
    } else {
        let mx = fx_div_spec(fx_sum(xs(p)), fx_count(p.len() as int));
        let my = fx_div_spec(fx_sum(ys(p)), fx_count(p.len() as int));
        p.map_values(|q: (i32, i32)| (fx_sub_spec(q.0, mx), fx_sub_spec(q.1, my)))
    }
}

/// Dividing by a count in I16F16 is integer division of the bits, rounded
/// toward zero.
proof fn lemma_div_by_count(a: int, n: int)
    requires
        1 <= n <= MAX_SWARM_SIZE,
    ensures
        fx_quot(a, fx_count(n) as int) == trunc_div(a, n),
        fx_count(n) as int == n * 65536,
{
    assert(0 < n * 65536 <= 655360);
    let x = abs_int(a);
    lemma_div_multiples_vanish(x, 65536);
    lemma_div_denominator(x * 65536, 65536, n);
    assert(65536 * x == x * 65536) by (nonlinear_arith);
    if a < 0 {
        assert(-(a * 65536) == (-a) * 65536) by (nonlinear_arith);
    }
    assert(a * 65536 >= 0 <==> a >= 0) by (nonlinear_arith);
}

/// Subtracting `m` from every element changes the wrapping sum by `n * m`.
proof fn lemma_sum_shifted(s: Seq<i32>, m: i32)
    ensures
        fx_sum(s.map_values(|v: i32| fx_sub_spec(v, m))) as int == wrap32(int_sum(s) - s.len() * m),
    decreases s.len(),
{
    let t = s.map_values(|v: i32| fx_sub_spec(v, m));
    if s.len() == 0 {
        assert(wrap32(0) == 0);
    } else {
        let s0 = s.drop_last();
        lemma_sum_shifted(s0, m);
        assert(t.drop_last() =~= s0.map_values(|v: i32| fx_sub_spec(v, m)));
        let a = int_sum(s0) - s0.len() * m;
        let b = s.last() - m;
        lemma_wrap32_range(a);
        lemma_wrap32_range(b);
        lemma_wrap32_range(fx_sum(t.drop_last()) + t.last());
        lemma_wrap32_add(a, wrap32(b));
        lemma_wrap32_add(b, a);
        assert(s.len() * m == s0.len() * m + m) by (nonlinear_arith)
            requires s.len() == s0.len() + 1;
    }
}

/// Once a coordinate has been centred, its mean is zero.
proof fn lemma_centred_mean_zero(s: Seq<i32>)
    requires
        1 <= s.len() <= MAX_SWARM_SIZE,
    ensures
        ({
            let n = s.len() as int;
            let m = fx_div_spec(fx_sum(s), fx_count(n));
            fx_div_spec(fx_sum(s.map_values(|v: i32| fx_sub_spec(v, m))), fx_count(n)) == 0
        }),
{
    let n = s.len() as int;
    let w = fx_sum(s) as int;
    lemma_div_by_count(w, n);
    let q = trunc_div(w, n);
    let x = abs_int(w);
    lemma_fundamental_div_mod(x, n);
    lemma_mod_bound(x, n);
    assert(0 <= x / n <= x);
    let r = w - n * q;
    assert(-n < r < n) by {
        if w >= 0 {
            assert(r == x % n);
        } else {
            assert(q == -(x / n));
            assert(n * q == -(n * (x / n))) by (nonlinear_arith)
                requires q == -(x / n);
            assert(r == -(x % n));
        }
    }
    lemma_wrap32_range(q);
    let m = fx_div_spec(fx_sum(s), fx_count(n));
    assert(m as int == q);
    lemma_sum_shifted(s, m);
    lemma_fx_sum_wraps(s);
    lemma_wrap32_add(int_sum(s), -(n * q));
    lemma_wrap32_range(r);
    let w2 = fx_sum(s.map_values(|v: i32| fx_sub_spec(v, m))) as int;
    assert(w2 == r);
    lemma_div_by_count(w2, n);
    lemma_basic_div(abs_int(r), n);
    lemma_wrap32_range(0);
}

/// Centring is idempotent: subtracting the mean a second time changes
/// nothing, and the number of points stays the same.
pub proof fn lemma_subtract_mean_idempotent(p: Seq<(i32, i32)>)
    requires
        p.len() <= MAX_SWARM_SIZE,
    ensures
        subtract_mean_spec(p).len() == p.len(),
        subtract_mean_spec(subtract_mean_spec(p)) == subtract_mean_spec(p),
{
    if p.len() > 0 {
        let n = p.len() as int;
        let mx = fx_div_spec(fx_sum(xs(p)), fx_count(n));
        let my = fx_div_spec(fx_sum(ys(p)), fx_count(n));
        let c = subtract_mean_spec(p);
        assert(xs(c) =~= xs(p).map_values(|v: i32| fx_sub_spec(v, mx)));
        assert(ys(c) =~= ys(p).map_values(|v: i32| fx_sub_spec(v, my)));
        lemma_centred_mean_zero(xs(p));
        lemma_centred_mean_zero(ys(p));
        assert forall|k: int| 0 <= k < c.len() implies #[trigger] subtract_mean_spec(c)[k] == c[k] by {
            lemma_wrap32_range(c[k].0 - 0);
            lemma_wrap32_range(c[k].1 - 0);
        }
        assert(subtract_mean_spec(c) =~= c);
    }
}

/// Shifts a point set so that its mean is (about) the origin.
pub fn subtract_mean(x: &Vec<(i32, i32)>) -> (r: Vec<(i32, i32)>)
    requires
        x.len() <= MAX_SWARM_SIZE,
    ensures
        r@ == subtract_mean_spec(x@),
{
    let n = x.len();
    if n == 0 {
        return Vec::new();
    }
    let n_fixed = fx_from_int(n as i32);
    let mut sum_x: i32 = 0;
    let mut sum_y: i32 = 0;
    for i in 0..n
        invariant
            n == x.len(),
            sum_x == fx_sum(xs(x@).take(i as int)),
            sum_y == fx_sum(ys(x@).take(i as int)),
    {
        assert(xs(x@).take(i + 1).drop_last() =~= xs(x@).take(i as int));
        assert(ys(x@).take(i + 1).drop_last() =~= ys(x@).take(i as int));
        sum_x = fx_add(sum_x, x[i].0);
        sum_y = fx_add(sum_y, x[i].1);
    }
    assert(xs(x@).take(n as int) =~= xs(x@));
    assert(ys(x@).take(n as int) =~= ys(x@));
    let mean_x = fx_div(sum_x, n_fixed);
    let mean_y = fx_div(sum_y, n_fixed);
    let mut r: Vec<(i32, i32)> = Vec::new();
    for i in 0..n
        invariant
            n == x.len(),
            0 < n,
            mean_x == fx_div_spec(fx_sum(xs(x@)), fx_count(n as int)),
            mean_y == fx_div_spec(fx_sum(ys(x@)), fx_count(n as int)),
            r.len() == i,
            forall|k: int| 0 <= k < i ==> #[trigger] r@[k] == subtract_mean_spec(x@)[k],
    {
        r.push((fx_sub(x[i].0, mean_x), fx_sub(x[i].1, mean_y)));
    }
    assert(r@ =~= subtract_mean_spec(x@));
    r
}

/// Euclidean distance between two points, in I16F16.
pub open spec fn point_dist(a: (i32, i32), b: (i32, i32)) -> i32 {
    let dx = fx_sub_spec(a.0, b.0);
    let dy = fx_sub_spec(a.1, b.1);
    fx_sqrt_spec(fx_add_spec(fx_mul_spec(dx, dx), fx_mul_spec(dy, dy)))
}

/// All pairwise distances of a point set.
pub open spec fn pairwise_spec(p: Seq<(i32, i32)>) -> Seq<Seq<i32>> {
    Seq::new(p.len(), |i: int| Seq::new(p.len(), |j: int| point_dist(p[i], p[j])))
}

/// The n x n matrix of distances between the points of `x`.
pub fn pairwise_distances(x: &Vec<(i32, i32)>) -> (r: Vec<Vec<i32>>)
    ensures
        rows(r@) == pairwise_spec(x@),
{
    let n = x.len();
    let mut dist: Vec<Vec<i32>> = Vec::new();
    for i in 0..n
        invariant
            n == x.len(),
            dist.len() == i,
            forall|k: int| 0 <= k < i ==> #[trigger] dist@[k]@ == pairwise_spec(x@)[k],
    {
        let mut row: Vec<i32> = Vec::new();
        for j in 0..n
            invariant
                n == x.len(),
                0 <= i < n,
                row.len() == j,
                forall|k: int| 0 <= k < j ==> #[trigger] row@[k] == point_dist(x@[i as int], x@[k]),
        {
            let dx = fx_sub(x[i].0, x[j].0);
            let dy = fx_sub(x[i].1, x[j].1);
            let d = fixed_sqrt(fx_add(fx_mul(dx, dx), fx_mul(dy, dy)));
            row.push(d);
        }
        assert(row@ =~= pairwise_spec(x@)[i as int]);
        dist.push(row);
    }
    assert(rows(dist@) =~= pairwise_spec(x@));
    dist
}

/// Swapping the operands of a wrapping subtraction negates the result, up
/// to wrapping, so its square is unchanged.
proof fn lemma_sub_swap_square(a: i32, b: i32)
    ensures
        fx_sub_spec(a, b) as int * fx_sub_spec(a, b) as int == fx_sub_spec(b, a) as int
            * fx_sub_spec(b, a) as int,
{
    let x = a - b;
    let k = (x + 0x8000_0000) / 0x1_0000_0000;
    vstd::arithmetic::div_mod::lemma_fundamental_div_mod(x + 0x8000_0000, 0x1_0000_0000);
    lemma_wrap32_range(x);
    lemma_wrap32_range(-x);
    let w = wrap32(x);
    assert(w == x - 0x1_0000_0000 * k);
    // -x = -w + (-k) * 2^32
    lemma_wrap32_periodic(-w, -k);
    assert(-x == -w + (-k) * 0x1_0000_0000);
    lemma_wrap32_range(-w);
    if w != -0x8000_0000 {
        assert(wrap32(-x) == -w);
    } else {
        assert(wrap32(-w) == -0x8000_0000) by {
            vstd::arithmetic::div_mod::lemma_mod_multiples_vanish(1, 0, 0x1_0000_0000);
        }
    }
    assert(wrap32(-x) == w || wrap32(-x) == -w);
    assert(fx_sub_spec(b, a) as int == wrap32(-x));
    if wrap32(-x) == -w {
        assert((-w) * (-w) == w * w) by (nonlinear_arith);
    }
}

/// The distance matrix of a layout is symmetric with a zero diagonal.
pub proof fn lemma_pairwise_symmetric(p: Seq<(i32, i32)>, i: int, j: int)
    requires
        0 <= i < p.len(),
        0 <= j < p.len(),
    ensures
        pairwise_spec(p)[i][j] == pairwise_spec(p)[j][i],
        pairwise_spec(p)[i][i] == 0,
{
    lemma_sub_swap_square(p[i].0, p[j].0);
    lemma_sub_swap_square(p[i].1, p[j].1);
    let dx = fx_sub_spec(p[i].0, p[j].0);
    let dx2 = fx_sub_spec(p[j].0, p[i].0);
    let dy = fx_sub_spec(p[i].1, p[j].1);
    let dy2 = fx_sub_spec(p[j].1, p[i].1);
    assert(fx_mul_spec(dx, dx) == fx_mul_spec(dx2, dx2));
    assert(fx_mul_spec(dy, dy) == fx_mul_spec(dy2, dy2));
    lemma_wrap32_range(0);
    assert(fx_sub_spec(p[i].0, p[i].0) == 0);
    assert(fx_sub_spec(p[i].1, p[i].1) == 0);
    assert(fx_mul_spec(0, 0) == 0);
    assert(fx_add_spec(0, 0) == 0);
}

/// Off-diagonal entry of the matrix `B`: minus the current distance over
/// the target distance, `-(dist[i][j] / D[i][j])`, where the current
/// distance is positive (0 when the quotient does not fit or the target
/// distance is 0), and 0 elsewhere; the diagonal starts at 0.
pub open spec fn stress_entry(dd: Seq<Seq<i32>>, dist: Seq<Seq<i32>>, i: int, j: int) -> i32 {
    if i == j {
        0
    } else if dist[i][j] > 0 {
        match fx_checked_div_spec(dist[i][j], dd[i][j]) {
            Some(q) => fx_neg_spec(q),
            None => fx_neg_spec(0),
        }
    } else {
        0
    }
}

/// Row `i` of `B` before its diagonal is set.
pub open spec fn stress_row_off(dd: Seq<Seq<i32>>, dist: Seq<Seq<i32>>, i: int, n: int) -> Seq<
    i32,
> {
    Seq::new(n as nat, |j: int| stress_entry(dd, dist, i, j))
}

/// Row `i` of `B`: the diagonal is minus the sum of the row.
pub open spec fn stress_row(dd: Seq<Seq<i32>>, dist: Seq<Seq<i32>>, i: int, n: int) -> Seq<i32> {
    let off = stress_row_off(dd, dist, i, n);
    off.update(i, fx_neg_spec(fx_sum(off)))
}

/// The matrix `B` for target distances `dd` and current distances `dist`.
pub open spec fn stress_spec(dd: Seq<Seq<i32>>, dist: Seq<Seq<i32>>, n: int) -> Seq<Seq<i32>> {
    Seq::new(n as nat, |i: int| stress_row(dd, dist, i, n))
}

/// Every row of `B` sums to zero (in the wrapping arithmetic that computes
/// it).
pub proof fn lemma_stress_rows_sum_to_zero(dd: Seq<Seq<i32>>, dist: Seq<Seq<i32>>, i: int, n: int)
    requires
        0 <= i < n,
    ensures
        fx_sum(stress_row(dd, dist, i, n)) == 0,
{
    let off = stress_row_off(dd, dist, i, n);
    let s = int_sum(off);
    let w = fx_sum(off);
    let row = stress_row(dd, dist, i, n);
    lemma_fx_sum_wraps(off);
    lemma_fx_sum_wraps(row);
    lemma_int_sum_update(off, i, fx_neg_spec(w));
    assert(off[i] == 0);
    lemma_wrap32_range(-w);
    // int_sum(row) == s + wrap32(-wrap32(s))
    lemma_wrap32_add(-(w as int), s);
    // wrap32(s) == s - 2^32 * k
    let k = (s + 0x8000_0000) / 0x1_0000_0000;
    vstd::arithmetic::div_mod::lemma_fundamental_div_mod(s + 0x8000_0000, 0x1_0000_0000);
    assert(w == s - 0x1_0000_0000 * k);
    lemma_wrap32_periodic(0, k);
    assert(-(w as int) + s == k * 0x1_0000_0000);
    assert(wrap32(0) == 0);
}

/// Builds `B` for target distances `dd` and the current distances `dist`.
fn stress_matrix(dd: &Vec<Vec<i32>>, dist: &Vec<Vec<i32>>, n: usize) -> (b: Vec<Vec<i32>>)
    requires
        n <= dd.len(),
        n <= dist.len(),
        off_diagonal_present(rows(dd@).take(n as int)),
        rows_at_least(rows(dist@).take(n as int), n as int),
    ensures
        rows(b@) == stress_spec(rows(dd@), rows(dist@), n as int),
        b.len() == n,
        rows_at_least(rows(b@), n as int),
{
    let ghost dv = rows(dd@);
    let ghost tv = rows(dist@);
    let mut b: Vec<Vec<i32>> = Vec::new();
    for i in 0..n
        invariant
            n <= dd.len(),
            n <= dist.len(),
            dv == rows(dd@),
            tv == rows(dist@),
            off_diagonal_present(dv.take(n as int)),
            rows_at_least(tv.take(n as int), n as int),
            b.len() == i,
            forall|k: int| 0 <= k < i ==> #[trigger] b@[k]@ == stress_spec(dv, tv, n as int)[k],
    {
        assert(n <= tv.take(n as int)[i as int].len());
        let mut row: Vec<i32> = Vec::new();
        for j in 0..n
            invariant
                n <= dd.len(),
                n <= dist.len(),
                dv == rows(dd@),
                tv == rows(dist@),
                off_diagonal_present(dv.take(n as int)),
                0 <= i < n,
                n <= tv[i as int].len(),
                row.len() == j,
                forall|k: int|
                    0 <= k < j ==> #[trigger] row@[k] == stress_entry(dv, tv, i as int, k),
        {
            let val = if i == j {
                0
            } else if dist[i][j] > 0 {
                assert(has_entry(dv.take(n as int), i as int, j as int));
                let scale = match fx_checked_div(dist[i][j], dd[i][j]) {
                    Some(q) => q,
                    None => 0,
                };
                fx_neg(scale)
            } else {
                0
            };
            row.push(val);
        }
        assert(row@ =~= stress_row_off(dv, tv, i as int, n as int));
        let mut off_diag_sum: i32 = 0;
        for k in 0..n
            invariant
                0 <= i < n,
                row@ == stress_row_off(dv, tv, i as int, n as int),
                off_diag_sum == fx_sum(row@.take(k as int)),
        {
            assert(row@.take(k + 1).drop_last() =~= row@.take(k as int));
            off_diag_sum = fx_add(off_diag_sum, row[k]);
        }
        assert(row@.take(n as int) =~= row@);
        let diag = fx_neg(off_diag_sum);
        row.set(i, diag);
        assert(row@ =~= stress_spec(dv, tv, n as int)[i as int]);
        b.push(row);
    }
    assert(rows(b@) =~= stress_spec(dv, tv, n as int));
    assert(rows_at_least(rows(b@), n as int)) by {
        assert forall|i: int| 0 <= i < rows(b@).len() implies n <= #[trigger] rows(b@)[i].len() by {
            assert(rows(b@)[i] == stress_spec(dv, tv, n as int)[i]);
        }
    }
    b
}

/// Each coordinate divided by `n` (as I16F16).
pub open spec fn scale_spec(p: Seq<(i32, i32)>, n: int) -> Seq<(i32, i32)> {
    p.map_values(
        |q: (i32, i32)| (fx_div_spec(q.0, fx_count(n)), fx_div_spec(q.1, fx_count(n))),
    )
}

/// One iteration: `X <- subtract_mean((1/n) * B * X)`.
pub open spec fn mds_step_spec(dd: Seq<Seq<i32>>, x: Seq<(i32, i32)>) -> Seq<(i32, i32)> {
    let n = dd.len() as int;
    let b = stress_spec(dd, pairwise_spec(x), n);
    subtract_mean_spec(scale_spec(mat_mul_spec(b, x), n))
}

/// `k` iterations starting from `x`.
pub open spec fn mds_iterate_spec(dd: Seq<Seq<i32>>, x: Seq<(i32, i32)>, k: nat) -> Seq<
    (i32, i32),
>
    decreases k,
{
    if k == 0 {
        x
    } else {
        mds_step_spec(dd, mds_iterate_spec(dd, x, (k - 1) as nat))
    }
}

/// The points with their two coordinates exchanged.
pub open spec fn swap_xy(p: Seq<(i32, i32)>) -> Seq<(i32, i32)> {
    p.map_values(|q: (i32, i32)| (q.1, q.0))
}

proof fn lemma_swap_columns(p: Seq<(i32, i32)>)
    ensures
        xs(swap_xy(p)) == ys(p),
        ys(swap_xy(p)) == xs(p),
        swap_xy(p).len() == p.len(),
{
    assert(xs(swap_xy(p)) =~= ys(p));
    assert(ys(swap_xy(p)) =~= xs(p));
}

proof fn lemma_swap_pairwise(p: Seq<(i32, i32)>)
    ensures
        pairwise_spec(swap_xy(p)) == pairwise_spec(p),
{
    let q = swap_xy(p);
    assert forall|i: int| 0 <= i < p.len() implies #[trigger] pairwise_spec(q)[i] =~= pairwise_spec(p)[i] by {
        assert forall|j: int| 0 <= j < p.len() implies #[trigger] pairwise_spec(q)[i][j] == pairwise_spec(p)[i][j] by {
            let dx = fx_sub_spec(p[i].0, p[j].0);
            let dy = fx_sub_spec(p[i].1, p[j].1);
            assert(fx_add_spec(fx_mul_spec(dy, dy), fx_mul_spec(dx, dx)) == fx_add_spec(
                fx_mul_spec(dx, dx),
                fx_mul_spec(dy, dy),
            ));
        }
    }
    assert(pairwise_spec(q) =~= pairwise_spec(p));
}

proof fn lemma_swap_subtract_mean(p: Seq<(i32, i32)>)
    ensures
        subtract_mean_spec(swap_xy(p)) == swap_xy(subtract_mean_spec(p)),
{
    lemma_swap_columns(p);
    assert(subtract_mean_spec(swap_xy(p)) =~= swap_xy(subtract_mean_spec(p)));
}

/// One iteration treats the two coordinates alike: exchanging x and y in
/// every point of the layout before the iteration gives the iterated layout
/// with x and y exchanged.
pub proof fn lemma_step_commutes_with_swap(dd: Seq<Seq<i32>>, x: Seq<(i32, i32)>)
    ensures
        mds_step_spec(dd, swap_xy(x)) == swap_xy(mds_step_spec(dd, x)),
{
    let n = dd.len() as int;
    lemma_swap_pairwise(x);
    lemma_swap_columns(x);
    let b = stress_spec(dd, pairwise_spec(x), n);
    let y = mat_mul_spec(b, x);
    assert(mat_mul_spec(b, swap_xy(x)) =~= swap_xy(y));
    assert(scale_spec(swap_xy(y), n) =~= swap_xy(scale_spec(y, n)));
    lemma_swap_subtract_mean(scale_spec(y, n));
}

/// Any number of iterations commutes with exchanging the coordinates.
pub proof fn lemma_iterate_commutes_with_swap(dd: Seq<Seq<i32>>, x: Seq<(i32, i32)>, k: nat)
    ensures
        mds_iterate_spec(dd, swap_xy(x), k) == swap_xy(mds_iterate_spec(dd, x, k)),
    decreases k,
{
    if k > 0 {
        lemma_iterate_commutes_with_swap(dd, x, (k - 1) as nat);
        lemma_step_commutes_with_swap(dd, mds_iterate_spec(dd, x, (k - 1) as nat));
    }
}

/// Exact (unwrapped) sum of the first `k` products `row[m] * col[m]` as
/// `fx_mul` forms them.
pub open spec fn dot_int(row: Seq<i32>, col: Seq<i32>, k: int) -> int
    decreases k,
{
    if k <= 0 {
        0
    } else {
        dot_int(row, col, k - 1) + fx_mul_spec(row[k - 1], col[k - 1])
    }
}

/// The wrapping dot product is the exact sum of the products, wrapped.
proof fn lemma_fx_dot_wraps(row: Seq<i32>, col: Seq<i32>, k: int)
    requires
        0 <= k,
    ensures
        fx_dot(row, col, k) as int == wrap32(dot_int(row, col, k)),
    decreases k,
{
    if k == 0 {
        assert(wrap32(0) == 0);
    } else {
        lemma_fx_dot_wraps(row, col, k - 1);
        let t = fx_mul_spec(row[k - 1], col[k - 1]) as int;
        lemma_wrap32_range(fx_dot(row, col, k - 1) + t);
        lemma_wrap32_add(dot_int(row, col, k - 1), t);
    }
}

/// `fx_mul` of a whole number `c` (bits `c * 2^16`) by `v` is `c * v` when
/// that fits.
proof fn lemma_mul_whole(c: int, v: i32)
    requires
        -1 <= c <= 9,
        -0x0800_0000 <= v <= 0x0800_0000,
    ensures
        fx_mul_spec((c * 65536) as i32, v) as int == c * v,
{
    assert(-0x8000_0000 <= c * 65536 <= 0x7fff_ffff);
    assert(((c * 65536) as i32) as int == c * 65536);
    assert((c * 65536) * v == 65536 * (c * v)) by (nonlinear_arith);
    lemma_div_multiples_vanish(c * v, 65536);
    assert(-0x8000_0000 <= c * v <= 0x7fff_ffff) by (nonlinear_arith)
        requires
            -1 <= c <= 9,
            -0x0800_0000 <= v <= 0x0800_0000,
    ;
    lemma_wrap32_range(c * v);
}

/// Against the row with `(n - 1)` (as I16F16) at `i` and `-1` elsewhere, the
/// exact dot product of a column over its first `k` entries is
/// `n * col[i]` (once `i` is passed) minus the sum of those entries.
proof fn lemma_unit_row_dot(row: Seq<i32>, col: Seq<i32>, n: int, i: int, k: int)
    requires
        1 <= n <= MAX_SWARM_SIZE,
        0 <= i < n,
        0 <= k <= n,
        row.len() == n,
        col.len() == n,
        forall|m: int| 0 <= m < n ==> #[trigger] row[m] == (if m == i { (n - 1) * 65536 } else { -65536 }),
        forall|m: int| 0 <= m < n ==> -0x0800_0000 <= #[trigger] col[m] <= 0x0800_0000,
    ensures
        dot_int(row, col, k) == (if i < k { n * col[i] } else { 0 }) - int_sum(col.take(k)),
    decreases k,
{
    if k == 0 {
        assert(col.take(0) =~= Seq::<i32>::empty());
    } else {
        lemma_unit_row_dot(row, col, n, i, k - 1);
        assert(col.take(k).drop_last() =~= col.take(k - 1));
        let m = k - 1;
        if m == i {
            lemma_mul_whole(n - 1, col[m]);
            assert((n - 1) * col[m] + col[m] == n * col[m]) by (nonlinear_arith);
        } else {
            lemma_mul_whole(-1, col[m]);
        }
    }
}

/// Sum of the first `k` entries of a row that is 0 at `i` and `-1` (as
/// I16F16) elsewhere.
proof fn lemma_off_row_sum(off: Seq<i32>, i: int, k: int)
    requires
        0 <= k <= off.len(),
        forall|m: int| 0 <= m < off.len() ==> #[trigger] off[m] == (if m == i { 0 } else { -65536 }),
    ensures
        int_sum(off.take(k)) == -65536 * (if 0 <= i < k { k - 1 } else { k }),
    decreases k,
{
    if k == 0 {
        assert(off.take(0) =~= Seq::<i32>::empty());
    } else {
        lemma_off_row_sum(off, i, k - 1);
        assert(off.take(k).drop_last() =~= off.take(k - 1));
    }
}

/// What the step lemma assumes of the layout `x` and targets `dd`.
pub open spec fn matching_layout(dd: Seq<Seq<i32>>, x: Seq<(i32, i32)>) -> bool {
    &&& 1 <= x.len() <= MAX_SWARM_SIZE
    &&& dd.len() == x.len()
    &&& forall|i: int| 0 <= i < x.len() ==> #[trigger] dd[i].len() == x.len()
    &&& forall|i: int, j: int|
        0 <= i < x.len() && 0 <= j < x.len() && i != j ==> #[trigger] dd[i][j] == pairwise_spec(x)[i][j]
            && dd[i][j] > 0
    &&& int_sum(xs(x)) == 0
    &&& int_sum(ys(x)) == 0
    &&& forall|i: int|
        0 <= i < x.len() ==> -0x0800_0000 <= (#[trigger] x[i]).0 <= 0x0800_0000 && -0x0800_0000
            <= x[i].1 <= 0x0800_0000
}

proof fn lemma_matching_b_entry(dd: Seq<Seq<i32>>, x: Seq<(i32, i32)>, i: int, m: int)
    requires
        matching_layout(dd, x),
        0 <= i < x.len(),
        0 <= m < x.len(),
    ensures
        stress_spec(dd, pairwise_spec(x), x.len() as int)[i][m] == (if m == i {
            (x.len() - 1) * 65536
        } else {
            -65536
        }),
        stress_spec(dd, pairwise_spec(x), x.len() as int)[i].len() == x.len(),
{
    let n = x.len() as int;
    let dist = pairwise_spec(x);
    let off = stress_row_off(dd, dist, i, n);
    assert forall|k: int| 0 <= k < off.len() implies #[trigger] off[k] == (if k == i {
        0
    } else {
        -65536
    }) by {
        if k != i {
            let d = dd[i][k];
            assert(dist[i][k] == d && d > 0);
            lemma_div_multiples_vanish(65536, d as int);
            assert((d as int) * 65536 == 65536 * (d as int)) by (nonlinear_arith);
            assert(fx_quot(d as int, d as int) == 65536);
            lemma_wrap32_range(-65536);
        }
    }
    lemma_off_row_sum(off, i, n);
    assert(off.take(n) =~= off);
    lemma_fx_sum_wraps(off);
    lemma_wrap32_range(-65536 * (n - 1));
    lemma_wrap32_range(65536 * (n - 1));
}

proof fn lemma_matching_scaled_point(dd: Seq<Seq<i32>>, x: Seq<(i32, i32)>, i: int)
    requires
        matching_layout(dd, x),
        0 <= i < x.len(),
    ensures
        scale_spec(
            mat_mul_spec(stress_spec(dd, pairwise_spec(x), x.len() as int), x),
            x.len() as int,
        )[i] == x[i],
{
    let n = x.len() as int;
    let b = stress_spec(dd, pairwise_spec(x), n);
    let y = mat_mul_spec(b, x);
    let row = b[i];
    lemma_matching_b_entry(dd, x, i, 0);
    assert forall|m: int| 0 <= m < n implies #[trigger] row[m] == (if m == i {
        (n - 1) * 65536
    } else {
        -65536
    }) by {
        lemma_matching_b_entry(dd, x, i, m);
    }
    assert forall|m: int| 0 <= m < n implies -0x0800_0000 <= #[trigger] xs(x)[m] <= 0x0800_0000 by {
        assert(xs(x)[m] == x[m].0);
    }
    assert forall|m: int| 0 <= m < n implies -0x0800_0000 <= #[trigger] ys(x)[m] <= 0x0800_0000 by {
        assert(ys(x)[m] == x[m].1);
    }
    lemma_unit_row_dot(row, xs(x), n, i, n);
    lemma_unit_row_dot(row, ys(x), n, i, n);
    assert(xs(x).take(n) =~= xs(x));
    assert(ys(x).take(n) =~= ys(x));
    lemma_fx_dot_wraps(row, xs(x), n);
    lemma_fx_dot_wraps(row, ys(x), n);
    let ax = x[i].0 as int;
    let ay = x[i].1 as int;
    lemma_scaled_whole(n, ax);
    lemma_scaled_whole(n, ay);
    assert(y[i].0 as int == n * ax);
    assert(y[i].1 as int == n * ay);
}

/// `n * a` fits, and dividing it by the count `n` gives `a` back.
proof fn lemma_scaled_whole(n: int, a: int)
    requires
        1 <= n <= MAX_SWARM_SIZE,
        -0x0800_0000 <= a <= 0x0800_0000,
    ensures
        -0x8000_0000 <= n * a <= 0x7fff_ffff,
        wrap32(n * a) == n * a,
        fx_div_spec((n * a) as i32, fx_count(n)) as int == a,
{
    assert(-0x8000_0000 <= n * a <= 0x7fff_ffff) by (nonlinear_arith)
        requires
            1 <= n <= 10,
            -0x0800_0000 <= a <= 0x0800_0000,
    ;
    lemma_wrap32_range(n * a);
    lemma_div_by_count(n * a, n);
    lemma_div_multiples_vanish(abs_int(a), n);
    assert(abs_int(n * a) == n * abs_int(a)) by (nonlinear_arith)
        requires
            1 <= n,
    ;
    assert(n * a >= 0 <==> a >= 0) by (nonlinear_arith)
        requires
            1 <= n,
    ;
    assert(trunc_div(n * a, n) == a);
    lemma_wrap32_range(a);
}

/// A layout that already has the target distances, is centred exactly
/// (both coordinate sums are 0) and lies well inside the I16F16 range is
/// kept by an iteration: every off-diagonal entry of `B` is `-1`, so
/// `(1/n) * B * X` is `X` in both coordinates, and its mean is 0.
pub proof fn lemma_step_keeps_matching_layout(dd: Seq<Seq<i32>>, x: Seq<(i32, i32)>)
    requires
        matching_layout(dd, x),
    ensures
        mds_step_spec(dd, x) == x,
{
    let n = x.len() as int;
    let b = stress_spec(dd, pairwise_spec(x), n);
    let sc = scale_spec(mat_mul_spec(b, x), n);
    assert forall|i: int| 0 <= i < n implies #[trigger] sc[i] == x[i] by {
        lemma_matching_scaled_point(dd, x, i);
    }
    assert(sc =~= x);
    lemma_fx_sum_wraps(xs(x));
    lemma_fx_sum_wraps(ys(x));
    assert(wrap32(0) == 0);
    lemma_div_by_count(0, n);
    lemma_wrap32_range(0);
    assert forall|i: int| 0 <= i < n implies #[trigger] subtract_mean_spec(x)[i] == x[i] by {
        lemma_wrap32_range(x[i].0 - 0);
        lemma_wrap32_range(x[i].1 - 0);
    }
    assert(subtract_mean_spec(x) =~= x);
}

/// A matching layout is kept by any number of iterations, so `compute`
/// returns it unchanged when it is the solver's current layout.
pub proof fn lemma_iterate_keeps_matching_layout(dd: Seq<Seq<i32>>, x: Seq<(i32, i32)>, k: nat)
    requires
        matching_layout(dd, x),
    ensures
        mds_iterate_spec(dd, x, k) == x,
    decreases k,
{
    if k > 0 {
        lemma_iterate_keeps_matching_layout(dd, x, (k - 1) as nat);
        lemma_step_keeps_matching_layout(dd, x);
    }
}

/// The random starting layout: point `k` takes the high 16 bits of
/// `words[2k]` and `words[2k + 1]` as the fractional bits of x and y (a
/// value in [0, 1)), and the layout is then centred.
pub open spec fn initial_layout_spec(n: int, words: Seq<u32>) -> Seq<(i32, i32)> {
    subtract_mean_spec(
        Seq::new(
            n as nat,
            |k: int| ((words[2 * k] >> 16u32) as i32, (words[2 * k + 1] >> 16u32) as i32),
        ),
    )
}

/// A random starting layout for `n` points, drawn from `random_words`
/// (two words per point).
pub fn initialize_mds(n: usize, random_words: &[u32]) -> (r: Vec<(i32, i32)>)
    requires
        n <= MAX_SWARM_SIZE,
        2 * n <= random_words@.len(),
    ensures
        r@ == initial_layout_spec(n as int, random_words@),
        r.len() == n,
{
    let mut raw: Vec<(i32, i32)> = Vec::new();
    for k in 0..n
        invariant
            n <= MAX_SWARM_SIZE,
            2 * n <= random_words@.len(),
            raw.len() == k,
            forall|j: int|
                0 <= j < k ==> #[trigger] raw@[j] == (
                    (random_words@[2 * j] >> 16u32) as i32,
                    (random_words@[2 * j + 1] >> 16u32) as i32,
                ),
    {
        let x = (random_words[2 * k] >> 16) as i32;
        let y = (random_words[2 * k + 1] >> 16) as i32;
        raw.push((x, y));
    }
    assert(raw@ =~= Seq::new(
        n as nat,
        |k: int|
            ((random_words@[2 * k] >> 16u32) as i32, (random_words@[2 * k + 1] >> 16u32) as i32),
    ));
    subtract_mean(&raw)
}

/// The MDS solver; it keeps the last layout so that the next solve starts
/// from it.
pub struct MDS {
    x: Vec<(i32, i32)>,
}

impl MDS {
    /// The current layout.
    pub closed spec fn layout(&self) -> Seq<(i32, i32)> {
        self.x@
    }

    /// A solver with no layout yet.
    pub fn new() -> (s: MDS)
        ensures
            s.layout() == Seq::<(i32, i32)>::empty(),
    {
        MDS { x: Vec::new() }
    }

    /// The current layout.
    pub fn positions(&self) -> (r: &Vec<(i32, i32)>)
        ensures
            r@ == self.layout(),
    {
        &self.x
    }

    /// Symmetrises `d` and makes sure the layout has one point per row,
    /// starting afresh from `random_words` when it had another size (or
    /// none). Returns the symmetrised target distances.
    pub fn prepare(&mut self, d: Vec<Vec<i32>>, random_words: &[u32]) -> (dd: Vec<Vec<i32>>)
        requires
            d.len() <= MAX_SWARM_SIZE,
            off_diagonal_present(rows(d@)),
            old(self).layout().len() == 0 || old(self).layout().len() != d.len() ==> 2 * d.len()
                <= random_words@.len(),
        ensures
            rows(dd@) == make_symmetric_spec(rows(d@)),
            final(self).layout() == (if old(self).layout().len() == 0 || old(self).layout().len()
                != d.len() {
                initial_layout_spec(d.len() as int, random_words@)
            } else {
                old(self).layout()
            }),
            final(self).layout().len() == d.len(),
            dd.len() == d.len(),
            off_diagonal_present(rows(dd@)),
    {
        let ghost dv = rows(d@);
        let dd = make_symmetric(d);
        proof {
            assert forall|i: int, j: int|
                0 <= i < dd.len() && 0 <= j < dd.len() && i != j implies #[trigger] has_entry(
                rows(dd@),
                i,
                j,
            ) by {
                assert(has_entry(dv, i, j));
            }
        }
        let n = dd.len();
        if self.x.len() == 0 || self.x.len() != n {
            self.x = initialize_mds(n, random_words);
        }
        dd
    }

    /// One iteration against the symmetrised distances `dd`.
    pub fn iterate(&mut self, dd: &Vec<Vec<i32>>)
        requires
            dd.len() <= MAX_SWARM_SIZE,
            off_diagonal_present(rows(dd@)),
            old(self).layout().len() == dd.len(),
        ensures
            final(self).layout() == mds_step_spec(rows(dd@), old(self).layout()),
            final(self).layout().len() == dd.len(),
    {
        let n = dd.len();
        let dist = pairwise_distances(&self.x);
        assert(rows(dd@).take(n as int) =~= rows(dd@));
        assert(rows(dist@).take(n as int) =~= rows(dist@));
        let b = stress_matrix(dd, &dist, n);
        let y = mat_mul(&b, &self.x);
        let mut scaled: Vec<(i32, i32)> = Vec::new();
        if n > 0 {
            let n_fixed = fx_from_int(n as i32);
            for i in 0..y.len()
                invariant
                    0 < n <= MAX_SWARM_SIZE,
                    n_fixed == fx_count(n as int),
                    scaled.len() == i,
                    forall|k: int|
                        0 <= k < i ==> #[trigger] scaled@[k] == scale_spec(y@, n as int)[k],
            {
                scaled.push((fx_div(y[i].0, n_fixed), fx_div(y[i].1, n_fixed)));
            }
        }
        assert(scaled@ =~= scale_spec(y@, n as int));
        self.x = subtract_mean(&scaled);
    }

    /// The layout `compute` returns depends on the distance matrix only
    /// through its symmetrisation: from the same solver state and random
    /// words, a square matrix and its transpose give the same layout.
    pub proof fn lemma_compute_transpose(
        d: Seq<Seq<i32>>,
        dt: Seq<Seq<i32>>,
        layout: Seq<(i32, i32)>,
        random_words: Seq<u32>,
    )
        requires
            is_transpose(d, dt),
        ensures
            mds_iterate_spec(
                make_symmetric_spec(dt),
                if layout.len() == 0 || layout.len() != dt.len() {
                    initial_layout_spec(dt.len() as int, random_words)
                } else {
                    layout
                },
                MDS_ITERATIONS as nat,
            ) == mds_iterate_spec(
                make_symmetric_spec(d),
                if layout.len() == 0 || layout.len() != d.len() {
                    initial_layout_spec(d.len() as int, random_words)
                } else {
                    layout
                },
                MDS_ITERATIONS as nat,
            ),
    {
        lemma_symmetrise_transpose(d, dt);
    }

    /// Runs the solver on the (not necessarily symmetric) distance matrix
    /// `d` and returns the new layout: the matrix is symmetrised, the layout
    /// restarts from `random_words` when the number of nodes changed, and
    /// `MDS_ITERATIONS` iterations are run.
    pub fn compute(&mut self, d: Vec<Vec<i32>>, random_words: &[u32]) -> (r: &Vec<(i32, i32)>)
        requires
            d.len() <= MAX_SWARM_SIZE,
            off_diagonal_present(rows(d@)),
            old(self).layout().len() == 0 || old(self).layout().len() != d.len() ==> 2 * d.len()
                <= random_words@.len(),
        ensures
            r@ == final(self).layout(),
            final(self).layout() == mds_iterate_spec(
                make_symmetric_spec(rows(d@)),
                if old(self).layout().len() == 0 || old(self).layout().len() != d.len() {
                    initial_layout_spec(d.len() as int, random_words@)
                } else {
                    old(self).layout()
                },
                MDS_ITERATIONS as nat,
            ),
    {
        let dd = self.prepare(d, random_words);
        let ghost start = self.layout();
        for it in 0..MDS_ITERATIONS
            invariant
                dd.len() <= MAX_SWARM_SIZE,
                off_diagonal_present(rows(dd@)),
                self.layout().len() == dd.len(),
                self.layout() == mds_iterate_spec(rows(dd@), start, it as nat),
        {
            self.iterate(&dd);
        }
        &self.x
    }
}

} // verus!
