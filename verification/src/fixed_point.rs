//! I16F16 fixed-point arithmetic.
//!
//! A value is carried as its raw `i32` bits (value = bits / 2^16). The
//! arithmetic itself is done by the `fixed` crate; each call is made in a
//! small trusted wrapper whose contract states what `fixed` computes on the
//! bits. All operations wrap on overflow, which is what the `fixed`
//! operators do when debug assertions are off (the firmware's release build).
use vstd::prelude::*;
use fixed::types::I16F16;

verus! {

/// Number of fractional bits of I16F16.
pub const FRAC_BITS: u32 = 16;

/// Raw bits of the value 1.0.
pub const ONE_BITS: i32 = 65536;

/// `x` reduced into the range of `i32` (two's complement wrap-around).
pub open spec fn wrap32(x: int) -> int {
    ((x + 0x8000_0000) % 0x1_0000_0000) - 0x8000_0000
}

/// Absolute value.
pub open spec fn abs_int(x: int) -> int {
    if x < 0 { -x } else { x }
}

/// Division rounding toward zero, as Rust's `/` on integers.
pub open spec fn trunc_div(x: int, y: int) -> int
    recommends y != 0,
{
    if (x >= 0) == (y >= 0) {
        abs_int(x) / abs_int(y)
    } else {
        -(abs_int(x) / abs_int(y))
    }
}

/// `x` wrapped into `i32`.
pub open spec fn to_i32(x: int) -> i32 {
    wrap32(x) as i32
}

/// Bits of `a + b` (wrapping).
pub open spec fn fx_add_spec(a: i32, b: i32) -> i32 {
    to_i32(a + b)
}

/// Bits of `a - b` (wrapping).
pub open spec fn fx_sub_spec(a: i32, b: i32) -> i32 {
    to_i32(a - b)
}

/// Bits of `-a` (wrapping).
pub open spec fn fx_neg_spec(a: i32) -> i32 {
    to_i32(-a)
}

/// Bits of `a * b`: the exact product of the bits, divided by 2^16 rounding
/// toward negative infinity, wrapped into `i32`.
pub open spec fn fx_mul_spec(a: i32, b: i32) -> i32 {
    to_i32((a * b) / 65536)
}

/// Exact quotient bits of `a / b` before wrapping: `a * 2^16 / b`, rounded
/// toward zero.
pub open spec fn fx_quot(a: int, b: int) -> int {
    trunc_div(a * 65536, b)
}

/// Bits of `a / b` (wrapping), for `b != 0`.
pub open spec fn fx_div_spec(a: i32, b: i32) -> i32 {
    to_i32(fx_quot(a as int, b as int))
}

/// `a / b` unless `b` is zero or the quotient does not fit.
pub open spec fn fx_checked_div_spec(a: i32, b: i32) -> Option<i32> {
    if b == 0 || fx_quot(a as int, b as int) < i32::MIN || fx_quot(a as int, b as int) > i32::MAX {
        None
    } else {
        Some(fx_quot(a as int, b as int) as i32)
    }
}

/// `wrap32` always lands in the range of `i32`, and leaves values already
/// in that range unchanged.
pub proof fn lemma_wrap32_range(x: int)
    ensures
        i32::MIN <= wrap32(x) <= i32::MAX,
        to_i32(x) as int == wrap32(x),
        i32::MIN <= x <= i32::MAX ==> wrap32(x) == x,
{
}

/// Calls `I16F16::from_num` on a small integer; the result is `n * 2^16`.
#[verifier::external_body]
pub(crate) fn fx_from_int(n: i32) -> (r: i32)
    requires
        -32768 <= n <= 32767,
    ensures
        r == n * 65536,
{
    I16F16::from_num(n).to_bits()
}

/// Calls `I16F16::wrapping_add`: the bits are added and wrapped.
#[verifier::external_body]
pub(crate) fn fx_add(a: i32, b: i32) -> (r: i32)
    ensures
        r == fx_add_spec(a, b),
{
    I16F16::from_bits(a).wrapping_add(I16F16::from_bits(b)).to_bits()
}

/// Calls `I16F16::wrapping_sub`: the bits are subtracted and wrapped.
#[verifier::external_body]
pub(crate) fn fx_sub(a: i32, b: i32) -> (r: i32)
    ensures
        r == fx_sub_spec(a, b),
{
    I16F16::from_bits(a).wrapping_sub(I16F16::from_bits(b)).to_bits()
}

/// Calls `I16F16::wrapping_neg`: the bits are negated and wrapped.
#[verifier::external_body]
pub(crate) fn fx_neg(a: i32) -> (r: i32)
    ensures
        r == fx_neg_spec(a),
{
    I16F16::from_bits(a).wrapping_neg().to_bits()
}

/// Calls `I16F16::wrapping_mul`, which forms `a * (b << 16)` in 64 bits and
/// keeps bits 32..64: the product of the bits divided by 2^16 with rounding
/// toward negative infinity, wrapped into `i32`.
#[verifier::external_body]
pub(crate) fn fx_mul(a: i32, b: i32) -> (r: i32)
    ensures
        r == fx_mul_spec(a, b),
{
    I16F16::from_bits(a).wrapping_mul(I16F16::from_bits(b)).to_bits()
}

/// Calls `I16F16::wrapping_div`, which divides `a << 16` by `b` in 64 bits
/// (rounding toward zero) and keeps the low 32 bits. It panics when `b` is 0.
#[verifier::external_body]
pub(crate) fn fx_div(a: i32, b: i32) -> (r: i32)
    requires
        b != 0,
    ensures
        r == fx_div_spec(a, b),
{
    I16F16::from_bits(a).wrapping_div(I16F16::from_bits(b)).to_bits()
}

/// Calls `I16F16::checked_div`: `None` when `b` is 0 or the quotient
/// `a * 2^16 / b` (rounded toward zero) does not fit in `i32`.
#[verifier::external_body]
pub(crate) fn fx_checked_div(a: i32, b: i32) -> (r: Option<i32>)
    ensures
        r == fx_checked_div_spec(a, b),
{
    match I16F16::from_bits(a).checked_div(I16F16::from_bits(b)) {
        Some(q) => Some(q.to_bits()),
        None => None,
    }
}

/// `r * r`.
pub open spec fn sq(r: int) -> int {
    r * r
}

/// `r` is the integer square root of `n`.
pub open spec fn is_floor_sqrt(n: int, r: int) -> bool {
    0 <= r && r * r <= n && n < (r + 1) * (r + 1)
}

proof fn lemma_newton_step_above_root(n: int, x: int, r: int)
    requires
        1 <= x,
        0 <= n,
        0 <= r,
        r * r <= n,
    ensures
        r <= (x + n / x) / 2,
{
    let q = n / x;
    assert(n < (q + 1) * x) by (nonlinear_arith)
        requires
            q == n / x,
            x >= 1,
            n >= 0,
    ;
    assert((x + q + 1) * (x + q + 1) >= 4 * x * (q + 1)) by (nonlinear_arith);
    assert(4 * r * r < (x + q + 1) * (x + q + 1)) by (nonlinear_arith)
        requires
            r * r <= n,
            n < (q + 1) * x,
            (x + q + 1) * (x + q + 1) >= 4 * x * (q + 1),
    ;
    assert(2 * r < x + q + 1) by (nonlinear_arith)
        requires
            4 * r * r < (x + q + 1) * (x + q + 1),
            r >= 0,
            x + q + 1 >= 0,
    ;
}

proof fn lemma_newton_sum_bound(n: int, x: int)
    requires
        1 <= x <= n,
    ensures
        x + n / x <= n + 1,
{
    let q = n / x;
    assert(x * q <= n) by (nonlinear_arith)
        requires
            q == n / x,
            x >= 1,
            n >= 0,
    ;
    assert(0 <= (x - 1) * (n - x)) by (nonlinear_arith)
        requires
            1 <= x <= n,
    ;
    assert(x * q <= x * (n + 1 - x)) by (nonlinear_arith)
        requires
            x * q <= n,
            0 <= (x - 1) * (n - x),
    ;
    assert(q <= n + 1 - x) by (nonlinear_arith)
        requires
            x * q <= x * (n + 1 - x),
            x >= 1,
    ;
}

proof fn lemma_newton_stop(n: int, x: int)
    requires
        1 <= x,
        0 <= n,
        (x + n / x) / 2 >= x,
    ensures
        x * x <= n,
{
    let q = n / x;
    assert(x * q <= n) by (nonlinear_arith)
        requires
            q == n / x,
            x >= 1,
            n >= 0,
    ;
    assert(x <= q);
    assert(x * x <= x * q) by (nonlinear_arith)
        requires
            x <= q,
            x >= 1,
    ;
}

/// Integer square root by Newton's method: the largest `r` with `r * r <= n`,
/// and 0 for `n <= 0`.
pub fn isqrt(n: i64) -> (r: i64)
    requires
        n < i64::MAX,
    ensures
        n <= 0 ==> r == 0,
        n > 0 ==> is_floor_sqrt(n as int, r as int),
{
    if n <= 0 {
        return 0;
    }
    let mut x = n;
    proof {
        lemma_newton_sum_bound(n as int, x as int);
    }
    let mut y = (x + n / x) / 2;
    assert(y == (x + 1) / 2);
    assert forall|r: int| 0 <= r && #[trigger] sq(r) <= n implies r <= x by {
        if r >= 1 {
            assert(r <= r * r) by (nonlinear_arith)
                requires
                    r >= 1,
            ;
        }
    }
    while y < x
        invariant
            1 <= x <= n < i64::MAX,
            y == (x + n / x) / 2,
            forall|r: int| 0 <= r && #[trigger] sq(r) <= n ==> r <= x,
        decreases x,
    {
        proof {
            assert forall|r: int| 0 <= r && #[trigger] sq(r) <= n implies r <= y by {
                lemma_newton_step_above_root(n as int, x as int, r);
            }
            assert(sq(1) <= n);
        }
        x = y;
        proof {
            lemma_newton_sum_bound(n as int, x as int);
        }
        y = (x + n / x) / 2;
    }
    proof {
        lemma_newton_stop(n as int, x as int);
        if n >= (x + 1) * (x + 1) {
            assert(sq(x + 1) <= n);
            assert(x + 1 <= x);
        }
    }
    x
}

/// Integer square roots are unique.
pub proof fn lemma_floor_sqrt_unique(n: int, r1: int, r2: int)
    requires
        is_floor_sqrt(n, r1),
        is_floor_sqrt(n, r2),
    ensures
        r1 == r2,
{
    if r1 < r2 {
        assert((r1 + 1) * (r1 + 1) <= r2 * r2) by (nonlinear_arith)
            requires
                0 <= r1 < r2,
        ;
    } else if r2 < r1 {
        assert((r2 + 1) * (r2 + 1) <= r1 * r1) by (nonlinear_arith)
            requires
                0 <= r2 < r1,
        ;
    }
}

/// Bits of the I16F16 square root of the value with bits `b`: the integer
/// square root of `b * 2^16`, and 0 for `b <= 0`.
pub open spec fn fx_sqrt_spec(b: i32) -> i32 {
    if b <= 0 {
        0
    } else {
        (choose|r: int| #[trigger] is_floor_sqrt(b * 65536, r)) as i32
    }
}

/// Square root of an I16F16 value: for bits `b`, the result bits are
/// `isqrt(b << 16)`; non-positive inputs give 0.
pub fn fixed_sqrt(x: i32) -> (r: i32)
    ensures
        r == fx_sqrt_spec(x),
        x > 0 ==> is_floor_sqrt(x * 65536, r as int),
        r >= 0,
{
    if x <= 0 {
        return 0;
    }
    let n: i64 = (x as i64) * 65536;
    let s = isqrt(n);
    proof {
        assert(s < 0x100_0000) by (nonlinear_arith)
            requires
                s * s <= n,
                n < 0x1_0000_0000_0000,
                s >= 0,
        ;
        assert(is_floor_sqrt(x * 65536, s as int));
        let c = choose|r: int| #[trigger] is_floor_sqrt(x * 65536, r);
        lemma_floor_sqrt_unique(x * 65536, c, s as int);
    }
    s as i32
}

/// Wrapping sum of `s`, folded from the left starting at 0 (what
/// `fold(I16F16::ZERO, Add::add)` computes on the bits).
pub open spec fn fx_sum(s: Seq<i32>) -> i32
    decreases s.len(),
{
    if s.len() == 0 {
        0
    } else {
        fx_add_spec(fx_sum(s.drop_last()), s.last())
    }
}

/// Exact sum of `s`.
pub open spec fn int_sum(s: Seq<i32>) -> int
    decreases s.len(),
{
    if s.len() == 0 {
        0
    } else {
        int_sum(s.drop_last()) + s.last()
    }
}

/// Wrapping once at the end or at every step gives the same result.
pub proof fn lemma_wrap32_add(a: int, b: int)
    ensures
        wrap32(wrap32(a) + b) == wrap32(a + b),
{
    vstd::arithmetic::div_mod::lemma_add_mod_noop_right(b, a + 0x8000_0000, 0x1_0000_0000);
    assert(wrap32(a) + b + 0x8000_0000 == b + (a + 0x8000_0000) % 0x1_0000_0000);
}

/// Values that differ by a multiple of 2^32 wrap to the same `i32`.
pub proof fn lemma_wrap32_periodic(a: int, k: int)
    ensures
        wrap32(a + k * 0x1_0000_0000) == wrap32(a),
{
    vstd::arithmetic::div_mod::lemma_mod_multiples_vanish(k, a + 0x8000_0000, 0x1_0000_0000);
    assert(a + k * 0x1_0000_0000 + 0x8000_0000 == 0x1_0000_0000 * k + (a + 0x8000_0000));
}

/// The wrapping sum is the exact sum wrapped into `i32`.
pub proof fn lemma_fx_sum_wraps(s: Seq<i32>)
    ensures
        fx_sum(s) as int == wrap32(int_sum(s)),
    decreases s.len(),
{
    if s.len() == 0 {
        assert(wrap32(0) == 0);
    } else {
        lemma_fx_sum_wraps(s.drop_last());
        lemma_wrap32_range(fx_sum(s.drop_last()) + s.last());
        lemma_wrap32_add(int_sum(s.drop_last()), s.last() as int);
    }
}

/// Replacing one element changes the exact sum by the difference.
pub proof fn lemma_int_sum_update(s: Seq<i32>, i: int, v: i32)
    requires
        0 <= i < s.len(),
    ensures
        int_sum(s.update(i, v)) == int_sum(s) - s[i] + v,
    decreases s.len(),
{
    if i == s.len() - 1 {
        assert(s.update(i, v).drop_last() =~= s.drop_last());
    } else {
        lemma_int_sum_update(s.drop_last(), i, v);
        assert(s.update(i, v).drop_last() =~= s.drop_last().update(i, v));
    }
}

/// `x` reduced into the range of `i64` (two's complement wrap-around).
pub open spec fn wrap64(x: int) -> int {
    ((x + 0x8000_0000_0000_0000) % 0x1_0000_0000_0000_0000) - 0x8000_0000_0000_0000
}

/// `wrap64` lands in the range of `i64` and fixes what is already there.
pub proof fn lemma_wrap64_range(x: int)
    ensures
        i64::MIN <= wrap64(x) <= i64::MAX,
        i64::MIN <= x <= i64::MAX ==> wrap64(x) == x,
{
}

/// Wrapping once at the end or at every step gives the same result.
pub proof fn lemma_wrap64_add(a: int, b: int)
    ensures
        wrap64(wrap64(a) + b) == wrap64(a + b),
{
    vstd::arithmetic::div_mod::lemma_add_mod_noop_right(
        b,
        a + 0x8000_0000_0000_0000,
        0x1_0000_0000_0000_0000,
    );
    assert(wrap64(a) + b + 0x8000_0000_0000_0000 == b + (a + 0x8000_0000_0000_0000)
        % 0x1_0000_0000_0000_0000);
}

/// `i64::wrapping_add` is addition wrapped into `i64`.
pub proof fn lemma_i64_wrapping_add(x: i64, y: i64)
    ensures
        x.wrapping_add(y) as int == wrap64(x + y),
{
    let v = x + y;
    if v > i64::MAX {
        vstd::arithmetic::div_mod::lemma_mod_multiples_vanish(
            1,
            v - 0x1_0000_0000_0000_0000 + 0x8000_0000_0000_0000,
            0x1_0000_0000_0000_0000,
        );
        assert(wrap64(v) == wrap64(v - 0x1_0000_0000_0000_0000));
    } else if v < i64::MIN {
        vstd::arithmetic::div_mod::lemma_mod_multiples_vanish(
            1,
            v + 0x8000_0000_0000_0000,
            0x1_0000_0000_0000_0000,
        );
        assert(wrap64(v + 0x1_0000_0000_0000_0000) == wrap64(v));
    }
}

} // verus!
