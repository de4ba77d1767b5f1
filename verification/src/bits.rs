//! Floating-point numbers carried as the bit patterns of their IEEE 754 formats.
//!
//! The library stores such numbers and compares them; computing with them is its callers'
//! work. A pattern is a sign bit above a magnitude; the magnitudes grow with the absolute
//! values, from zero over the finite numbers to infinity, and those above it are no numbers.

use vstd::arithmetic::power2::{lemma_pow2_adds, lemma_pow2_pos, lemma_pow2_strictly_increases, pow2};
use vstd::prelude::*;

verus! {

/// The magnitude of single-precision infinity.
pub const INF32: u32 = 0x7f80_0000;

/// The magnitude of double-precision infinity.
pub const INF64: u64 = 0x7ff0_0000_0000_0000;

/// A single-precision pattern without its sign.
pub open spec fn magnitude32(b: u32) -> int {
    if b >= 0x8000_0000 {
        b - 0x8000_0000
    } else {
        b as int
    }
}

/// Whether a single-precision pattern is no number.
pub open spec fn nan32(b: u32) -> bool {
    magnitude32(b) > INF32
}

/// Whether a single-precision pattern is a finite number.
pub open spec fn finite32(b: u32) -> bool {
    magnitude32(b) < INF32
}

/// The place of a single-precision pattern in the order of the numbers; the two zeros have
/// the same place.
pub open spec fn rank32(b: u32) -> int {
    if b >= 0x8000_0000 {
        -magnitude32(b)
    } else {
        magnitude32(b)
    }
}

/// `a >= b` for single-precision patterns: false where one of them is no number.
pub open spec fn ge32(a: u32, b: u32) -> bool {
    !nan32(a) && !nan32(b) && rank32(a) >= rank32(b)
}

/// `a > b` for single-precision patterns: false where one of them is no number.
pub open spec fn gt32(a: u32, b: u32) -> bool {
    !nan32(a) && !nan32(b) && rank32(a) > rank32(b)
}

/// A double-precision pattern without its sign.
pub open spec fn magnitude64(b: u64) -> int {
    if b >= 0x8000_0000_0000_0000 {
        b - 0x8000_0000_0000_0000
    } else {
        b as int
    }
}

/// Whether a double-precision pattern is no number.
pub open spec fn nan64(b: u64) -> bool {
    magnitude64(b) > INF64
}

/// The place of a double-precision pattern in the order of the numbers.
pub open spec fn rank64(b: u64) -> int {
    if b >= 0x8000_0000_0000_0000 {
        -magnitude64(b)
    } else {
        magnitude64(b)
    }
}

/// `a >= b` for double-precision patterns: false where one of them is no number.
pub open spec fn ge64(a: u64, b: u64) -> bool {
    !nan64(a) && !nan64(b) && rank64(a) >= rank64(b)
}

/// `a > b` for double-precision patterns: false where one of them is no number.
pub open spec fn gt64(a: u64, b: u64) -> bool {
    !nan64(a) && !nan64(b) && rank64(a) > rank64(b)
}

fn place32(b: u32) -> (r: i64)
    ensures
        r == rank32(b),
{
    if b >= 0x8000_0000 {
        -((b - 0x8000_0000) as i64)
    } else {
        b as i64
    }
}

/// Whether a single-precision pattern is no number.
pub fn is_nan32(b: u32) -> (r: bool)
    ensures
        r == nan32(b),
{
    let p = place32(b);
    p > INF32 as i64 || p < -(INF32 as i64)
}

/// Whether a single-precision pattern is a finite number.
pub fn is_finite32(b: u32) -> (r: bool)
    ensures
        r == finite32(b),
{
    let p = place32(b);
    p < INF32 as i64 && p > -(INF32 as i64)
}

/// `a >= b` for single-precision patterns.
pub fn at_least32(a: u32, b: u32) -> (r: bool)
    ensures
        r == ge32(a, b),
{
    !is_nan32(a) && !is_nan32(b) && place32(a) >= place32(b)
}

/// `a > b` for single-precision patterns.
pub fn above32(a: u32, b: u32) -> (r: bool)
    ensures
        r == gt32(a, b),
{
    !is_nan32(a) && !is_nan32(b) && place32(a) > place32(b)
}

fn place64(b: u64) -> (r: i64)
    ensures
        r == rank64(b),
{
    if b >= 0x8000_0000_0000_0000 {
        -((b - 0x8000_0000_0000_0000) as i64)
    } else {
        b as i64
    }
}

/// Whether a double-precision pattern is no number.
pub fn is_nan64(b: u64) -> (r: bool)
    ensures
        r == nan64(b),
{
    let p = place64(b);
    p > INF64 as i64 || p < -(INF64 as i64)
}

/// `a >= b` for double-precision patterns.
pub fn at_least64(a: u64, b: u64) -> (r: bool)
    ensures
        r == ge64(a, b),
{
    !is_nan64(a) && !is_nan64(b) && place64(a) >= place64(b)
}

/// `a > b` for double-precision patterns.
pub fn above64(a: u64, b: u64) -> (r: bool)
    ensures
        r == gt64(a, b),
{
    !is_nan64(a) && !is_nan64(b) && place64(a) > place64(b)
}

/// A pattern moved into the range from `lo` to `hi`; what is no number stays.
pub open spec fn clamped32(b: u32, lo: u32, hi: u32) -> u32 {
    if gt32(lo, b) {
        lo
    } else if gt32(b, hi) {
        hi
    } else {
        b
    }
}

/// A pattern moved into the range from `lo` to `hi`.
pub fn clamp32(b: u32, lo: u32, hi: u32) -> (r: u32)
    ensures
        r == clamped32(b, lo, hi),
{
    if above32(lo, b) {
        lo
    } else if above32(b, hi) {
        hi
    } else {
        b
    }
}

/// The absolute value of a finite single-precision number in units of its format's smallest
/// step: the fraction alone where the exponent is 0, else one more leading bit, doubled with
/// each further exponent.
pub open spec fn steps32(magnitude: int) -> nat
    recommends
        0 <= magnitude < INF32,
{
    let exponent = magnitude / 0x80_0000;
    let fraction = (magnitude % 0x80_0000) as nat;
    if exponent == 0 {
        fraction
    } else {
        (0x80_0000 + fraction) * pow2((exponent - 1) as nat)
    }
}

/// The value of a finite single-precision number in units of its format's smallest step.
pub open spec fn value32(b: u32) -> int {
    if b >= 0x8000_0000 {
        -steps32(magnitude32(b))
    } else {
        steps32(magnitude32(b)) as int
    }
}

proof fn lemma_steps_grow(a: int, b: int)
    requires
        0 <= a < b < INF32,
    ensures
        steps32(a) < steps32(b),
{
    let ea = a / 0x80_0000;
    let eb = b / 0x80_0000;
    let fa = (a % 0x80_0000) as nat;
    let fb = (b % 0x80_0000) as nat;
    if ea == eb {
        if ea > 0 {
            lemma_pow2_pos((ea - 1) as nat);
            let p = pow2((ea - 1) as nat);
            assert((0x80_0000 + fa) * p < (0x80_0000 + fb) * p) by (nonlinear_arith)
                requires
                    fa < fb,
                    p > 0,
            ;
        }
    } else {
        assert(ea < eb);
        let pb = pow2((eb - 1) as nat);
        lemma_pow2_pos((eb - 1) as nat);
        assert((0x80_0000 + fb) * pb >= 0x80_0000 * pb) by (nonlinear_arith);
        if ea == 0 {
            assert(0x80_0000 * pb >= 0x80_0000);
        } else {
            let pa = pow2((ea - 1) as nat);
            lemma_pow2_adds((ea - 1) as nat, 1);
            vstd::arithmetic::power2::lemma2_to64();
            assert(pow2(ea as nat) == pa * 2);
            if ea < eb - 1 {
                lemma_pow2_strictly_increases(ea as nat, (eb - 1) as nat);
            }
            assert(pb >= pa * 2);
            lemma_pow2_pos((ea - 1) as nat);
            assert((0x80_0000 + fa) * pa < 0x80_0000 * (pa * 2)) by (nonlinear_arith)
                requires
                    fa < 0x80_0000,
                    pa > 0,
            ;
            assert(0x80_0000 * (pa * 2) <= 0x80_0000 * pb);
        }
    }
}

/// Comparing the patterns of two finite numbers compares the numbers.
pub proof fn law_rank_is_value_order(a: u32, b: u32)
    requires
        finite32(a),
        finite32(b),
    ensures
        ge32(a, b) <==> value32(a) >= value32(b),
        gt32(a, b) <==> value32(a) > value32(b),
{
    let ma = magnitude32(a);
    let mb = magnitude32(b);
    if ma < mb {
        lemma_steps_grow(ma, mb);
    } else if mb < ma {
        lemma_steps_grow(mb, ma);
    }
    if ma > 0 {
        lemma_steps_grow(0, ma);
    }
    if mb > 0 {
        lemma_steps_grow(0, mb);
    }
    assert(steps32(0) == 0);
}

/// The magnitude of the double-precision number that equals the single-precision one of
/// magnitude `m`: the fraction with more bits behind it and the exponent moved. Below the
/// smallest full exponent a number has the pattern of its double, with an exponent that is one
/// less.
pub open spec fn wide_magnitude(m: int) -> int
    decreases 0x100_0000 - m,
{
    if m >= INF32 {
        INF64 + (m - INF32) * 0x2000_0000
    } else if m >= 0x80_0000 {
        m * 0x2000_0000 + 0x3800_0000_0000_0000
    } else if m <= 0 {
        0
    } else {
        wide_magnitude(2 * m) - 0x10_0000_0000_0000
    }
}

/// A single-precision number in double precision.
pub open spec fn widened(b: u32) -> u64 {
    let m = wide_magnitude(magnitude32(b));
    if b >= 0x8000_0000 {
        (0x8000_0000_0000_0000 + m) as u64
    } else {
        m as u64
    }
}

/// Widening a number below the smallest full exponent, which `k` doublings reach.
proof fn lemma_wide_small(m: int, k: nat)
    requires
        1 <= m < 0x80_0000,
        m * pow2(k) >= 0x80_0000,
    ensures
        0x3810_0000_0000_0000 - k * 0x10_0000_0000_0000 <= wide_magnitude(m)
            < 0x3810_0000_0000_0000,
    decreases k,
{
    vstd::arithmetic::power2::lemma2_to64();
    reveal_with_fuel(wide_magnitude, 2);
    if k == 0 {
        assert(m * pow2(k) == m) by (nonlinear_arith)
            requires
                pow2(k) == 1,
        ;
    } else {
        let less = (k - 1) as nat;
        lemma_pow2_adds(less, 1);
        let p = pow2(less);
        assert(pow2(k) == p * 2);
        assert(m * (p * 2) == (2 * m) * p) by (nonlinear_arith);
        if 2 * m < 0x80_0000 {
            lemma_wide_small(2 * m, less);
        }
    }
}

/// A number keeps its sign and its place when it is widened.
pub proof fn lemma_widened(b: u32)
    ensures
        magnitude64(widened(b)) == wide_magnitude(magnitude32(b)),
        nan64(widened(b)) == nan32(b),
        rank64(widened(b)) == if b >= 0x8000_0000 {
            -wide_magnitude(magnitude32(b))
        } else {
            wide_magnitude(magnitude32(b))
        },
        magnitude32(b) < 0x80_0000 ==> 0 <= wide_magnitude(magnitude32(b))
            < 0x3810_0000_0000_0000,
{
    let m = magnitude32(b);
    if 1 <= m < 0x80_0000 {
        vstd::arithmetic::power2::lemma2_to64();
        lemma_wide_small(m, 23);
    }
}

/// Comparing two numbers in double precision compares them as in single precision, so both
/// compare their values; what is no number is neither above nor below anything, nor equal.
pub proof fn law_comparisons_agree(a: u32, b: u32, x: u64)
    ensures
        ge64(widened(a), widened(b)) <==> ge32(a, b),
        gt64(widened(a), widened(b)) <==> gt32(a, b),
        nan32(a) ==> !ge32(a, b) && !gt32(a, b) && !ge32(b, a) && !gt32(b, a),
        nan64(x) ==> !ge64(x, widened(b)) && !gt64(x, widened(b)) && !ge64(widened(b), x) && !gt64(
            widened(b),
            x,
        ),
{
    lemma_widened(a);
    lemma_widened(b);
    let m = magnitude32(a);
    let n = magnitude32(b);
    if m < n {
        lemma_wide_grows(m, n);
    } else if n < m {
        lemma_wide_grows(n, m);
    }
    if m > 0 {
        lemma_wide_grows(0, m);
    }
    if n > 0 {
        lemma_wide_grows(0, n);
    }
}

proof fn lemma_wide_grows(m: int, n: int)
    requires
        0 <= m < n,
    ensures
        wide_magnitude(m) < wide_magnitude(n),
    decreases 0x100_0000 - m,
{
    reveal_with_fuel(wide_magnitude, 2);
    if m == 0 {
        if n < 0x80_0000 {
            vstd::arithmetic::power2::lemma2_to64();
            lemma_wide_small(n, 23);
        }
    } else if m < 0x80_0000 {
        if n < 0x80_0000 {
            lemma_wide_grows(2 * m, 2 * n);
        } else {
            vstd::arithmetic::power2::lemma2_to64();
            lemma_wide_small(m, 23);
        }
    }
}

/// A number is moved to the nearer end of a range that it is outside of, and stays within it.
pub proof fn law_clamped(b: u32, lo: u32, hi: u32)
    requires
        !nan32(b) && !nan32(lo) && !nan32(hi),
        rank32(lo) <= rank32(hi),
    ensures
        rank32(lo) <= rank32(clamped32(b, lo, hi)) <= rank32(hi),
        rank32(b) < rank32(lo) ==> clamped32(b, lo, hi) == lo,
        rank32(b) > rank32(hi) ==> clamped32(b, lo, hi) == hi,
        rank32(lo) <= rank32(b) <= rank32(hi) ==> clamped32(b, lo, hi) == b,
{
}

} // verus!
