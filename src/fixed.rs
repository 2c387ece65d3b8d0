use vstd::prelude::*;

verus! {

/// Fixed-point scale shared by every signal and control value: the real
/// value 1.0 is stored as `ONE`, so 0.25 is `ONE / 4`.
pub const ONE: i32 = 1_000_000;

/// Largest magnitude a signal or control value may have (2000.0).
pub const LIMIT: i32 = 2_000_000_000;

/// A value that the library can carry without overflow.
pub open spec fn in_limit(x: int) -> bool {
    -(LIMIT as int) <= x <= LIMIT as int
}

/// `x` pushed into `[lo, hi]`.
pub open spec fn clamp_spec(x: int, lo: int, hi: int) -> int {
    if x < lo {
        lo
    } else if x > hi {
        hi
    } else {
        x
    }
}

/// Linear blend from `a` toward `b` by the weight `w` (in units of `ONE`),
/// rounded toward minus infinity.
pub open spec fn lerp_spec(a: int, b: int, w: int) -> int {
    a + (w * (b - a)) / (ONE as int)
}

/// Floor division of `x` by a positive `d`.
pub fn floor_div(x: i128, d: i128) -> (r: i128)
    requires
        d > 0,
        x > i128::MIN,
    ensures
        r as int == x as int / d as int,
{
    if x >= 0 {
        let r = x / d;
        assert(r as int == x as int / d as int);
        r
    } else {
        let y: i128 = -x - 1;
        let q: i128 = y / d;
        proof {
            let xi = x as int;
            let di = d as int;
            let qi = q as int;
            let ri = y as int % di;
            assert(y as int == di * qi + ri) by {
                vstd::arithmetic::div_mod::lemma_fundamental_div_mod(y as int, di);
            }
            assert(0 <= ri < di) by {
                vstd::arithmetic::div_mod::lemma_mod_bound(y as int, di);
            }
            assert(xi == di * (-qi - 1) + (di - 1 - ri)) by (nonlinear_arith)
                requires
                    y as int == di * qi + ri,
                    y as int == -xi - 1,
            ;
            vstd::arithmetic::div_mod::lemma_fundamental_div_mod_converse(
                xi,
                di,
                -qi - 1,
                di - 1 - ri,
            );
        }
        -q - 1
    }
}

/// Clamp `x` into `[lo, hi]`.
pub fn clamp(x: i32, lo: i32, hi: i32) -> (r: i32)
    requires
        lo <= hi,
    ensures
        r as int == clamp_spec(x as int, lo as int, hi as int),
{
    if x < lo {
        lo
    } else if x > hi {
        hi
    } else {
        x
    }
}

/// Linear interpolation `a + w * (b - a)`, the weight `w` in units of `ONE`.
pub fn lerp(a: i32, b: i32, w: i32) -> (r: i32)
    requires
        in_limit(a as int),
        in_limit(b as int),
        0 <= w <= ONE,
    ensures
        r as int == lerp_spec(a as int, b as int, w as int),
        a <= b ==> a <= r <= b,
        b <= a ==> b <= r <= a,
{
    let diff: i64 = b as i64 - a as i64;
    proof {
        let wi = w as int;
        let di = diff as int;
        assert(-4_000_000_000_000_000 <= wi * di <= 4_000_000_000_000_000) by (nonlinear_arith)
            requires
                0 <= wi <= 1_000_000,
                -4_000_000_000 <= di <= 4_000_000_000,
        ;
    }
    let prod: i64 = w as i64 * diff;
    let q: i64 = floor_div(prod as i128, ONE as i128) as i64;
    proof {
        lemma_blend_between(a as int, b as int, w as int);
    }
    (a as i64 + q) as i32
}

/// The blend stays between its two ends.
proof fn lemma_blend_between(a: int, b: int, w: int)
    requires
        0 <= w <= ONE,
    ensures
        a <= b ==> a <= lerp_spec(a, b, w) <= b,
        b <= a ==> b <= lerp_spec(a, b, w) <= a,
{
    let one = ONE as int;
    let p = w * (b - a);
    if a <= b {
        assert(0 <= p <= one * (b - a)) by (nonlinear_arith)
            requires
                0 <= w <= one,
                a <= b,
                p == w * (b - a),
        ;
        vstd::arithmetic::div_mod::lemma_div_is_ordered(0, p, one);
        vstd::arithmetic::div_mod::lemma_div_is_ordered(p, one * (b - a), one);
        vstd::arithmetic::div_mod::lemma_div_multiples_vanish(b - a, one);
    } else {
        assert(one * (b - a) <= p <= 0) by (nonlinear_arith)
            requires
                0 <= w <= one,
                b < a,
                p == w * (b - a),
        ;
        vstd::arithmetic::div_mod::lemma_div_is_ordered(p, 0, one);
        vstd::arithmetic::div_mod::lemma_div_is_ordered(one * (b - a), p, one);
        vstd::arithmetic::div_mod::lemma_div_multiples_vanish(b - a, one);
    }
}

} // verus!
