//! Integer helpers for the physics: saturation, division rounded toward zero,
//! and square roots.
use vstd::prelude::*;

verus! {

/// `v` held to `[-limit, limit]`.
pub open spec fn clamp(v: int, limit: int) -> int {
    if v > limit {
        limit
    } else if v < -limit {
        -limit
    } else {
        v
    }
}

/// Quotient rounded toward zero, as Rust's `/` on signed integers.
pub open spec fn div_toward_zero(a: int, d: int) -> int {
    if a >= 0 {
        a / d
    } else {
        -((-a) / d)
    }
}

/// The integer square root: the largest `r` with `r * r <= n`.
pub open spec fn is_floor_root(n: int, r: int) -> bool {
    0 <= r && r * r <= n < (r + 1) * (r + 1)
}

pub open spec fn floor_root(n: int) -> int {
    choose|r: int| is_floor_root(n, r)
}

/// The least `r >= 0` with `r * r >= n`.
pub open spec fn ceil_root(n: int) -> int {
    if floor_root(n) * floor_root(n) == n {
        floor_root(n)
    } else {
        floor_root(n) + 1
    }
}

pub proof fn lemma_floor_root_exists(n: int)
    requires
        n >= 0,
    ensures
        is_floor_root(n, floor_root(n)),
    decreases n,
{
    if n == 0 {
        assert(is_floor_root(0, 0));
    } else {
        lemma_floor_root_exists(n - 1);
        let r = floor_root(n - 1);
        if (r + 1) * (r + 1) <= n {
            assert((r + 2) * (r + 2) > n) by (nonlinear_arith)
                requires
                    (r + 1) * (r + 1) > n - 1,
                    r >= 0,
            ;
            assert(is_floor_root(n, r + 1));
        } else {
            assert(is_floor_root(n, r));
        }
    }
}

/// The rounded-up root is at least the root, and positive for positive `n`.
pub proof fn lemma_ceil_root(n: int)
    requires
        n >= 0,
    ensures
        ceil_root(n) >= 0,
        ceil_root(n) * ceil_root(n) >= n,
        n > 0 ==> ceil_root(n) >= 1,
{
    lemma_floor_root_exists(n);
    let f = floor_root(n);
    if f * f != n {
        assert((f + 1) * (f + 1) >= n);
    } else if n > 0 {
        assert(f != 0);
    }
}

pub proof fn lemma_floor_root_unique(n: int, r: int)
    requires
        is_floor_root(n, r),
    ensures
        floor_root(n) == r,
{
    let s = floor_root(n);
    assert(is_floor_root(n, s));
    if s < r {
        assert((s + 1) * (s + 1) <= r * r) by (nonlinear_arith)
            requires
                0 <= s + 1 <= r,
        ;
    } else if r < s {
        assert((r + 1) * (r + 1) <= s * s) by (nonlinear_arith)
            requires
                0 <= r + 1 <= s,
        ;
    }
}

/// Division rounded toward zero by a positive divisor never grows a magnitude.
pub proof fn lemma_div_toward_zero_shrinks(a: int, d: int)
    requires
        d >= 1,
    ensures
        a >= 0 ==> 0 <= div_toward_zero(a, d) <= a,
        a < 0 ==> a <= div_toward_zero(a, d) <= 0,
{
    let m = if a >= 0 { a } else { -a };
    vstd::arithmetic::div_mod::lemma_div_pos_is_pos(m, d);
    vstd::arithmetic::div_mod::lemma_div_is_ordered_by_denominator(m, 1, d);
}

/// `q`, the quotient of `a` by `d` rounded toward zero, brackets `a`:
/// `d * |q| <= |a| < d * (|q| + 1)`, with the sign of `a`.
pub proof fn lemma_div_toward_zero_brackets(a: int, d: int)
    requires
        d >= 1,
    ensures
        a >= 0 ==> div_toward_zero(a, d) >= 0 && d * div_toward_zero(a, d) <= a < d * (
        div_toward_zero(a, d) + 1),
        a < 0 ==> div_toward_zero(a, d) <= 0 && d * (-div_toward_zero(a, d)) <= -a < d * (-div_toward_zero(a, d) + 1),
{
    let m = if a >= 0 { a } else { -a };
    vstd::arithmetic::div_mod::lemma_fundamental_div_mod(m, d);
    vstd::arithmetic::div_mod::lemma_div_pos_is_pos(m, d);
    vstd::arithmetic::div_mod::lemma_mod_bound(m, d);
    let q = m / d;
    assert(d * q <= m < d * (q + 1)) by (nonlinear_arith)
        requires
            m == d * q + m % d,
            0 <= m % d < d,
    ;
}

pub(crate) fn clamp_to(v: i128, limit: i64) -> (r: i64)
    requires
        limit >= 0,
    ensures
        r == clamp(v as int, limit as int),
{
    if v > limit as i128 {
        limit
    } else if v < -(limit as i128) {
        -limit
    } else {
        v as i64
    }
}

pub(crate) fn quotient_toward_zero(a: i128, d: i128) -> (r: i128)
    requires
        d > 0,
        -0x1000_0000_0000_0000_0000_0000_0000 <= a <= 0x1000_0000_0000_0000_0000_0000_0000,
    ensures
        r == div_toward_zero(a as int, d as int),
{
    if a >= 0 {
        a / d
    } else {
        -((-a) / d)
    }
}

/// The integer square root of `n < 2^84`.
pub(crate) fn floor_sqrt(n: u128) -> (r: u64)
    requires
        n < 0x10_0000_0000_0000_0000_0000,
    ensures
        is_floor_root(n as int, r as int),
        r as int == floor_root(n as int),
{
    let mut lo: u128 = 0;
    let mut hi: u128 = 0x800_0000_0000;
    assert(hi * hi == 0x40_0000_0000_0000_0000_0000);
    while hi - lo > 1
        invariant
            lo < hi <= 0x800_0000_0000,
            lo * lo <= n,
            n < hi * hi,
        decreases hi - lo,
    {
        let mid = lo + (hi - lo) / 2;
        assert(mid * mid <= 0x40_0000_0000_0000_0000_0000) by (nonlinear_arith)
            requires
                mid <= 0x800_0000_0000,
        ;
        if mid * mid <= n {
            lo = mid;
        } else {
            hi = mid;
        }
    }
    proof {
        assert(hi == lo + 1);
        lemma_floor_root_unique(n as int, lo as int);
    }
    lo as u64
}

} // verus!
