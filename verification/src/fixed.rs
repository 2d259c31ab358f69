//! Fixed-point scalar arithmetic: truncating division, clamping and an
//! integer square root, each with an exact contract.
use vstd::prelude::*;
use vstd::arithmetic::div_mod::*;

verus! {

/// Fixed-point scale: one world unit is `SCALE` raw steps.
pub const SCALE: i64 = 1000;

/// Absolute value.
pub open spec fn abs_s(n: int) -> int {
    if n < 0 {
        0 - n
    } else {
        n
    }
}

/// Truncating (round-toward-zero) signed division, the spec-level twin
/// of what the executable code computes on magnitudes.
pub open spec fn div_t(n: int, d: int) -> int
    recommends
        d > 0,
{
    if n >= 0 {
        n / d
    } else {
        0 - ((0 - n) / d)
    }
}

/// Saturating the value `v` into `[lo, hi]`.
pub open spec fn clamp_s(v: int, lo: int, hi: int) -> int {
    if v < lo {
        lo
    } else if v > hi {
        hi
    } else {
        v
    }
}

/// Floor of the square root, defined by primitive recursion so that
/// contracts can name the result.
pub open spec fn sqrt_f(n: nat) -> nat
    decreases n,
{
    if n == 0 {
        0
    } else {
        let r = sqrt_f((n - 1) as nat);
        if (r + 1) * (r + 1) <= n {
            r + 1
        } else {
            r
        }
    }
}

/// `sqrt_f` is exactly the floor of the square root.
pub proof fn lemma_sqrt_f(n: nat)
    ensures
        sqrt_f(n) * sqrt_f(n) <= n,
        n < (sqrt_f(n) + 1) * (sqrt_f(n) + 1),
    decreases n,
{
    if n > 0 {
        lemma_sqrt_f((n - 1) as nat);
        let r = sqrt_f((n - 1) as nat);
        assert((r + 1) * (r + 1) < (r + 2) * (r + 2)) by (nonlinear_arith);
        if (r + 1) * (r + 1) <= n {
            assert(sqrt_f(n) == r + 1);
        } else {
            assert(sqrt_f(n) == r);
        }
    } else {
        assert(sqrt_f(n) == 0);
        assert((sqrt_f(n) + 1) * (sqrt_f(n) + 1) == 1nat * 1nat);
        assert(1nat * 1nat == 1nat);
    }
}

/// Any value that brackets `n` between consecutive squares is `sqrt_f(n)`.
pub proof fn lemma_sqrt_unique(n: nat, r: nat)
    requires
        r * r <= n,
        n < (r + 1) * (r + 1),
    ensures
        r == sqrt_f(n),
{
    lemma_sqrt_f(n);
    let s = sqrt_f(n);
    if r < s {
        assert((r + 1) * (r + 1) <= s * s) by (nonlinear_arith)
            requires
                r + 1 <= s,
        ;
    }
    if s < r {
        assert((s + 1) * (s + 1) <= r * r) by (nonlinear_arith)
            requires
                s + 1 <= r,
        ;
    }
}

/// The square root is monotone: a square below `n` has a root at most
/// `sqrt_f(n)`.
pub proof fn lemma_sqrt_ge_axis(n: nat, a: nat)
    requires
        a * a <= n,
    ensures
        a <= sqrt_f(n),
{
    lemma_sqrt_f(n);
    if sqrt_f(n) < a {
        assert((sqrt_f(n) + 1) * (sqrt_f(n) + 1) <= a * a) by (nonlinear_arith)
            requires
                sqrt_f(n) + 1 <= a,
        ;
    }
}

/// Truncating signed division by a positive divisor.
pub fn div_trunc(n: i64, d: i64) -> (r: i64)
    requires
        d > 0,
        n > i64::MIN,
    ensures
        r == div_t(n as int, d as int),
{
    if n >= 0 {
        let q: u64 = (n as u64) / (d as u64);
        proof {
            lemma_div_nonincreasing(n as int, d as int);
            lemma_div_pos_is_pos(n as int, d as int);
        }
        q as i64
    } else {
        let m: u64 = (-n) as u64;
        let q: u64 = m / (d as u64);
        proof {
            lemma_div_nonincreasing(m as int, d as int);
            lemma_div_pos_is_pos(m as int, d as int);
        }
        -(q as i64)
    }
}

/// The magnitude of a truncating quotient is the quotient of the
/// magnitudes.
pub proof fn lemma_div_t_mag(n: int, d: int)
    requires
        d > 0,
    ensures
        abs_s(div_t(n, d)) == abs_s(n) / d,
{
    if n >= 0 {
        lemma_div_pos_is_pos(n, d);
    } else {
        lemma_div_pos_is_pos(0 - n, d);
    }
}

/// A truncating quotient is bounded by any bound on the numerator,
/// both before and after multiplying back by the divisor.
pub proof fn lemma_div_t_bound(n: int, d: int, b: int)
    requires
        d > 0,
        abs_s(n) <= b,
    ensures
        abs_s(div_t(n, d)) * d <= b,
        abs_s(div_t(n, d)) <= b,
{
    lemma_div_t_mag(n, d);
    let a = abs_s(n);
    let q = a / d;
    lemma_fundamental_div_mod(a, d);
    lemma_mod_division_less_than_divisor(a, d);
    lemma_div_pos_is_pos(a, d);
    assert(d * q <= a);
    assert(q * d <= b);
    assert(q <= q * d) by (nonlinear_arith)
        requires
            q >= 0,
            d >= 1,
    ;
}

/// Floor division of a fixed-point coordinate by `SCALE`, the whole
/// world unit a coordinate lies in.
pub fn floor_div_scale(x: i64) -> (r: i64)
    requires
        x > i64::MIN,
    ensures
        r == x as int / (SCALE as int),
{
    if x >= 0 {
        let q: u64 = (x as u64) / (SCALE as u64);
        proof {
            lemma_div_nonincreasing(x as int, SCALE as int);
            lemma_div_pos_is_pos(x as int, SCALE as int);
        }
        q as i64
    } else {
        let m: u64 = (-x) as u64;
        let q: u64 = (m + (SCALE as u64 - 1)) / (SCALE as u64);
        proof {
            let d = SCALE as int;
            let qe = (x as int) / d;
            let re = (x as int) % d;
            lemma_fundamental_div_mod(x as int, d);
            lemma_mod_division_less_than_divisor(x as int, d);
            lemma_mod_is_mod_recursive(x as int, d);
            assert(0 <= re < d);
            assert(m as int + d - 1 == d * (0 - qe) + (d - 1 - re));
            lemma_fundamental_div_mod_converse(m as int + d - 1, d, 0 - qe, d - 1 - re);
            assert((m as int + d - 1) / d == 0 - qe);
            lemma_div_nonincreasing(m as int + d - 1, d);
            lemma_div_pos_is_pos(m as int + d - 1, d);
        }
        -(q as i64)
    }
}

/// Clamp `v` into `[lo, hi]`.
pub fn clamp_i(v: i64, lo: i64, hi: i64) -> (r: i64)
    requires
        lo <= hi,
    ensures
        r == clamp_s(v as int, lo as int, hi as int),
{
    if v < lo {
        lo
    } else if v > hi {
        hi
    } else {
        v
    }
}

/// Integer square root by binary search.
pub fn isqrt(n: u128) -> (r: u64)
    ensures
        r == sqrt_f(n as nat),
{
    let mut lo: u64 = 0;
    let mut hi: u64 = u64::MAX;
    proof {
        assert((n as nat) < ((u64::MAX as nat) + 1) * ((u64::MAX as nat) + 1))
            by (nonlinear_arith)
            requires
                n as nat <= u128::MAX as nat,
        ;
    }
    while lo < hi
        invariant
            (lo as nat) * (lo as nat) <= n as nat,
            (n as nat) < ((hi as nat) + 1) * ((hi as nat) + 1),
            lo <= hi,
        decreases hi - lo,
    {
        let mid: u64 = hi - (hi - lo) / 2;
        proof {
            assert((mid as nat) * (mid as nat) <= (u64::MAX as nat) * (u64::MAX as nat))
                by (nonlinear_arith)
                requires
                    mid as nat <= u64::MAX as nat,
            ;
        }
        if (mid as u128) * (mid as u128) <= n {
            lo = mid;
        } else {
            hi = mid - 1;
        }
    }
    proof {
        lemma_sqrt_unique(n as nat, lo as nat);
    }
    lo
}

} // verus!
