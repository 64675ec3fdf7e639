use vstd::prelude::*;
use vstd::arithmetic::div_mod::{
    lemma_div_is_ordered, lemma_fundamental_div_mod, lemma_fundamental_div_mod_converse,
};
use vstd::arithmetic::mul::lemma_mul_inequality;

verus! {

// ------------------------------------------------------------------
// Floor division of a signed value by a positive divisor.
// ------------------------------------------------------------------

/// Computes the floor of `a / b` (Verus's mathematical `/` on `int`, whose
/// quotient for a positive divisor is the floor).
pub fn floor_div_i64(a: i64, b: i64) -> (q: i64)
    requires
        1 <= b,
        i64::MIN < a,
    ensures
        q as int == (a as int) / (b as int),
{
    if a >= 0 {
        let q0: u64 = (a as u64) / (b as u64);
        proof {
            assert(q0 as int == (a as int) / (b as int));
            assert((a as int) / (b as int) <= a as int) by {
                lemma_fundamental_div_mod(a as int, b as int);
                assert(b as int >= 1);
                lemma_div_is_ordered(a as int, a as int, b as int);
                vstd::arithmetic::div_mod::lemma_div_by_multiple(a as int, 1);
            }
        }
        q0 as i64
    } else {
        let m: u64 = (-a) as u64;
        let q0: u64 = m / (b as u64);
        let r0: u64 = m % (b as u64);
        if r0 == 0 {
            proof {
                lemma_fundamental_div_mod(m as int, b as int);
                assert(a as int == (-(q0 as int)) * (b as int) + 0) by (nonlinear_arith)
                    requires
                        m as int == (b as int) * (q0 as int) + (r0 as int),
                        r0 == 0,
                        a as int == -(m as int),
                ;
                lemma_fundamental_div_mod_converse(a as int, b as int, -(q0 as int), 0);
            }
            -(q0 as i64)
        } else {
            proof {
                lemma_fundamental_div_mod(m as int, b as int);
                assert(a as int == (-(q0 as int) - 1) * (b as int) + ((b as int) - (r0 as int)))
                    by (nonlinear_arith)
                    requires
                        m as int == (b as int) * (q0 as int) + (r0 as int),
                        a as int == -(m as int),
                ;
                lemma_fundamental_div_mod_converse(
                    a as int,
                    b as int,
                    -(q0 as int) - 1,
                    (b - r0) as int,
                );
            }
            -(q0 as i64) - 1
        }
    }
}

// ------------------------------------------------------------------
// Integer square root.
// ------------------------------------------------------------------

/// The floor of the square root of `v`.
pub open spec fn isqrt_spec(v: nat) -> nat
    decreases v,
{
    if v == 0 {
        0
    } else {
        let r = isqrt_spec((v - 1) as nat);
        if (r + 1) * (r + 1) <= v {
            r + 1
        } else {
            r
        }
    }
}

pub proof fn lemma_isqrt_spec(v: nat)
    ensures
        isqrt_spec(v) * isqrt_spec(v) <= v,
        v < (isqrt_spec(v) + 1) * (isqrt_spec(v) + 1),
    decreases v,
{
    if v > 0 {
        lemma_isqrt_spec((v - 1) as nat);
        let r = isqrt_spec((v - 1) as nat);
        let s = isqrt_spec(v);
        if (r + 1) * (r + 1) <= v {
            assert(s == r + 1);
            assert(v <= (r + 1) * (r + 1));
            assert(v < (s + 1) * (s + 1)) by (nonlinear_arith)
                requires
                    v <= (r + 1) * (r + 1),
                    s == r + 1,
                    r >= 0,
            ;
        } else {
            assert(s == r);
            assert(s * s <= v - 1);
        }
        assert(s * s <= v);
        assert(v < (s + 1) * (s + 1));
    } else {
        let s0 = isqrt_spec(v);
        assert(v == 0 && s0 == 0);
        assert((s0 + 1) * (s0 + 1) == 1) by (nonlinear_arith)
            requires
                s0 == 0nat,
        ;
    }
}

pub proof fn lemma_isqrt_unique(v: nat, r: nat)
    requires
        r * r <= v,
        v < (r + 1) * (r + 1),
    ensures
        r == isqrt_spec(v),
{
    lemma_isqrt_spec(v);
    let s = isqrt_spec(v);
    if r < s {
        assert((r + 1) * (r + 1) <= s * s) by (nonlinear_arith)
            requires
                r + 1 <= s,
                r >= 0,
        ;
    }
    if s < r {
        assert((s + 1) * (s + 1) <= r * r) by (nonlinear_arith)
            requires
                s + 1 <= r,
                s >= 0,
        ;
    }
}

/// Binary search for the integer square root.
pub fn isqrt(v: u64) -> (r: u64)
    ensures
        r as nat == isqrt_spec(v as nat),
{
    let mut lo: u64 = 0;
    let mut hi: u64 = 4294967296;
    proof {
        assert((4294967296int) * 4294967296 > v as int);
    }
    while hi - lo > 1
        invariant
            lo < hi,
            hi <= 4294967296,
            (lo as int) * (lo as int) <= v as int,
            (v as int) < (hi as int) * (hi as int),
        decreases hi - lo,
    {
        let mid: u64 = lo + (hi - lo) / 2;
        proof {
            assert((mid as int) * (mid as int) <= 4294967296int * 4294967296) by (nonlinear_arith)
                requires
                    0 <= mid as int <= 4294967296,
            ;
        }
        if (mid as u128) * (mid as u128) <= v as u128 {
            lo = mid;
        } else {
            hi = mid;
        }
    }
    proof {
        lemma_isqrt_unique(v as nat, lo as nat);
    }
    lo
}

// ------------------------------------------------------------------
// Fixed-point Q32 arithmetic for the annealing acceptance probability.
// ------------------------------------------------------------------

/// One, in Q32 fixed point.
pub const Q32_ONE: u64 = 4294967296;

/// `1/e` in Q32 fixed point, rounded down.
pub const INV_E_Q32: u64 = 1580030168;

/// Product of two Q32 fixed-point values, rounded down.
pub open spec fn q32_mul(a: int, b: int) -> int {
    (a * b) / 4294967296
}

pub proof fn lemma_q32_mul_bounds(a: int, b: int)
    requires
        0 <= a <= 4294967296,
        0 <= b <= 4294967296,
    ensures
        0 <= q32_mul(a, b) <= 4294967296,
        b < 4294967296 ==> q32_mul(a, b) < 4294967296,
{
    assert(0 <= a * b) by (nonlinear_arith)
        requires
            a >= 0,
            b >= 0,
    ;
    lemma_mul_inequality(a, 4294967296, b);
    assert(4294967296 * b == b * 4294967296);
    lemma_div_is_ordered(a * b, b * 4294967296, 4294967296);
    vstd::arithmetic::div_mod::lemma_div_by_multiple(b, 4294967296);
    assert(q32_mul(a, b) <= b);
    lemma_div_is_ordered(0, a * b, 4294967296);
}

/// `x` squared `n` times in Q32 fixed point.
pub open spec fn sq_n(x: int, n: nat) -> int
    decreases n,
{
    if n == 0 {
        x
    } else {
        sq_n(q32_mul(x, x), (n - 1) as nat)
    }
}

/// `(1/e)^k` in Q32 fixed point, rounded down at each step.
pub open spec fn pow_inv_e(k: nat) -> int
    decreases k,
{
    if k == 0 {
        4294967296
    } else {
        q32_mul(pow_inv_e((k - 1) as nat), INV_E_Q32 as int)
    }
}

/// The annealing acceptance threshold: an approximation of
/// `2^32 * exp(-q / t)`, computed purely in integer arithmetic. The integer
/// part of `q / t` is handled by repeated multiplication with `1/e`; the
/// fractional part `f` by `(1 - f/256)^256` via eight Q32 squarings.
pub open spec fn spec_exp_q32(q: int, t: int) -> int {
    let k = q / t;
    if k >= 46 {
        0
    } else {
        let r = q % t;
        let u = (r * 4294967296) / (t * 256);
        q32_mul(pow_inv_e(k as nat), sq_n(4294967296 - u, 8))
    }
}

pub proof fn lemma_pow_inv_e_bounds(k: nat)
    ensures
        0 <= pow_inv_e(k) <= 4294967296,
    decreases k,
{
    if k > 0 {
        lemma_pow_inv_e_bounds((k - 1) as nat);
        lemma_q32_mul_bounds(pow_inv_e((k - 1) as nat), INV_E_Q32 as int);
    }
}

pub proof fn lemma_sq_n_bounds(x: int, n: nat)
    requires
        0 <= x <= 4294967296,
    ensures
        0 <= sq_n(x, n) <= 4294967296,
    decreases n,
{
    if n > 0 {
        lemma_q32_mul_bounds(x, x);
        lemma_sq_n_bounds(q32_mul(x, x), (n - 1) as nat);
    }
}

/// Executable form of `spec_exp_q32`.
pub fn exp_q32(q: u64, t: u64) -> (r: u64)
    requires
        1 <= t <= 1048576,
    ensures
        r as int == spec_exp_q32(q as int, t as int),
        r <= Q32_ONE,
{
    let k: u64 = q / t;
    if k >= 46 {
        proof {
            assert(spec_exp_q32(q as int, t as int) == 0);
        }
        return 0;
    }
    let r0: u64 = q % t;
    // r0 < t <= 2^20, so r0 * 2^32 <= 2^52 and t * 256 <= 2^28: no overflow.
    let u: u64 = (r0 * 4294967296) / (t * 256);
    proof {
        assert((r0 * 4294967296) as int == (r0 as int) * 4294967296);
        assert(u as int == ((r0 as int) * 4294967296) / ((t as int) * 256));
        assert(u <= 4294967296) by {
            lemma_mul_inequality(r0 as int, t as int, 4294967296);
            assert((t as int) * 4294967296 == ((t as int) * 256) * 16777216) by (nonlinear_arith);
            lemma_div_is_ordered(
                (r0 as int) * 4294967296,
                ((t as int) * 256) * 16777216,
                (t as int) * 256,
            );
            vstd::arithmetic::div_mod::lemma_div_by_multiple(16777216, (t as int) * 256);
            assert(u as int <= 16777216);
        }
    }
    let mut x: u64 = 4294967296 - u;
    let ghost x0: int = x as int;
    let mut i: usize = 0;
    while i < 8
        invariant
            i <= 8,
            0 <= x as int <= 4294967296,
            sq_n(x0, 8) == sq_n(x as int, (8 - i) as nat),
        decreases 8 - i,
    {
        proof {
            lemma_q32_mul_bounds(x as int, x as int);
        }
        x = ((x as u128 * x as u128) / 4294967296) as u64;
        i = i + 1;
    }
    let mut y: u64 = 4294967296;
    let mut j: u64 = 0;
    while j < k
        invariant
            j <= k,
            0 <= y as int <= 4294967296,
            y as int == pow_inv_e(j as nat),
        decreases k - j,
    {
        proof {
            lemma_q32_mul_bounds(y as int, INV_E_Q32 as int);
        }
        y = ((y as u128 * INV_E_Q32 as u128) / 4294967296) as u64;
        j = j + 1;
    }
    proof {
        lemma_q32_mul_bounds(y as int, x as int);
    }
    ((y as u128 * x as u128) / 4294967296) as u64
}

} // verus!
