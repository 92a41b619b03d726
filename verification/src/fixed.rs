//! Unsigned fixed-point arithmetic in millionths: the stored integer `x`
//! stands for the real number `x / 1_000_000`. Every operation truncates
//! toward zero, so each result is pinned exactly by its specification.

use vstd::arithmetic::div_mod::lemma_div_is_ordered;
use vstd::arithmetic::div_mod::lemma_div_multiples_vanish;
use vstd::arithmetic::div_mod::lemma_div_pos_is_pos;
use vstd::prelude::*;

verus! {

/// One whole unit: fixed-point values carry six decimal fractional digits.
pub const SCALE: u64 = 1000000;

/// How many binary digits of an exponent's fractional part `fixed_pow` honours.
pub const FRAC_BITS: u64 = 20;

/// Fixed-point product of `a` and `b`, truncated toward zero.
pub open spec fn mul_fp(a: int, b: int) -> int {
    a * b / (SCALE as int)
}

/// `r` is the integer square root of `v`, rounded down.
pub open spec fn is_sqrt(v: int, r: int) -> bool {
    &&& 0 <= r
    &&& r * r <= v
    &&& v < (r + 1) * (r + 1)
}

/// The integer square root of `v`, rounded down.
pub open spec fn sqrt_floor(v: int) -> int {
    choose|r: int| is_sqrt(v, r)
}

/// At most one integer is the rounded-down square root of `v`.
pub proof fn lemma_sqrt_unique(v: int, a: int, b: int)
    requires
        is_sqrt(v, a),
        is_sqrt(v, b),
    ensures
        a == b,
{
    assert(a == b) by (nonlinear_arith)
        requires
            0 <= a,
            0 <= b,
            a * a <= v,
            v < (a + 1) * (a + 1),
            b * b <= v,
            v < (b + 1) * (b + 1),
    ;
}

/// Every non-negative integer has a rounded-down square root, so
/// `sqrt_floor` denotes it.
pub proof fn lemma_sqrt_exists(v: int)
    requires
        0 <= v,
    ensures
        is_sqrt(v, sqrt_floor(v)),
    decreases v,
{
    if v == 0 {
        assert(is_sqrt(0, 0));
    } else {
        lemma_sqrt_exists(v - 1);
        let r = sqrt_floor(v - 1);
        if v < (r + 1) * (r + 1) {
            assert(is_sqrt(v, r));
        } else {
            assert(is_sqrt(v, r + 1)) by (nonlinear_arith)
                requires
                    0 <= r,
                    r * r <= v - 1,
                    v - 1 < (r + 1) * (r + 1),
                    (r + 1) * (r + 1) <= v,
            ;
        }
        assert(exists|x: int| is_sqrt(v, x));
    }
}

/// A witness for the rounded-down square root settles what `sqrt_floor` is.
pub proof fn lemma_sqrt_floor_is(v: int, r: int)
    requires
        is_sqrt(v, r),
    ensures
        sqrt_floor(v) == r,
{
    assert(exists|x: int| is_sqrt(v, x));
    lemma_sqrt_unique(v, r, sqrt_floor(v));
}

/// Integer square root, rounded down, by binary search.
pub fn isqrt(v: u64) -> (r: u64)
    ensures
        is_sqrt(v as int, r as int),
        r as int == sqrt_floor(v as int),
{
    let mut lo: u64 = 0;
    let mut hi: u64 = if v < 4294967295 {
        v
    } else {
        4294967295
    };
    proof {
        assert((v as int) < (hi as int + 1) * (hi as int + 1)) by (nonlinear_arith)
            requires
                hi == if v < 4294967295 { v as int } else { 4294967295int },
        ;
    }
    while lo < hi
        invariant
            lo <= hi <= 4294967295,
            lo as int * lo as int <= v as int,
            (v as int) < (hi as int + 1) * (hi as int + 1),
        decreases hi - lo,
    {
        let mid = lo + (hi - lo + 1) / 2;
        proof {
            assert(mid as int * mid as int <= 4294967295int * 4294967295int) by (nonlinear_arith)
                requires
                    0 <= mid as int <= 4294967295int,
            ;
        }
        if mid * mid <= v {
            lo = mid;
        } else {
            hi = mid - 1;
        }
    }
    proof {
        lemma_sqrt_floor_is(v as int, lo as int);
    }
    lo
}

/// Fixed-point product; both factors must be at most one unit.
pub fn fixed_mul(a: u64, b: u64) -> (r: u64)
    requires
        a <= SCALE,
        b <= SCALE,
    ensures
        r as int == mul_fp(a as int, b as int),
        r <= SCALE,
{
    proof {
        assert(0 <= a as int * b as int <= SCALE as int * SCALE as int) by (nonlinear_arith)
            requires
                0 <= a as int <= SCALE as int,
                0 <= b as int <= SCALE as int,
        ;
        lemma_div_is_ordered(a as int * b as int, SCALE as int * SCALE as int, SCALE as int);
        lemma_div_multiples_vanish(SCALE as int, SCALE as int);
    }
    (a * b) / SCALE
}

/// Fixed-point square root of a value of at most one unit.
pub open spec fn sqrt_fp(x: int) -> int {
    sqrt_floor(x * (SCALE as int))
}

/// Fixed-point square root; the argument must be at most one unit.
pub fn fixed_sqrt(x: u64) -> (r: u64)
    requires
        x <= SCALE,
    ensures
        r as int == sqrt_fp(x as int),
        r <= SCALE,
{
    let r = isqrt(x * SCALE);
    proof {
        assert(r as int <= SCALE as int) by (nonlinear_arith)
            requires
                0 <= r as int,
                r as int * r as int <= x as int * (SCALE as int),
                x as int <= SCALE as int,
        ;
    }
    r
}

/// Fixed-point power with a whole-number exponent `k`, by repeated
/// truncated multiplication.
pub open spec fn pow_int_fp(x: int, k: nat) -> int
    decreases k,
{
    if k == 0 {
        SCALE as int
    } else {
        mul_fp(x, pow_int_fp(x, (k - 1) as nat))
    }
}

/// Whole-number powers of a value of at most one unit stay within a unit.
pub proof fn lemma_pow_int_range(x: int, k: nat)
    requires
        0 <= x <= SCALE,
    ensures
        0 <= pow_int_fp(x, k) <= SCALE,
    decreases k,
{
    if k > 0 {
        lemma_pow_int_range(x, (k - 1) as nat);
        let p = pow_int_fp(x, (k - 1) as nat);
        assert(0 <= x * p <= SCALE as int * SCALE as int) by (nonlinear_arith)
            requires
                0 <= x <= SCALE as int,
                0 <= p <= SCALE as int,
        ;
        lemma_div_pos_is_pos(x * p, SCALE as int);
        lemma_div_is_ordered(x * p, SCALE as int * SCALE as int, SCALE as int);
        lemma_div_multiples_vanish(SCALE as int, SCALE as int);
    }
}

/// Whole-number powers of exactly one unit are one unit.
pub proof fn lemma_pow_int_of_one(k: nat)
    ensures
        pow_int_fp(SCALE as int, k) == SCALE as int,
    decreases k,
{
    if k > 0 {
        lemma_pow_int_of_one((k - 1) as nat);
        lemma_div_multiples_vanish(SCALE as int, SCALE as int);
    }
}

/// Once a whole-number power reaches zero, all higher powers are zero.
pub proof fn lemma_pow_int_absorb(x: int, i: nat, k: nat)
    requires
        pow_int_fp(x, i) == 0,
        i <= k,
    ensures
        pow_int_fp(x, k) == 0,
    decreases k - i,
{
    if k > i {
        lemma_pow_int_absorb(x, i, (k - 1) as nat);
    }
}

/// One step of the square-root-and-multiply scheme for fractional
/// exponents: `n` more binary digits of the exponent remain, `frac` is the
/// remaining fraction, `cur` the current repeated square root of the base,
/// and `acc` the product accumulated so far.
pub open spec fn pow_frac_fp(cur: int, frac: int, acc: int, n: nat) -> int
    decreases n,
{
    if n == 0 {
        acc
    } else {
        let c = sqrt_fp(cur);
        if 2 * frac >= SCALE as int {
            pow_frac_fp(c, 2 * frac - SCALE as int, mul_fp(acc, c), (n - 1) as nat)
        } else {
            pow_frac_fp(c, 2 * frac, acc, (n - 1) as nat)
        }
    }
}

/// Fixed-point power `x` to the `g`, both in units: the whole part of the
/// exponent by repeated multiplication, the fractional part by the binary
/// square-root-and-multiply scheme.
pub open spec fn pow_fp(x: int, g: int) -> int {
    pow_frac_fp(
        x,
        g % (SCALE as int),
        pow_int_fp(x, (g / (SCALE as int)) as nat),
        FRAC_BITS as nat,
    )
}

/// The fixed-point square root of a value within one unit stays within one
/// unit and is non-negative.
pub proof fn lemma_sqrt_fp_range(x: int)
    requires
        0 <= x <= SCALE,
    ensures
        0 <= sqrt_fp(x) <= SCALE,
{
    assert(0 <= x * (SCALE as int)) by (nonlinear_arith)
        requires
            0 <= x,
    ;
    lemma_sqrt_exists(x * (SCALE as int));
    let r = sqrt_floor(x * (SCALE as int));
    assert(r <= SCALE as int) by (nonlinear_arith)
        requires
            0 <= r,
            r * r <= x * (SCALE as int),
            x <= SCALE as int,
    ;
}

/// The square-root-and-multiply scheme keeps its result within one unit
/// when it starts within one unit.
pub proof fn lemma_pow_frac_range(cur: int, frac: int, acc: int, n: nat)
    requires
        0 <= cur <= SCALE,
        0 <= acc <= SCALE,
    ensures
        0 <= pow_frac_fp(cur, frac, acc, n) <= SCALE,
    decreases n,
{
    if n > 0 {
        lemma_sqrt_fp_range(cur);
        let c = sqrt_fp(cur);
        if 2 * frac >= SCALE as int {
            assert(0 <= acc * c <= SCALE as int * SCALE as int) by (nonlinear_arith)
                requires
                    0 <= acc <= SCALE as int,
                    0 <= c <= SCALE as int,
            ;
            lemma_div_pos_is_pos(acc * c, SCALE as int);
            lemma_div_is_ordered(acc * c, SCALE as int * SCALE as int, SCALE as int);
            lemma_div_multiples_vanish(SCALE as int, SCALE as int);
            lemma_pow_frac_range(c, 2 * frac - SCALE as int, mul_fp(acc, c), (n - 1) as nat);
        } else {
            lemma_pow_frac_range(c, 2 * frac, acc, (n - 1) as nat);
        }
    }
}

/// The fixed-point power of a base within one unit, for any non-negative
/// exponent, stays within one unit.
pub proof fn lemma_pow_fp_range(x: int, g: int)
    requires
        0 <= x <= SCALE,
        0 <= g,
    ensures
        0 <= pow_fp(x, g) <= SCALE,
{
    lemma_pow_int_range(x, (g / (SCALE as int)) as nat);
    lemma_pow_frac_range(
        x,
        g % (SCALE as int),
        pow_int_fp(x, (g / (SCALE as int)) as nat),
        FRAC_BITS as nat,
    );
}

fn fixed_pow_frac(cur: u64, frac: u64, acc: u64, n: u64) -> (r: u64)
    requires
        cur <= SCALE,
        acc <= SCALE,
        frac < SCALE,
    ensures
        r as int == pow_frac_fp(cur as int, frac as int, acc as int, n as nat),
        r <= SCALE,
    decreases n,
{
    if n == 0 {
        acc
    } else {
        let c = fixed_sqrt(cur);
        let f2 = 2 * frac;
        if f2 >= SCALE {
            let acc2 = fixed_mul(acc, c);
            fixed_pow_frac(c, f2 - SCALE, acc2, n - 1)
        } else {
            fixed_pow_frac(c, f2, acc, n - 1)
        }
    }
}

/// Fixed-point power of a base of at most one unit; the exponent may be any
/// fixed-point value.
pub fn fixed_pow(x: u64, g: u64) -> (r: u64)
    requires
        x <= SCALE,
    ensures
        r as int == pow_fp(x as int, g as int),
        r <= SCALE,
{
    let k = g / SCALE;
    let frac = g % SCALE;
    let mut acc: u64 = SCALE;
    if x == SCALE {
        proof {
            lemma_pow_int_of_one(k as nat);
        }
    } else {
        let mut i: u64 = 0;
        while i < k && acc > 0
            invariant
                x < SCALE,
                i <= k,
                acc <= SCALE,
                acc as int == pow_int_fp(x as int, i as nat),
            decreases k - i,
        {
            acc = fixed_mul(x, acc);
            i = i + 1;
        }
        proof {
            if acc == 0 && i < k {
                lemma_pow_int_absorb(x as int, i as nat, k as nat);
            }
        }
    }
    fixed_pow_frac(x, frac, acc, FRAC_BITS)
}

} // verus!
