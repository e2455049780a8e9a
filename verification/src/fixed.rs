//! Fixed-point arithmetic for ranking scores.
//!
//! Scores, weights and score components are integers in micro-units:
//! the real value 1.0 is represented as `SCALE` (1_000_000). The ranker
//! needs a square root (recency normalisation) and a base-10 logarithm
//! (reinforcement frequency), both defined here exactly over the integers.

use vstd::prelude::*;

verus! {

/// One unit (the real number 1.0) in fixed-point micro-units.
pub const SCALE: u64 = 1_000_000;

/// Mantissa scale for the logarithm's digit recurrence.
pub const MANT: u64 = 1_000_000_000;

/// Number of fractional decimal digits carried by `SCALE`.
pub const FRAC_DIGITS: u32 = 6;

/// The integer square root: the largest `r` with `r * r <= n`.
pub open spec fn isqrt_spec(n: nat) -> nat
    decreases n,
{
    if n == 0 {
        0
    } else {
        let r = isqrt_spec((n - 1) as nat);
        if (r + 1) * (r + 1) <= n {
            r + 1
        } else {
            r
        }
    }
}

pub proof fn lemma_isqrt_bounds(n: nat)
    ensures
        isqrt_spec(n) * isqrt_spec(n) <= n,
        n < (isqrt_spec(n) + 1) * (isqrt_spec(n) + 1),
    decreases n,
{
    if n == 0 {
        assert(isqrt_spec(0) == 0);
        assert(0nat * 0nat == 0) by (nonlinear_arith) {}
        assert(1nat * 1nat == 1) by (nonlinear_arith) {}
    } else {
        lemma_isqrt_bounds((n - 1) as nat);
        let r = isqrt_spec((n - 1) as nat);
        if (r + 1) * (r + 1) <= n {
            assert(isqrt_spec(n) == r + 1);
            assert((r + 2) * (r + 2) > (r + 1) * (r + 1)) by (nonlinear_arith) {}
        } else {
            assert(isqrt_spec(n) == r);
        }
    }
}

pub proof fn lemma_isqrt_unique(n: nat, s: nat)
    requires
        s * s <= n,
        n < (s + 1) * (s + 1),
    ensures
        s == isqrt_spec(n),
{
    lemma_isqrt_bounds(n);
    let r = isqrt_spec(n);
    if s < r {
        assert((s + 1) * (s + 1) <= r * r) by (nonlinear_arith)
            requires s + 1 <= r,
        {}
    }
    if r < s {
        assert((r + 1) * (r + 1) <= s * s) by (nonlinear_arith)
            requires r + 1 <= s,
        {}
    }
}

/// Integer square root by binary search.
pub fn isqrt(n: u128) -> (r: u128)
    ensures
        r == isqrt_spec(n as nat),
{
    if n == 0 {
        proof {
            assert(0nat * 0nat == 0 && 1nat * 1nat == 1) by (nonlinear_arith) {}
            lemma_isqrt_unique(n as nat, 0);
        }
        return 0;
    }
    let mut lo: u128 = 0;
    let mut hi: u128 = 0x1_0000_0000_0000_0000;
    proof {
        assert((hi as nat) * (hi as nat) > n as nat) by (nonlinear_arith)
            requires hi == 0x1_0000_0000_0000_0000u128, n <= u128::MAX,
        {}
    }
    while lo + 1 < hi
        invariant
            lo < hi,
            hi <= 0x1_0000_0000_0000_0000,
            (lo as nat) * (lo as nat) <= n as nat,
            (n as nat) < (hi as nat) * (hi as nat),
        decreases hi - lo,
    {
        let mid: u128 = lo + (hi - lo) / 2;
        proof {
            assert(mid <= u64::MAX as u128 ==> (mid as nat) * (mid as nat) <= u128::MAX)
                by (nonlinear_arith)
            {}
        }
        if mid <= u64::MAX as u128 && mid * mid <= n {
            lo = mid;
        } else {
            proof {
                if mid > u64::MAX as u128 {
                    assert((mid as nat) * (mid as nat) > n as nat) by (nonlinear_arith)
                        requires mid as nat > u64::MAX as nat, n <= u128::MAX,
                    {}
                }
            }
            hi = mid;
        }
    }
    proof {
        assert(lo + 1 == hi);
        lemma_isqrt_unique(n as nat, lo as nat);
    }
    lo
}

/// Ten to the power `k`.
pub open spec fn pow10(k: nat) -> nat
    decreases k,
{
    if k == 0 {
        1
    } else {
        10 * pow10((k - 1) as nat)
    }
}

/// The number of decimal digits of `n`, minus one (the integer part of
/// the base-10 logarithm). Zero for `n == 0` by convention.
pub open spec fn ilog10_spec(n: nat) -> nat
    decreases n,
{
    if n < 10 {
        0
    } else {
        1 + ilog10_spec(n / 10)
    }
}

pub proof fn lemma_ilog10_bounds(n: nat)
    requires
        n >= 1,
    ensures
        pow10(ilog10_spec(n)) <= n,
        n < pow10(ilog10_spec(n) + 1),
    decreases n,
{
    assert(pow10(0) == 1);
    assert(pow10(1) == 10);
    if n >= 10 {
        lemma_ilog10_bounds(n / 10);
    }
}

pub proof fn lemma_pow10_increases(a: nat, b: nat)
    requires
        a <= b,
    ensures
        pow10(a) <= pow10(b),
    decreases b,
{
    if a < b {
        lemma_pow10_increases(a, (b - 1) as nat);
    }
}

pub proof fn lemma_ilog10_of_bounded(n: nat, k: nat)
    requires
        1 <= n,
        n < pow10(k + 1),
    ensures
        ilog10_spec(n) <= k,
{
    lemma_ilog10_bounds(n);
    if ilog10_spec(n) > k {
        lemma_pow10_increases(k + 1, ilog10_spec(n));
    }
}

pub proof fn lemma_ilog10_of_pow10(k: nat)
    ensures
        ilog10_spec(pow10(k)) == k,
    decreases k,
{
    if k > 0 {
        lemma_ilog10_of_pow10((k - 1) as nat);
        assert(pow10(k) / 10 == pow10((k - 1) as nat)) by {
            assert(pow10(k) == 10 * pow10((k - 1) as nat));
        }
        assert(pow10(k) >= 10) by {
            lemma_pow10_increases(1, k);
        }
    }
}

pub proof fn lemma_pow10_values()
    ensures
        pow10(6) == 1000000,
        pow10(9) == 1000000000,
        pow10(10) == 10000000000,
        pow10(20) == 100000000000000000000,
        pow10(39) > u128::MAX,
{
    reveal_with_fuel(pow10, 40);
}

/// Ten to the power `k`, executable.
pub fn pow10_u128(k: u32) -> (r: u128)
    requires
        k <= 20,
    ensures
        r == pow10(k as nat),
        r >= 1,
{
    let mut r: u128 = 1;
    let mut i: u32 = 0;
    while i < k
        invariant
            i <= k,
            k <= 20,
            r == pow10(i as nat),
            r >= 1,
        decreases k - i,
    {
        proof {
            lemma_pow10_increases(i as nat, 20);
            lemma_pow10_values();
        }
        r = r * 10;
        i = i + 1;
    }
    r
}

/// Integer part of the base-10 logarithm, executable.
pub fn ilog10_u128(n: u128) -> (r: u32)
    requires
        n >= 1,
    ensures
        r == ilog10_spec(n as nat),
        r <= 38,
{
    let mut x: u128 = n;
    let mut r: u32 = 0;
    proof {
        assert(pow10(0) == 1);
        assert(x as nat * 1 == x as nat) by (nonlinear_arith) {}
    }
    while x >= 10
        invariant
            x >= 1,
            r <= 38,
            ilog10_spec(n as nat) == r + ilog10_spec(x as nat),
            pow10(r as nat) <= x as nat * pow10(r as nat) <= n as nat,
        decreases x,
    {
        proof {
            assert(pow10((r + 1) as nat) == 10 * pow10(r as nat));
            assert((x as nat / 10) * (10 * pow10(r as nat)) <= (x as nat) * pow10(r as nat))
                by (nonlinear_arith)
                requires x >= 10,
            {}
            assert(x as nat / 10 >= 1);
            assert((x as nat / 10) * pow10((r + 1) as nat) >= pow10((r + 1) as nat))
                by (nonlinear_arith)
                requires x as nat / 10 >= 1,
            {}
            if r + 1 > 38 {
                lemma_pow10_increases(39, (r + 1) as nat);
                lemma_pow10_values();
            }
        }
        x = x / 10;
        r = r + 1;
    }
    r
}

} // verus!

verus! {

/// Division bracketing: if `lo * p <= x < hi * p` then `lo <= x / p < hi`.
pub proof fn lemma_div_bracket(x: int, p: int, lo: int, hi: int)
    requires
        p > 0,
        lo * p <= x,
        x < hi * p,
    ensures
        lo <= x / p < hi,
{
    vstd::arithmetic::div_mod::lemma_fundamental_div_mod(x, p);
    vstd::arithmetic::div_mod::lemma_mod_bound(x, p);
    let q = x / p;
    let r = x % p;
    assert(lo <= q) by (nonlinear_arith)
        requires lo * p <= x, x == p * q + r, 0 <= r < p, p > 0,
    {}
    assert(q < hi) by (nonlinear_arith)
        requires x < hi * p, x == p * q + r, 0 <= r, p > 0,
    {}
}

/// One truncated multiplication step of the mantissa recurrence:
/// `acc * m` rescaled back down by the mantissa unit.
pub open spec fn mant_mul(acc: nat, m: nat) -> nat {
    (acc * m) / (MANT as nat)
}

/// `acc` after raising the mantissa `m` to the `i + 1`-th power, with
/// truncation to the mantissa unit after every multiplication.
pub open spec fn mant_pow(m: nat, i: nat) -> nat
    decreases i,
{
    if i == 0 {
        m
    } else {
        mant_mul(mant_pow(m, (i - 1) as nat), m)
    }
}

pub proof fn lemma_mant_mul_bounds(acc: nat, m: nat)
    requires
        MANT <= m,
        m < 10 * MANT,
        MANT <= acc,
    ensures
        MANT <= mant_mul(acc, m),
        mant_mul(acc, m) <= 10 * acc,
{
    let big = MANT as int;
    assert(acc * MANT <= acc * m <= acc * (10 * MANT)) by (nonlinear_arith)
        requires MANT <= m <= 10 * MANT, acc >= 0,
    {}
    assert(acc * (10 * MANT) == (10 * acc) * MANT) by (nonlinear_arith) {}
    lemma_div_bracket((acc * m) as int, big, acc as int, (10 * acc + 1) as int);
    assert((10 * acc + 1) * big > (10 * acc) * big) by (nonlinear_arith)
        requires big > 0,
    {}
}

pub proof fn lemma_mant_pow_bounds(m: nat, i: nat)
    requires
        MANT <= m,
        m < 10 * MANT,
    ensures
        MANT <= mant_pow(m, i),
        mant_pow(m, i) <= pow10(i) * m,
    decreases i,
{
    if i == 0 {
        assert(pow10(0) == 1);
        assert(1 * m == m) by (nonlinear_arith) {}
    } else {
        lemma_mant_pow_bounds(m, (i - 1) as nat);
        let prev = mant_pow(m, (i - 1) as nat);
        lemma_mant_mul_bounds(prev, m);
        assert(10 * prev <= 10 * (pow10((i - 1) as nat) * m)) by (nonlinear_arith)
            requires prev <= pow10((i - 1) as nat) * m,
        {}
        assert(10 * (pow10((i - 1) as nat) * m) == (10 * pow10((i - 1) as nat)) * m)
            by (nonlinear_arith)
        {}
    }
}

/// The first `k` decimal digits after the point of `log10(m / MANT)`,
/// for a mantissa `m` in `[MANT, 10 * MANT)`, read as one base-10 number.
pub open spec fn frac_digits(m: nat, k: nat) -> nat
    decreases k,
{
    if k == 0 {
        0
    } else {
        let t = mant_pow(m, 9);
        let d = ilog10_spec(t / (MANT as nat));
        d * pow10((k - 1) as nat) + frac_digits(t / pow10(d), (k - 1) as nat)
    }
}

/// The digit recurrence keeps the mantissa inside `[MANT, 10 * MANT)`
/// and produces digits below ten.
pub proof fn lemma_frac_step(m: nat)
    requires
        MANT <= m,
        m < 10 * MANT,
    ensures
        ({
            let t = mant_pow(m, 9);
            let d = ilog10_spec(t / (MANT as nat));
            &&& 1 <= t / (MANT as nat)
            &&& d <= 9
            &&& MANT <= t / pow10(d)
            &&& t / pow10(d) < 10 * MANT
        }),
{
    lemma_pow10_values();
    lemma_mant_pow_bounds(m, 9);
    let t = mant_pow(m, 9);
    assert(pow10(9) * m < pow10(9) * (10 * MANT)) by (nonlinear_arith)
        requires m < 10 * MANT, pow10(9) > 0,
    {}
    assert(pow10(9) * (10 * (MANT as nat)) == pow10(10) * (MANT as nat)) by (nonlinear_arith)
        requires pow10(10) == 10 * pow10(9),
    {}
    // bracket t / MANT in [1, pow10(10))
    assert(1 * (MANT as int) <= t as int) by (nonlinear_arith)
        requires t >= MANT,
    {}
    lemma_div_bracket(t as int, MANT as int, 1, pow10(10) as int);
    let q = t / (MANT as nat);
    let d = ilog10_spec(q);
    lemma_ilog10_of_bounded(q, 9);
    lemma_ilog10_bounds(q);
    // pow10(d) <= q < pow10(d + 1), so pow10(d) * MANT <= t < pow10(d + 1) * MANT
    vstd::arithmetic::div_mod::lemma_fundamental_div_mod(t as int, MANT as int);
    vstd::arithmetic::div_mod::lemma_mod_bound(t as int, MANT as int);
    assert(pow10(d) * (MANT as int) <= t as int) by (nonlinear_arith)
        requires
            pow10(d) <= q,
            t as int == (MANT as int) * (q as int) + (t as int) % (MANT as int),
            (t as int) % (MANT as int) >= 0,
            MANT as int > 0,
    {}
    assert((t as int) < (pow10(d + 1) * (MANT as int))) by (nonlinear_arith)
        requires
            q < pow10(d + 1),
            t as int == (MANT as int) * (q as int) + (t as int) % (MANT as int),
            (t as int) % (MANT as int) < MANT as int,
            MANT as int > 0,
    {}
    assert(pow10(d + 1) == 10 * pow10(d));
    assert(pow10(d + 1) * (MANT as int) == (10 * (MANT as int)) * pow10(d) as int)
        by (nonlinear_arith)
        requires pow10(d + 1) == 10 * pow10(d),
    {}
    assert((MANT as int) * (pow10(d) as int) == pow10(d) as int * (MANT as int))
        by (nonlinear_arith)
    {}
    lemma_pow10_increases(0, d);
    lemma_div_bracket(t as int, pow10(d) as int, MANT as int, 10 * (MANT as int));
}

pub proof fn lemma_frac_digits_bound(m: nat, k: nat)
    requires
        MANT <= m,
        m < 10 * MANT,
    ensures
        frac_digits(m, k) < pow10(k),
    decreases k,
{
    if k == 0 {
        assert(pow10(0) == 1);
    } else {
        lemma_frac_step(m);
        let t = mant_pow(m, 9);
        let d = ilog10_spec(t / (MANT as nat));
        lemma_frac_digits_bound(t / pow10(d), (k - 1) as nat);
        assert(d * pow10((k - 1) as nat) <= 9 * pow10((k - 1) as nat)) by (nonlinear_arith)
            requires d <= 9, pow10((k - 1) as nat) >= 0,
        {}
        assert(9 * pow10((k - 1) as nat) + pow10((k - 1) as nat) == pow10(k)) by {
            assert(pow10(k) == 10 * pow10((k - 1) as nat));
        }
    }
}

/// `SCALE * log10(c)`, computed by the classical decimal digit recurrence
/// with a nine-digit mantissa; exact whenever `c` is a power of ten.
/// Zero for `c == 0` by convention.
pub open spec fn log10_fp_spec(c: nat) -> nat {
    if c == 0 {
        0
    } else {
        let i = ilog10_spec(c);
        i * (SCALE as nat) + frac_digits((c * (MANT as nat)) / pow10(i), FRAC_DIGITS as nat)
    }
}

} // verus!

verus! {

/// The fractional digits of `log10`, by the digit recurrence.
fn frac_digits_exec(m0: u128) -> (r: u64)
    requires
        MANT <= m0,
        m0 < 10 * (MANT as u128),
    ensures
        r == frac_digits(m0 as nat, FRAC_DIGITS as nat),
        r < SCALE,
{
    let mut m: u128 = m0;
    let mut digits: u64 = 0;
    let mut k: u32 = 0;
    proof {
        lemma_pow10_values();
        assert(digits * pow10(6) == 0) by (nonlinear_arith)
            requires digits == 0,
        {}
    }
    while k < FRAC_DIGITS
        invariant
            k <= FRAC_DIGITS,
            FRAC_DIGITS == 6,
            MANT <= m < 10 * (MANT as u128),
            digits < pow10(k as nat),
            frac_digits(m0 as nat, FRAC_DIGITS as nat) == digits * pow10(
                (FRAC_DIGITS - k) as nat,
            ) + frac_digits(m as nat, (FRAC_DIGITS - k) as nat),
        decreases FRAC_DIGITS - k,
    {
        proof {
            lemma_pow10_values();
            lemma_mant_pow_bounds(m as nat, 9);
            lemma_frac_step(m as nat);
        }
        // raise the mantissa to the tenth power, truncating each step
        let mut t: u128 = m;
        let mut j: u32 = 0;
        proof {
            assert(pow10(0) == 1);
            assert(1 * (m as nat) == m as nat) by (nonlinear_arith) {}
        }
        while j < 9
            invariant
                j <= 9,
                MANT <= m < 10 * (MANT as u128),
                t == mant_pow(m as nat, j as nat),
                MANT <= t <= pow10(j as nat) * (m as nat),
            decreases 9 - j,
        {
            proof {
                lemma_pow10_values();
                lemma_mant_pow_bounds(m as nat, j as nat);
                lemma_mant_pow_bounds(m as nat, (j + 1) as nat);
                lemma_pow10_increases(j as nat, 9);
                assert(pow10(j as nat) * (m as nat) <= pow10(9) * (m as nat))
                    by (nonlinear_arith)
                    requires pow10(j as nat) <= pow10(9), m >= 0,
                {}
                assert(pow10(9) * (m as nat) < pow10(9) * (10 * (MANT as nat)))
                    by (nonlinear_arith)
                    requires m < 10 * (MANT as nat), pow10(9) > 0,
                {}
                assert((t as nat) * (m as nat) <= (pow10(9) * (10 * (MANT as nat))) * (10
                    * (MANT as nat))) by (nonlinear_arith)
                    requires
                        t as nat <= pow10(9) * (10 * (MANT as nat)),
                        m as nat <= 10 * (MANT as nat),
                        t >= 0,
                        m >= 0,
                {}
                assert((pow10(9) * (10 * (MANT as nat))) * (10 * (MANT as nat)) <= u128::MAX)
                    by (nonlinear_arith)
                    requires pow10(9) == 1000000000, MANT == 1000000000,
                {}
            }
            t = t * m / (MANT as u128);
            j = j + 1;
        }
        let q: u128 = t / (MANT as u128);
        let d: u32 = ilog10_u128(q);
        let p: u128 = pow10_u128(d);
        proof {
            let ghost km = (FRAC_DIGITS - k) as nat;
            assert(frac_digits(m as nat, km) == d * pow10((km - 1) as nat) + frac_digits(
                (t / p) as nat,
                (km - 1) as nat,
            ));
            assert((digits * 10 + d) * pow10((km - 1) as nat) == digits * (10 * pow10(
                (km - 1) as nat,
            )) + d * pow10((km - 1) as nat)) by (nonlinear_arith) {}
            assert(pow10(km) == 10 * pow10((km - 1) as nat));
            assert(pow10((k + 1) as nat) == 10 * pow10(k as nat));
            assert(digits * 10 + d < 10 * pow10(k as nat)) by (nonlinear_arith)
                requires digits < pow10(k as nat), d <= 9, pow10(k as nat) >= 1,
            {}
            lemma_pow10_increases(k as nat, 6);
        }
        digits = digits * 10 + d as u64;
        m = t / p;
        k = k + 1;
    }
    proof {
        assert(frac_digits(m as nat, 0) == 0);
        assert(digits * pow10(0) == digits) by (nonlinear_arith)
            requires pow10(0) == 1,
        {}
        lemma_pow10_values();
    }
    digits
}

/// `SCALE * log10(c)` in fixed point (zero when `c == 0`).
pub fn log10_fp(c: u64) -> (r: u64)
    ensures
        r == log10_fp_spec(c as nat),
        r < 20 * SCALE,
{
    if c == 0 {
        return 0;
    }
    let i: u32 = ilog10_u128(c as u128);
    proof {
        lemma_pow10_values();
        lemma_ilog10_of_bounded(c as nat, 19);
        lemma_ilog10_bounds(c as nat);
    }
    let p: u128 = pow10_u128(i);
    let m: u128 = (c as u128) * (MANT as u128) / p;
    proof {
        // pow10(i) <= c < pow10(i + 1) brackets the mantissa
        assert((MANT as int) * (p as int) <= (c as int) * (MANT as int)) by (nonlinear_arith)
            requires p <= c as int, MANT > 0,
        {}
        assert((c as int) * (MANT as int) < (10 * (MANT as int)) * (p as int))
            by (nonlinear_arith)
            requires (c as int) < 10 * (p as int), MANT > 0,
        {}
        assert(pow10((i + 1) as nat) == 10 * pow10(i as nat));
        lemma_div_bracket(
            (c as int) * (MANT as int),
            p as int,
            MANT as int,
            10 * (MANT as int),
        );
    }
    let f: u64 = frac_digits_exec(m);
    proof {
        assert(i as nat * (SCALE as nat) <= 19 * (SCALE as nat)) by (nonlinear_arith)
            requires i <= 19, SCALE > 0,
        {}
    }
    i as u64 * SCALE + f
}

/// On an exact power of ten the logarithm has no fractional part:
/// `log10_fp` of `10^k` is exactly `k` whole units.
pub proof fn lemma_log10_fp_pow10(k: nat)
    requires
        k <= 19,
    ensures
        log10_fp_spec(pow10(k)) == k * SCALE,
{
    lemma_pow10_values();
    lemma_ilog10_of_pow10(k);
    lemma_pow10_increases(0, k);
    let c = pow10(k);
    assert(c * (MANT as nat) == (MANT as nat) * c) by (nonlinear_arith) {}
    vstd::arithmetic::div_mod::lemma_div_multiples_vanish(MANT as int, c as int);
    assert((c * (MANT as nat)) / pow10(k) == MANT);
    lemma_frac_digits_of_one_mantissa(FRAC_DIGITS as nat);
}

/// The mantissa of an exact power of ten is the unit itself, and every
/// digit the recurrence produces from it is zero.
pub proof fn lemma_frac_digits_of_one_mantissa(k: nat)
    ensures
        frac_digits(MANT as nat, k) == 0,
    decreases k,
{
    lemma_pow10_values();
    lemma_mant_pow_of_unit(9);
    if k > 0 {
        let t = mant_pow(MANT as nat, 9);
        assert(t == MANT);
        assert(t / (MANT as nat) == 1) by {
            vstd::arithmetic::div_mod::lemma_div_by_self(MANT as int);
        }
        assert(ilog10_spec(1nat) == 0);
        assert(pow10(0) == 1);
        vstd::arithmetic::div_mod::lemma_div_basics(t as int);
        assert(t / pow10(0) == t);
        lemma_frac_digits_of_one_mantissa((k - 1) as nat);
        assert(0 * pow10((k - 1) as nat) == 0) by (nonlinear_arith) {}
    }
}

/// Raising the unit mantissa to any truncated power leaves it unchanged.
pub proof fn lemma_mant_pow_of_unit(i: nat)
    ensures
        mant_pow(MANT as nat, i) == MANT,
    decreases i,
{
    if i > 0 {
        lemma_mant_pow_of_unit((i - 1) as nat);
        assert(((MANT as nat) * (MANT as nat)) / (MANT as nat) == MANT) by {
            vstd::arithmetic::div_mod::lemma_div_multiples_vanish(MANT as int, MANT as int);
        }
    }
}

} // verus!
