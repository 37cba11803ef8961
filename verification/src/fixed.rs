//! Fixed-point arithmetic shared by the interpolation engine and the
//! per-pixel transform.  One unit of a parameter value is a thousandth
//! (milli-units); curve positions run over a finer scale of one millionth.
use vstd::prelude::*;

verus! {

/// Scale of a curve position t: `T_ONE` stands for t = 1.
pub const T_ONE: i64 = 1_000_000;

/// Scale of a Bernstein weight: the square of the position scale, so
/// that the weights of every allowed timeline stay representable and
/// truncation stays far below one milli-unit.
pub const W_ONE: i64 = 1_000_000_000_000;

/// Magnitude bound on timeline control values, in milli-units.
pub const VAL_LIMIT: i64 = 1_000_000;

/// Truncating division (quotient rounded toward zero), the semantics of
/// Rust's `/` on signed integers, defined for positive divisors.
pub open spec fn div_trunc(a: int, b: int) -> int {
    if a >= 0 {
        a / b
    } else {
        -((-a) / b)
    }
}

/// Truncating division on wide integers; the divisor must be positive.
pub fn div_trunc_i128(a: i128, b: i128) -> (r: i128)
    requires
        b > 0,
        a > i128::MIN,
    ensures
        r == div_trunc(a as int, b as int),
{
    if a >= 0 {
        a / b
    } else {
        -((-a) / b)
    }
}

/// Product of a milli-unit value and an image dimension, wide enough
/// that it cannot overflow.
pub fn mul_milli_dim(a: i64, d: u32) -> (r: i128)
    ensures
        r == (a as int) * (d as int),
        -39_614_081_257_132_168_796_771_975_168 <= r <= 39_614_081_257_132_168_796_771_975_168,
{
    proof {
        assert(-39_614_081_257_132_168_796_771_975_168 <= (a as int) * (d as int)
            <= 39_614_081_257_132_168_796_771_975_168) by (nonlinear_arith)
            requires
                -9_223_372_036_854_775_808 <= a as int <= 9_223_372_036_854_775_807,
                0 <= d as int <= 4_294_967_295,
        ;
    }
    (a as i128) * (d as i128)
}

/// Fixed-point product of two curve weights in `[0, W_ONE]`.
pub open spec fn spec_fixmul(a: int, b: int) -> int {
    (a * b) / (W_ONE as int)
}

pub fn fixmul(a: i64, b: i64) -> (r: i64)
    requires
        0 <= a <= W_ONE,
        0 <= b <= W_ONE,
    ensures
        r == spec_fixmul(a as int, b as int),
        0 <= r <= W_ONE,
{
    proof {
        vstd::arithmetic::mul::lemma_mul_upper_bound(a as int, W_ONE as int, b as int, W_ONE as int);
        vstd::arithmetic::mul::lemma_mul_nonnegative(a as int, b as int);
        vstd::arithmetic::div_mod::lemma_div_nonincreasing(a as int * b as int, W_ONE as int);
        vstd::arithmetic::div_mod::lemma_div_pos_is_pos(a as int * b as int, W_ONE as int);
    }
    ((a as i128 * b as i128) / (W_ONE as i128)) as i64
}

/// k-th fixed-point power of a curve weight: `pow_fix(x, 0) == W_ONE`.
pub open spec fn spec_pow_fix(x: int, k: nat) -> int
    decreases k,
{
    if k == 0 {
        W_ONE as int
    } else {
        spec_fixmul(x, spec_pow_fix(x, (k - 1) as nat))
    }
}

pub proof fn lemma_pow_fix_bounds(x: int, k: nat)
    requires
        0 <= x <= W_ONE,
    ensures
        0 <= spec_pow_fix(x, k) <= W_ONE,
    decreases k,
{
    if k > 0 {
        lemma_pow_fix_bounds(x, (k - 1) as nat);
        let p = spec_pow_fix(x, (k - 1) as nat);
        vstd::arithmetic::mul::lemma_mul_upper_bound(x, W_ONE as int, p, W_ONE as int);
        vstd::arithmetic::mul::lemma_mul_nonnegative(x, p);
        vstd::arithmetic::div_mod::lemma_div_nonincreasing(x * p, W_ONE as int);
        vstd::arithmetic::div_mod::lemma_div_pos_is_pos(x * p, W_ONE as int);
    }
}

/// W_ONE is a fixed point of every fixed-point power.
pub proof fn lemma_pow_fix_w_one(k: nat)
    ensures
        spec_pow_fix(W_ONE as int, k) == W_ONE as int,
    decreases k,
{
    if k > 0 {
        lemma_pow_fix_w_one((k - 1) as nat);
        vstd::arithmetic::div_mod::lemma_div_by_multiple(W_ONE as int, W_ONE as int);
    }
}

/// Positive fixed-point powers of zero vanish.
pub proof fn lemma_pow_fix_zero(k: nat)
    requires
        k >= 1,
    ensures
        spec_pow_fix(0, k) == 0,
    decreases k,
{
    if k > 1 {
        lemma_pow_fix_zero((k - 1) as nat);
    }
    assert(0 * spec_pow_fix(0, (k - 1) as nat) == 0) by (nonlinear_arith);
}

/// The first fixed-point power is the base itself.
pub proof fn lemma_pow_fix_single(x: int)
    requires
        0 <= x,
    ensures
        spec_pow_fix(x, 1) == x,
{
    assert(spec_pow_fix(x, 0) == W_ONE as int);
    assert(spec_pow_fix(x, 1) == spec_fixmul(x, W_ONE as int));
    vstd::arithmetic::div_mod::lemma_div_by_multiple(x, W_ONE as int);
}

pub fn pow_fix(x: i64, k: u64) -> (r: i64)
    requires
        0 <= x <= W_ONE,
    ensures
        r == spec_pow_fix(x as int, k as nat),
        0 <= r <= W_ONE,
{
    let mut i: u64 = 0;
    let mut acc: i64 = W_ONE;
    while i < k
        invariant
            0 <= x <= W_ONE,
            i <= k,
            acc == spec_pow_fix(x as int, i as nat),
            0 <= acc <= W_ONE,
        decreases k - i,
    {
        proof {
            lemma_pow_fix_bounds(x as int, (i + 1) as nat);
        }
        acc = fixmul(x, acc);
        i = i + 1;
    }
    acc
}

/// Dividing a multiple of a positive divisor is exact, also under
/// truncating division.
pub proof fn lemma_div_trunc_mul_cancel(a: int, d: int)
    requires
        d > 0,
    ensures
        div_trunc(a * d, d) == a,
{
    if a >= 0 {
        vstd::arithmetic::div_mod::lemma_div_by_multiple(a, d);
    } else {
        vstd::arithmetic::mul::lemma_mul_nonnegative(-a, d);
        assert(-(a * d) == (-a) * d) by (nonlinear_arith);
        vstd::arithmetic::div_mod::lemma_div_by_multiple(-a, d);
    }
}

/// Halving through a common positive factor: s * m over 2 * m truncates
/// to s over 2.
pub proof fn lemma_div_trunc_common_factor(s: int, m: int)
    requires
        m > 0,
    ensures
        div_trunc(s * m, 2 * m) == div_trunc(s, 2),
{
    if s >= 0 {
        vstd::arithmetic::mul::lemma_mul_nonnegative(s, m);
        vstd::arithmetic::div_mod::lemma_div_denominator(s * m, m, 2);
        assert((s * m) / (m * 2) == ((s * m) / m) / 2);
        vstd::arithmetic::div_mod::lemma_div_by_multiple(s, m);
        assert(m * 2 == 2 * m);
    } else {
        vstd::arithmetic::mul::lemma_mul_nonnegative(-s, m);
        assert(-(s * m) == (-s) * m) by (nonlinear_arith);
        vstd::arithmetic::div_mod::lemma_div_denominator((-s) * m, m, 2);
        assert(((-s) * m) / (m * 2) == (((-s) * m) / m) / 2);
        vstd::arithmetic::div_mod::lemma_div_by_multiple(-s, m);
        assert(m * 2 == 2 * m);
    }
}

/// Truncated halving lies within half a unit of the exact value.
pub proof fn lemma_div_trunc_half_bounds(s: int)
    ensures
        s - 1 <= 2 * div_trunc(s, 2) <= s + 1,
        s >= 0 ==> 2 * div_trunc(s, 2) <= s,
        s <= 0 ==> 2 * div_trunc(s, 2) >= s,
{
    if s >= 0 {
        vstd::arithmetic::div_mod::lemma_fundamental_div_mod(s, 2);
        vstd::arithmetic::div_mod::lemma_mod_division_less_than_divisor(s, 2);
    } else {
        vstd::arithmetic::div_mod::lemma_fundamental_div_mod(-s, 2);
        vstd::arithmetic::div_mod::lemma_mod_division_less_than_divisor(-s, 2);
    }
}

/// Binomial coefficient by the Pascal recurrence.
pub open spec fn binom(n: nat, k: nat) -> nat
    decreases n,
{
    if k == 0 {
        1
    } else if k > n {
        0
    } else {
        binom((n - 1) as nat, (k - 1) as nat) + binom((n - 1) as nat, k)
    }
}

pub proof fn lemma_binom_le_pow2(n: nat, k: nat)
    ensures
        binom(n, k) <= vstd::arithmetic::power2::pow2(n),
    decreases n,
{
    vstd::arithmetic::power2::lemma_pow2_pos(n);
    if k == 0 || k > n {
    } else {
        lemma_binom_le_pow2((n - 1) as nat, (k - 1) as nat);
        lemma_binom_le_pow2((n - 1) as nat, k);
        assert(vstd::arithmetic::power2::pow2(n) == 2 * vstd::arithmetic::power2::pow2(
            (n - 1) as nat,
        )) by {
            vstd::arithmetic::power2::lemma_pow2_unfold(n);
        }
    }
}

pub proof fn lemma_binom_symmetry(n: nat, k: nat)
    requires
        k <= n,
    ensures
        binom(n, k) == binom(n, (n - k) as nat),
    decreases n,
{
    if k == 0 {
        lemma_binom_full(n);
    } else if k == n {
        lemma_binom_full(n);
    } else {
        lemma_binom_symmetry((n - 1) as nat, (k - 1) as nat);
        lemma_binom_symmetry((n - 1) as nat, k);
    }
}

/// `binom(n, n) == 1`.
pub proof fn lemma_binom_full(n: nat)
    ensures
        binom(n, n) == 1,
    decreases n,
{
    if n > 0 {
        lemma_binom_full((n - 1) as nat);
        assert(binom((n - 1) as nat, n) == 0);
    }
}

/// One row of Pascal's triangle: entry `k` of the result is `binom(n, k)`.
pub fn binomial_row(n: usize) -> (row: Vec<u64>)
    requires
        n <= 63,
    ensures
        row@.len() == n + 1,
        forall|k: int| 0 <= k <= n ==> row@[k] == binom(n as nat, k as nat),
{
    let mut row: Vec<u64> = Vec::new();
    row.push(1);
    let mut m: usize = 0;
    while m < n
        invariant
            n <= 63,
            m <= n,
            row@.len() == m + 1,
            forall|k: int| 0 <= k <= m ==> row@[k] == binom(m as nat, k as nat),
        decreases n - m,
    {
        let mut next: Vec<u64> = Vec::new();
        next.push(1);
        let mut k: usize = 1;
        while k <= m
            invariant
                m < n <= 63,
                1 <= k <= m + 1,
                row@.len() == m + 1,
                forall|j: int| 0 <= j <= m ==> row@[j] == binom(m as nat, j as nat),
                next@.len() == k,
                forall|j: int| 0 <= j < k ==> next@[j] == binom((m + 1) as nat, j as nat),
            decreases m + 1 - k,
        {
            proof {
                lemma_binom_le_pow2(m as nat, (k - 1) as nat);
                lemma_binom_le_pow2(m as nat, k as nat);
                vstd::arithmetic::power2::lemma_pow2_adds(m as nat, 1);
                vstd::arithmetic::power2::lemma_pow2_strictly_increases(m as nat + 1, 64);
                vstd::arithmetic::power2::lemma2_to64();
                vstd::arithmetic::power2::lemma2_to64_rest();
            }
            let e: u64 = row[k - 1] + row[k];
            next.push(e);
            k = k + 1;
        }
        next.push(1);
        proof {
            lemma_binom_full((m + 1) as nat);
        }
        row = next;
        m = m + 1;
    }
    row
}

/// Sum of a sequence of integers.
pub open spec fn seq_sum(s: Seq<int>) -> int
    decreases s.len(),
{
    if s.len() == 0 {
        0
    } else {
        s[0] + seq_sum(s.drop_first())
    }
}

pub proof fn lemma_seq_sum_drop_last(s: Seq<int>)
    requires
        s.len() > 0,
    ensures
        seq_sum(s) == seq_sum(s.drop_last()) + s.last(),
    decreases s.len(),
{
    if s.len() == 1 {
        assert(s.drop_first().len() == 0);
        assert(s.drop_last().len() == 0);
        assert(seq_sum(s.drop_first()) == 0);
        assert(seq_sum(s.drop_last()) == 0);
        assert(seq_sum(s) == s[0] + seq_sum(s.drop_first()));
    } else {
        lemma_seq_sum_drop_last(s.drop_first());
        assert(s.drop_first().drop_last() =~= s.drop_last().drop_first());
        assert(seq_sum(s) == s[0] + seq_sum(s.drop_first()));
        assert(seq_sum(s.drop_last()) == s.drop_last()[0] + seq_sum(s.drop_last().drop_first()));
    }
}

/// Reversing a sequence leaves its sum unchanged.
pub proof fn lemma_seq_sum_reverse(s: Seq<int>)
    ensures
        seq_sum(s.reverse()) == seq_sum(s),
    decreases s.len(),
{
    if s.len() > 0 {
        lemma_seq_sum_reverse(s.drop_first());
        lemma_seq_sum_drop_last(s.reverse());
        assert(s.reverse().drop_last() =~= s.drop_first().reverse());
        assert(s.reverse().last() == s[0]);
    }
}

} // verus!
