//! Keyframe interpolation: a timeline holds the control values of one
//! adjustable parameter, in milli-units, and yields the value for any
//! frame of the sequence.  One control value is constant; two or more
//! are blended with Bernstein polynomials over the normalized frame
//! position t = frame_index / (total_frames - 1).
use crate::fixed::{
    binom, binomial_row, div_trunc, div_trunc_i128, fixmul, lemma_binom_le_pow2,
    lemma_binom_symmetry, lemma_div_trunc_common_factor, lemma_div_trunc_half_bounds,
    lemma_div_trunc_mul_cancel, lemma_pow_fix_single, lemma_pow_fix_w_one, lemma_pow_fix_zero,
    lemma_seq_sum_drop_last, lemma_seq_sum_reverse, pow_fix, seq_sum, spec_fixmul, spec_pow_fix,
    T_ONE, VAL_LIMIT, W_ONE,
};
use vstd::prelude::*;

verus! {

/// Most control values one timeline may hold: two dozen, the "small
/// n" the interpolation is designed for.  The cap keeps every
/// Bernstein weight of an allowed timeline well above the truncation
/// grain of the weight scale.
pub const MAX_CONTROL_VALUES: usize = 24;

/// Clamp an interpolated value to the control-value magnitude bound,
/// so that the result always fits where a control value fits.
pub open spec fn clamp_val(x: int) -> int {
    if x < -(VAL_LIMIT as int) {
        -(VAL_LIMIT as int)
    } else if x > VAL_LIMIT as int {
        VAL_LIMIT as int
    } else {
        x
    }
}

/// Magnitude bound of control values as ints, for contract brevity.
pub open spec fn values_bounded(vals: Seq<int>) -> bool {
    forall|j: int| 0 <= j < vals.len() ==> -(VAL_LIMIT as int) <= #[trigger] vals[j] <= VAL_LIMIT as int
}

/// The k-th Bernstein term of the blend at position t, scaled by
/// W_ONE: value_k * C(n, k) * (1 - t)^(n-k) * t^k in fixed point.
/// The position is lifted from the T_ONE scale to the finer weight
/// scale before the power chain.
pub open spec fn bern_term(vals: Seq<int>, t: int, k: int) -> int {
    let n = vals.len() - 1;
    let tw = t * (T_ONE as int);
    vals[k] * binom(n as nat, k as nat) * spec_fixmul(
        spec_pow_fix(W_ONE - tw, (n - k) as nat),
        spec_pow_fix(tw, k as nat),
    )
}

pub open spec fn bern_terms(vals: Seq<int>, t: int) -> Seq<int> {
    Seq::new(vals.len(), |k: int| bern_term(vals, t, k))
}

/// The Bernstein blend of all control values at position t, in
/// milli-units.
pub open spec fn spec_bernstein(vals: Seq<int>, t: int) -> int {
    clamp_val(div_trunc(seq_sum(bern_terms(vals, t)), W_ONE as int))
}

/// Normalized curve position of a frame, in T_ONE scale.
pub open spec fn t_of_frame(frame_index: int, total_frames: int) -> int {
    (frame_index * T_ONE) / (total_frames - 1)
}

/// The value a timeline yields at one frame of a sequence.
pub open spec fn spec_value_at(vals: Seq<int>, frame_index: int, total_frames: int) -> int {
    if vals.len() == 1 || total_frames == 1 {
        vals[0]
    } else {
        spec_bernstein(vals, t_of_frame(frame_index, total_frames))
    }
}

/// Bernstein-polynomial blend of the control points at fixed-point
/// position `t`, following B(t) = sum of C(n,i) * P_i * (1-t)^(n-i) * t^i
/// with integer binomial coefficients.
pub fn bezier_interpolate(control_points: &Vec<i64>, t: i64) -> (r: i64)
    requires
        1 <= control_points@.len() <= MAX_CONTROL_VALUES,
        values_bounded(control_points@.map_values(|v: i64| v as int)),
        0 <= t <= T_ONE,
    ensures
        r == spec_bernstein(control_points@.map_values(|v: i64| v as int), t as int),
        -VAL_LIMIT <= r <= VAL_LIMIT,
{
    let ghost vals = control_points@.map_values(|v: i64| v as int);
    let ghost terms = bern_terms(vals, t as int);
    let tw: i64 = t * T_ONE;
    let n = control_points.len() - 1;
    let row = binomial_row(n);
    let mut sum: i128 = 0;
    let mut k: usize = 0;
    while k < control_points.len()
        invariant
            1 <= control_points@.len() <= MAX_CONTROL_VALUES,
            values_bounded(vals),
            vals == control_points@.map_values(|v: i64| v as int),
            terms == bern_terms(vals, t as int),
            0 <= t <= T_ONE,
            tw == t * T_ONE,
            0 <= tw <= W_ONE,
            n == control_points@.len() - 1,
            row@.len() == n + 1,
            forall|j: int| 0 <= j <= n ==> row@[j] == binom(n as nat, j as nat),
            k <= control_points@.len(),
            sum == seq_sum(terms.subrange(0, k as int)),
            -(k as i128) * TERM_BOUND <= sum <= (k as i128) * TERM_BOUND,
        decreases control_points@.len() - k,
    {
        let w1 = pow_fix(W_ONE - tw, (n - k) as u64);
        let w2 = pow_fix(tw, k as u64);
        let w = fixmul(w1, w2);
        let c = row[k];
        proof {
            lemma_binom_le_pow2(n as nat, k as nat);
            vstd::arithmetic::power2::lemma2_to64();
            if (n as nat) < 23 {
                vstd::arithmetic::power2::lemma_pow2_strictly_increases(n as nat, 23);
            }
        }
        let v = control_points[k];
        proof {
            assert(vals[k as int] == v as int);
            assert(-(VAL_LIMIT as int) <= vals[k as int] <= VAL_LIMIT as int);
            assert(-TERM_BOUND <= ((v as int) * (c as int)) * (w as int) <= TERM_BOUND
                && -TERM_BOUND <= (v as int) * (c as int) <= TERM_BOUND) by (nonlinear_arith)
                requires
                    -1_000_000 <= v as int <= 1_000_000,
                    0 <= c as int <= 8_388_608,
                    0 <= w as int <= 1_000_000_000_000,
                    TERM_BOUND == 8_388_608_000_000_000_000_000_000,
            ;
        }
        let term: i128 = (v as i128) * (c as i128) * (w as i128);
        proof {
            assert(term == bern_term(vals, t as int, k as int));
            assert(terms.subrange(0, k + 1).drop_last() =~= terms.subrange(0, k as int));
            lemma_seq_sum_drop_last(terms.subrange(0, k + 1));
            assert((k as i128 + 1) * TERM_BOUND == (k as i128) * TERM_BOUND + TERM_BOUND) by (nonlinear_arith);
            assert((k as i128) * TERM_BOUND <= 24 * TERM_BOUND) by (nonlinear_arith)
                requires
                    0 <= k as i128 <= 24,
                    TERM_BOUND > 0,
            ;
        }
        sum = sum + term;
        k = k + 1;
    }
    proof {
        assert(terms.subrange(0, control_points@.len() as int) =~= terms);
        assert((k as int) * TERM_BOUND <= 24 * TERM_BOUND
            && -(24 * TERM_BOUND) <= -((k as int) * TERM_BOUND)) by (nonlinear_arith)
            requires
                0 <= k as int <= 24,
                TERM_BOUND > 0,
        ;
    }
    let q = div_trunc_i128(sum, W_ONE as i128);
    if q < -(VAL_LIMIT as i128) {
        -VAL_LIMIT
    } else if q > VAL_LIMIT as i128 {
        VAL_LIMIT
    } else {
        q as i64
    }
}

/// Magnitude bound of one Bernstein term in the accumulator:
/// VAL_LIMIT * 2^23 * W_ONE, the value bound times the binomial bound
/// of an allowed timeline times the weight scale.
pub const TERM_BOUND: i128 = 8_388_608_000_000_000_000_000_000;

/// Per-frame value of a timeline of control values: constant for one
/// value, a Bernstein blend over t = frame_index / (total_frames - 1)
/// otherwise.  For two values the blend is the straight line between
/// them; a single frame always yields the first value, so t is never
/// divided by zero.
pub fn interpolate_value(values: &Vec<i64>, frame_index: usize, total_frames: usize) -> (r: i64)
    requires
        1 <= values@.len() <= MAX_CONTROL_VALUES,
        values_bounded(values@.map_values(|v: i64| v as int)),
        total_frames >= 1,
        frame_index < total_frames,
    ensures
        r == spec_value_at(values@.map_values(|v: i64| v as int), frame_index as int, total_frames as int),
        -VAL_LIMIT <= r <= VAL_LIMIT,
{
    if values.len() == 1 || total_frames == 1 {
        proof {
            assert(values@.map_values(|v: i64| v as int)[0] == values@[0] as int);
        }
        values[0]
    } else {
        let t128: u128 = (frame_index as u128) * (T_ONE as u128) / ((total_frames - 1) as u128);
        proof {
            assert((frame_index as int) * (T_ONE as int) <= (total_frames - 1) * (T_ONE as int))
                by (nonlinear_arith)
                requires
                    0 <= frame_index as int <= total_frames - 1,
                    T_ONE > 0,
            ;
            vstd::arithmetic::div_mod::lemma_div_is_ordered(
                (frame_index as int) * (T_ONE as int),
                (total_frames - 1) * (T_ONE as int),
                (total_frames - 1) as int,
            );
            vstd::arithmetic::div_mod::lemma_div_multiples_vanish(
                T_ONE as int,
                (total_frames - 1) as int,
            );
            vstd::arithmetic::div_mod::lemma_div_pos_is_pos(
                (frame_index as int) * (T_ONE as int),
                (total_frames - 1) as int,
            );
            vstd::arithmetic::mul::lemma_mul_nonnegative(frame_index as int, T_ONE as int);
        }
        let t: i64 = t128 as i64;
        bezier_interpolate(values, t)
    }
}

/// Sum of a two-element sequence.
proof fn lemma_seq_sum2(s: Seq<int>)
    requires
        s.len() == 2,
    ensures
        seq_sum(s) == s[0] + s[1],
{
    assert(seq_sum(s) == s[0] + seq_sum(s.drop_first()));
    assert(seq_sum(s.drop_first()) == s[1] + seq_sum(s.drop_first().drop_first()));
    assert(s.drop_first().drop_first().len() == 0);
}

/// Sum of a three-element sequence.
proof fn lemma_seq_sum3(s: Seq<int>)
    requires
        s.len() == 3,
    ensures
        seq_sum(s) == s[0] + s[1] + s[2],
{
    lemma_seq_sum2(s.drop_first());
    assert(seq_sum(s) == s[0] + seq_sum(s.drop_first()));
    assert(s.drop_first()[0] == s[1] && s.drop_first()[1] == s[2]);
}

/// A timeline of one control value is constant: every frame of every
/// sequence length yields that value.
pub proof fn lemma_constant_timeline(vals: Seq<int>, frame_index: int, total_frames: int)
    requires
        vals.len() == 1,
    ensures
        spec_value_at(vals, frame_index, total_frames) == vals[0],
{
}

/// A timeline of two control values starts at the first value and ends
/// at the second: frame 0 yields the first and the last frame yields
/// the second, for every sequence of more than one frame.
pub proof fn lemma_two_point_endpoints(vals: Seq<int>, total_frames: int)
    requires
        vals.len() == 2,
        values_bounded(vals),
        total_frames >= 2,
    ensures
        spec_value_at(vals, 0, total_frames) == vals[0],
        spec_value_at(vals, total_frames - 1, total_frames) == vals[1],
{
    let d = total_frames - 1;
    assert(t_of_frame(0, total_frames) == 0) by {
        assert(0 * T_ONE == 0) by (nonlinear_arith);
        vstd::arithmetic::div_mod::lemma_div_of0(d);
    }
    assert(t_of_frame(d, total_frames) == T_ONE as int) by {
        vstd::arithmetic::div_mod::lemma_div_by_multiple(T_ONE as int, d);
        assert(d * T_ONE == T_ONE * d) by (nonlinear_arith);
    }
    lemma_bernstein_two_at_zero(vals);
    lemma_bernstein_two_at_one(vals);
}

proof fn lemma_bernstein_two_at_zero(vals: Seq<int>)
    requires
        vals.len() == 2,
        values_bounded(vals),
    ensures
        spec_bernstein(vals, 0) == vals[0],
{
    let terms = bern_terms(vals, 0);
    lemma_pow_fix_w_one(1);
    lemma_pow_fix_zero(1);
    assert(binom(1, 1) == 1) by {
        reveal_with_fuel(binom, 3);
    }
    assert(0 * (T_ONE as int) == 0) by (nonlinear_arith);
    assert(terms[0] == vals[0] * 1 * spec_fixmul(W_ONE as int, W_ONE as int));
    assert(spec_fixmul(W_ONE as int, W_ONE as int) == W_ONE as int) by {
        vstd::arithmetic::div_mod::lemma_div_by_multiple(W_ONE as int, W_ONE as int);
    }
    assert(spec_fixmul(W_ONE as int, 0) == 0) by {
        assert(W_ONE as int * 0 == 0) by (nonlinear_arith);
        vstd::arithmetic::div_mod::lemma_div_of0(W_ONE as int);
    }
    assert(terms[1] == vals[1] * 1 * 0);
    lemma_seq_sum2(terms);
    assert(seq_sum(terms) == vals[0] * (W_ONE as int));
    lemma_div_trunc_mul_cancel(vals[0], W_ONE as int);
    assert(vals[0] <= VAL_LIMIT as int && -(VAL_LIMIT as int) <= vals[0]);
}

proof fn lemma_bernstein_two_at_one(vals: Seq<int>)
    requires
        vals.len() == 2,
        values_bounded(vals),
    ensures
        spec_bernstein(vals, T_ONE as int) == vals[1],
{
    let terms = bern_terms(vals, T_ONE as int);
    lemma_pow_fix_w_one(1);
    lemma_pow_fix_zero(1);
    assert(binom(1, 1) == 1) by {
        reveal_with_fuel(binom, 3);
    }
    assert((T_ONE as int) * (T_ONE as int) == W_ONE as int) by (nonlinear_arith);
    assert(terms[0] == vals[0] * 1 * spec_fixmul(0, W_ONE as int));
    assert(spec_fixmul(0, W_ONE as int) == 0) by {
        assert(0 * (W_ONE as int) == 0) by (nonlinear_arith);
        vstd::arithmetic::div_mod::lemma_div_of0(W_ONE as int);
    }
    assert(spec_fixmul(W_ONE as int, W_ONE as int) == W_ONE as int) by {
        vstd::arithmetic::div_mod::lemma_div_by_multiple(W_ONE as int, W_ONE as int);
    }
    assert(terms[1] == vals[1] * 1 * (W_ONE as int));
    assert(terms[0] == 0) by (nonlinear_arith)
        requires
            terms[0] == vals[0] * 1 * spec_fixmul(0, W_ONE as int),
            spec_fixmul(0, W_ONE as int) == 0,
    ;
    assert(terms[1] == vals[1] * (W_ONE as int)) by (nonlinear_arith)
        requires
            terms[1] == vals[1] * 1 * (W_ONE as int),
    ;
    lemma_seq_sum2(terms);
    assert(seq_sum(terms) == vals[1] * (W_ONE as int));
    lemma_div_trunc_mul_cancel(vals[1], W_ONE as int);
    assert(vals[1] <= VAL_LIMIT as int && -(VAL_LIMIT as int) <= vals[1]);
}

/// The Bernstein blend of a palindromic timeline is symmetric in the
/// curve position: positions t and 1 - t yield the same value.
pub proof fn lemma_bernstein_symmetric(vals: Seq<int>, t: int)
    requires
        1 <= vals.len() <= MAX_CONTROL_VALUES,
        forall|j: int| 0 <= j < vals.len() ==> #[trigger] vals[j] == vals[vals.len() - 1 - j],
        0 <= t <= T_ONE as int,
    ensures
        spec_bernstein(vals, t) == spec_bernstein(vals, T_ONE - t),
{
    let n = vals.len() - 1;
    let a = bern_terms(vals, t);
    let b = bern_terms(vals, T_ONE - t);
    let tw = t * (T_ONE as int);
    assert((T_ONE - t) * (T_ONE as int) == W_ONE - tw) by (nonlinear_arith)
        requires
            tw == t * (T_ONE as int),
            W_ONE == 1_000_000_000_000,
            T_ONE == 1_000_000,
    ;
    assert forall|j: int| 0 <= j < vals.len() implies b[j] == a.reverse()[j] by {
        lemma_binom_symmetry(n as nat, j as nat);
        assert(a.reverse()[j] == bern_term(vals, t, n - j));
        assert(vals[n - j] == vals[j]);
        assert(bern_term(vals, t, n - j) == vals[n - j] * binom(n as nat, (n - j) as nat)
            * spec_fixmul(spec_pow_fix(W_ONE - tw, j as nat), spec_pow_fix(tw, (n - j) as nat)));
        assert(bern_term(vals, T_ONE - t, j) == vals[j] * binom(n as nat, j as nat) * spec_fixmul(
            spec_pow_fix(tw, (n - j) as nat),
            spec_pow_fix(W_ONE - tw, j as nat),
        ));
        assert(spec_fixmul(spec_pow_fix(tw, (n - j) as nat), spec_pow_fix(W_ONE - tw, j as nat))
            == spec_fixmul(spec_pow_fix(W_ONE - tw, j as nat), spec_pow_fix(tw, (n - j) as nat)))
            by {
            assert(spec_pow_fix(tw, (n - j) as nat) * spec_pow_fix(W_ONE - tw, j as nat)
                == spec_pow_fix(W_ONE - tw, j as nat) * spec_pow_fix(tw, (n - j) as nat))
                by (nonlinear_arith);
        }
    }
    assert(b =~= a.reverse());
    lemma_seq_sum_reverse(a);
}

/// A palindromic timeline sampled at a frame whose curve position is
/// exact (the position divides evenly) matches the mirrored frame.
pub proof fn lemma_value_at_symmetric(vals: Seq<int>, frame_index: int, total_frames: int)
    requires
        1 <= vals.len() <= MAX_CONTROL_VALUES,
        forall|j: int| 0 <= j < vals.len() ==> #[trigger] vals[j] == vals[vals.len() - 1 - j],
        total_frames >= 2,
        0 <= frame_index < total_frames,
        (frame_index * T_ONE) % (total_frames - 1) == 0,
    ensures
        spec_value_at(vals, frame_index, total_frames) == spec_value_at(
            vals,
            total_frames - 1 - frame_index,
            total_frames,
        ),
{
    if vals.len() > 1 {
        let d = total_frames - 1;
        let ti = t_of_frame(frame_index, total_frames);
        vstd::arithmetic::mul::lemma_mul_nonnegative(frame_index, T_ONE as int);
        vstd::arithmetic::div_mod::lemma_fundamental_div_mod(frame_index * T_ONE, d);
        assert(frame_index * T_ONE == d * ti);
        assert((d - frame_index) * T_ONE == d * (T_ONE - ti)) by (nonlinear_arith)
            requires
                frame_index * T_ONE == d * ti,
        ;
        assert(t_of_frame(d - frame_index, total_frames) == T_ONE - ti) by {
            vstd::arithmetic::div_mod::lemma_div_multiples_vanish(T_ONE - ti, d);
        }
        assert(0 <= ti <= T_ONE as int) by {
            assert(frame_index * T_ONE <= d * T_ONE) by (nonlinear_arith)
                requires
                    0 <= frame_index <= d,
                    T_ONE > 0,
            ;
            vstd::arithmetic::div_mod::lemma_div_pos_is_pos(frame_index * T_ONE, d);
            vstd::arithmetic::div_mod::lemma_div_is_ordered(frame_index * T_ONE, d * T_ONE, d);
            vstd::arithmetic::div_mod::lemma_div_multiples_vanish(T_ONE as int, d);
        }
        lemma_bernstein_symmetric(vals, ti);
    }
}

/// For a three-value timeline [a, b, a], the middle frame of an
/// odd-length sequence yields the rounded mean of a and b: the value
/// has moved from the endpoints toward the middle control value.
pub proof fn lemma_three_point_midpoint(vals: Seq<int>, total_frames: int)
    requires
        vals.len() == 3,
        vals[0] == vals[2],
        values_bounded(vals),
        total_frames >= 3,
        total_frames % 2 == 1,
    ensures
        spec_value_at(vals, (total_frames - 1) / 2, total_frames) == div_trunc(
            vals[0] + vals[1],
            2,
        ),
        vals[0] <= vals[1] ==> vals[0] <= spec_value_at(vals, (total_frames - 1) / 2, total_frames)
            <= vals[1],
        vals[0] + 2 <= vals[1] ==> vals[0] < spec_value_at(
            vals,
            (total_frames - 1) / 2,
            total_frames,
        ),
{
    let a = vals[0];
    let b = vals[1];
    let d = total_frames - 1;
    let m = d / 2;
    let half = (T_ONE as int) / 2;
    assert(d == 2 * m) by {
        vstd::arithmetic::div_mod::lemma_fundamental_div_mod(d, 2);
        vstd::arithmetic::div_mod::lemma_mod_division_less_than_divisor(d, 2);
        assert(total_frames == d + 1);
    }
    assert(t_of_frame(m, total_frames) == half) by {
        assert(m * T_ONE == d * half) by (nonlinear_arith)
            requires
                d == 2 * m,
                half == (T_ONE as int) / 2,
                T_ONE == 1_000_000,
        ;
        vstd::arithmetic::div_mod::lemma_div_multiples_vanish(half, d);
    }
    lemma_bernstein_three_at_half(vals);
    let r = div_trunc(a + b, 2);
    lemma_div_trunc_half_bounds(a + b);
    assert(vals[0] <= vals[1] ==> vals[0] <= r <= vals[1]);
    assert(vals[0] + 2 <= vals[1] ==> vals[0] < r);
}

proof fn lemma_bernstein_three_at_half(vals: Seq<int>)
    requires
        vals.len() == 3,
        vals[0] == vals[2],
        values_bounded(vals),
    ensures
        spec_bernstein(vals, (T_ONE as int) / 2) == div_trunc(vals[0] + vals[1], 2),
{
    let a = vals[0];
    let b = vals[1];
    let half = (T_ONE as int) / 2;
    let halfw = (W_ONE as int) / 2;
    let quarter = 250_000_000_000int;
    let terms = bern_terms(vals, half);
    assert(binom(2, 1) == 2 && binom(2, 2) == 1 && binom(2, 0) == 1) by {
        reveal_with_fuel(binom, 4);
    }
    assert(half == 500_000 && halfw == 500_000_000_000);
    assert(half * (T_ONE as int) == halfw) by (nonlinear_arith)
        requires
            half == 500_000,
            halfw == 500_000_000_000,
            T_ONE == 1_000_000,
    ;
    lemma_pow_fix_single(halfw);
    assert(spec_pow_fix(halfw, 2) == spec_fixmul(halfw, spec_pow_fix(halfw, 1)));
    assert(spec_pow_fix(halfw, 2) == spec_fixmul(halfw, halfw));
    assert(500_000_000_000int * 500_000_000_000int == 250_000_000_000_000_000_000_000int)
        by (nonlinear_arith);
    assert(spec_fixmul(halfw, halfw) == quarter);
    assert(spec_fixmul(quarter, W_ONE as int) == quarter) by {
        vstd::arithmetic::div_mod::lemma_div_by_multiple(quarter, W_ONE as int);
    }
    assert(spec_fixmul(W_ONE as int, quarter) == quarter) by {
        vstd::arithmetic::div_mod::lemma_div_by_multiple(quarter, W_ONE as int);
        assert(W_ONE as int * quarter == quarter * (W_ONE as int)) by (nonlinear_arith);
    }
    assert(terms[0] == a * 1 * quarter);
    assert(terms[1] == b * 2 * spec_fixmul(halfw, halfw));
    assert(terms[2] == a * 1 * quarter);
    lemma_seq_sum3(terms);
    assert(seq_sum(terms) == (a + b) * halfw) by (nonlinear_arith)
        requires
            seq_sum(terms) == a * 1 * quarter + b * 2 * quarter + a * 1 * quarter,
            quarter == 250_000_000_000,
            halfw == 500_000_000_000,
    ;
    assert(div_trunc((a + b) * halfw, W_ONE as int) == div_trunc(a + b, 2)) by {
        lemma_div_trunc_common_factor(a + b, halfw);
        assert(2 * halfw == W_ONE as int);
    }
    lemma_div_trunc_half_bounds(a + b);
    assert(-(VAL_LIMIT as int) <= div_trunc(a + b, 2) <= VAL_LIMIT as int);
}

} // verus!
