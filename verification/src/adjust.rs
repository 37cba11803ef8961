//! The per-frame photographic transform: exposure, brightness,
//! contrast and saturation applied per pixel inside the resolved crop
//! window.  Channels are carried at 4096 sub-steps per 8-bit step, the
//! exposure multiplier at a scale of 65536, so that the identity
//! parameters transform every pixel exactly to itself.
use crate::crop::{
    axis_rect, parse_crop_string, resolve_crop, spec_crop_params, CropError, CropRect,
};
use crate::fixed::{div_trunc, lemma_div_trunc_mul_cancel, VAL_LIMIT};
use crate::frame::Image;
use crate::timeline::{interpolate_value, spec_value_at, values_bounded, MAX_CONTROL_VALUES};
use vstd::prelude::*;

verus! {

/// Sub-steps a channel is carried at: 4096 per 8-bit step.
pub const PIX_NORM: i64 = 4096;

/// Channel value standing for full brightness: 255 * PIX_NORM.
pub const PIX_ONE: i64 = 1_044_480;

/// Mid-gray, the fixed point of the contrast transform.
pub const PIX_HALF: i64 = 522_240;

/// Scale of the exposure multiplier: EXP_ONE stands for a factor of 1.
pub const EXP_ONE: i64 = 65_536;

/// Eighth-stop samples of the doubling curve, scaled by EXP_ONE.
pub open spec fn pow2_table(i: int) -> int {
    if i <= 0 {
        65_536
    } else if i == 1 {
        71_468
    } else if i == 2 {
        77_936
    } else if i == 3 {
        84_990
    } else if i == 4 {
        92_682
    } else if i == 5 {
        101_070
    } else if i == 6 {
        110_218
    } else if i == 7 {
        120_194
    } else {
        131_072
    }
}

/// Whole-stop factors: 2^q scaled by EXP_ONE, for q in [-3, 3].
pub open spec fn pow2_base(q: int) -> int {
    if q <= -3 {
        8_192
    } else if q == -2 {
        16_384
    } else if q == -1 {
        32_768
    } else if q == 0 {
        65_536
    } else if q == 1 {
        131_072
    } else if q == 2 {
        262_144
    } else {
        524_288
    }
}

/// Factor for the fractional part of a stop, r in [0, 1000) milli-stops,
/// interpolated between eighth-stop samples.
pub open spec fn pow2_frac(r: int) -> int {
    let seg = r / 125;
    let rem = r % 125;
    pow2_table(seg) + div_trunc((pow2_table(seg + 1) - pow2_table(seg)) * rem, 125)
}

/// The exposure multiplier 2^(e/1000), scaled by EXP_ONE: exact at
/// whole stops, eighth-stop table segments with linear blend between.
pub open spec fn spec_pow2_milli(e: int) -> int {
    let q = e / 1000;
    let r = e % 1000;
    div_trunc(pow2_base(q) * pow2_frac(r), EXP_ONE as int)
}

/// Compute the exposure multiplier for e milli-stops.
pub fn pow2_milli(e: i64) -> (m: i64)
    requires
        -3000 <= e <= 3000,
    ensures
        m == spec_pow2_milli(e as int),
        8_192 <= m <= 524_288,
        e == 0 ==> m == EXP_ONE,
        e == 1000 ==> m == 2 * EXP_ONE,
{
    let q: i64 = if e >= 0 {
        e / 1000
    } else {
        -((999 - e) / 1000)
    };
    let r: i64 = e - q * 1000;
    proof {
        if e >= 0 {
            assert(q == e as int / 1000 && r == e as int % 1000);
            assert(0 <= r < 1000) by {
                vstd::arithmetic::div_mod::lemma_fundamental_div_mod(e as int, 1000);
                vstd::arithmetic::div_mod::lemma_mod_division_less_than_divisor(e as int, 1000);
            }
        } else {
            assert(0 <= r < 1000) by {
                vstd::arithmetic::div_mod::lemma_fundamental_div_mod(999 - e, 1000);
                vstd::arithmetic::div_mod::lemma_mod_division_less_than_divisor(999 - e, 1000);
            }
            vstd::arithmetic::div_mod::lemma_fundamental_div_mod_converse(
                e as int,
                1000,
                q as int,
                r as int,
            );
        }
    }
    let seg: i64 = r / 125;
    let rem: i64 = r % 125;
    let lo: i64 = pow2_table_at(seg);
    let hi: i64 = pow2_table_at(seg + 1);
    proof {
        assert(0 <= seg <= 7);
        assert(0 <= rem < 125);
        assert(0 <= hi - lo <= 11_000);
        assert(0 <= (hi - lo) as int * rem as int && (hi - lo) as int * rem as int <= (hi
            - lo) as int * 125 && (hi - lo) as int * 125 <= 11_000int * 125) by (nonlinear_arith)
            requires
                0 <= (hi - lo) as int <= 11_000,
                0 <= rem as int && (rem as int) < 125,
        ;
    }
    let frac: i64 = lo + ((hi - lo) * rem) / 125;
    proof {
        assert(frac == pow2_frac(r as int));
        assert(lo <= frac <= hi) by {
            vstd::arithmetic::div_mod::lemma_div_is_ordered(
                0,
                (hi - lo) as int * rem as int,
                125,
            );
            vstd::arithmetic::div_mod::lemma_div_is_ordered(
                (hi - lo) as int * rem as int,
                (hi - lo) as int * 125,
                125,
            );
            vstd::arithmetic::div_mod::lemma_div_by_multiple((hi - lo) as int, 125);
        }
        assert(65_536 <= frac <= 131_072);
    }
    let base: i64 = pow2_base_at(q);
    proof {
        assert(base * frac >= 0 && base as int * frac as int <= 524_288int * 131_072)
            by (nonlinear_arith)
            requires
                0 <= base as int <= 524_288,
                0 <= frac as int <= 131_072,
        ;
    }
    let m: i64 = (base * frac) / EXP_ONE;
    proof {
        assert(m == div_trunc(base as int * frac as int, EXP_ONE as int));
        assert(base as int * frac as int >= 8_192int * 65_536) by (nonlinear_arith)
            requires
                8_192 <= base as int,
                65_536 <= frac as int,
        ;
        vstd::arithmetic::div_mod::lemma_div_is_ordered(
            8_192int * 65_536,
            base as int * frac as int,
            EXP_ONE as int,
        );
        vstd::arithmetic::div_mod::lemma_div_by_multiple(8_192, EXP_ONE as int);
        assert(8_192int * 65_536 == 8_192int * (EXP_ONE as int));
        if e == 3000 {
            assert(r == 0 && rem == 0 && lo == 65_536);
            assert((hi - lo) as int * rem as int == 0) by (nonlinear_arith)
                requires
                    rem as int == 0,
            ;
            vstd::arithmetic::div_mod::lemma_div_of0(125);
            assert(frac == 65_536);
            assert(base as int * frac as int == base as int * (EXP_ONE as int));
            lemma_div_trunc_mul_cancel(base as int, EXP_ONE as int);
        } else {
            assert(q <= 2);
            assert(base as int <= 262_144);
            assert(base as int * frac as int <= 262_144int * 131_072) by (nonlinear_arith)
                requires
                    0 <= base as int <= 262_144,
                    0 <= frac as int <= 131_072,
            ;
            vstd::arithmetic::div_mod::lemma_div_is_ordered(
                base as int * frac as int,
                262_144int * 131_072,
                EXP_ONE as int,
            );
            assert(262_144int * 131_072 == 524_288int * 65_536) by (nonlinear_arith);
            vstd::arithmetic::div_mod::lemma_div_by_multiple(524_288, EXP_ONE as int);
        }
        if e == 0 || e == 1000 {
            assert(r == 0 && rem == 0 && lo == 65_536);
            assert((hi - lo) as int * rem as int == 0) by (nonlinear_arith)
                requires
                    rem as int == 0,
            ;
            vstd::arithmetic::div_mod::lemma_div_of0(125);
            assert(frac == 65_536);
            assert(base as int * frac as int == base as int * (EXP_ONE as int));
            lemma_div_trunc_mul_cancel(base as int, EXP_ONE as int);
        }
    }
    m
}

fn pow2_table_at(i: i64) -> (r: i64)
    ensures
        r == pow2_table(i as int),
{
    if i <= 0 {
        65_536
    } else if i == 1 {
        71_468
    } else if i == 2 {
        77_936
    } else if i == 3 {
        84_990
    } else if i == 4 {
        92_682
    } else if i == 5 {
        101_070
    } else if i == 6 {
        110_218
    } else if i == 7 {
        120_194
    } else {
        131_072
    }
}

fn pow2_base_at(q: i64) -> (r: i64)
    ensures
        r == pow2_base(q as int),
{
    if q <= -3 {
        8_192
    } else if q == -2 {
        16_384
    } else if q == -1 {
        32_768
    } else if q == 0 {
        65_536
    } else if q == 1 {
        131_072
    } else if q == 2 {
        262_144
    } else {
        524_288
    }
}

/// One channel before saturation: normalize, exposure, brightness,
/// contrast.
pub open spec fn channel_pre(v: int, mult: int, bdelta: int, c: int) -> int {
    let x0 = v * PIX_NORM;
    let x1 = div_trunc(x0 * mult, EXP_ONE as int);
    let x2 = x1 + bdelta;
    div_trunc((x2 - PIX_HALF) * c, 1000) + PIX_HALF
}

/// Rec. 601 luma of a pixel, in channel scale.
pub open spec fn luma_of(r: int, g: int, b: int) -> int {
    div_trunc(299 * r + 587 * g + 114 * b, 1000)
}

/// Saturation: move a channel away from (or toward) the luma.
pub open spec fn channel_sat(x: int, l: int, s: int) -> int {
    l + div_trunc((x - l) * s, 1000)
}

/// Clamp to the displayable range and truncate to an 8-bit step.
pub open spec fn channel_to_byte(x: int) -> int {
    if x < 0 {
        0
    } else if x > PIX_ONE {
        255
    } else {
        x / (PIX_NORM as int)
    }
}

/// The whole per-pixel transform.
pub open spec fn adjust_pixel(p: (int, int, int), mult: int, bdelta: int, c: int, s: int) -> (
    int,
    int,
    int,
) {
    let r1 = channel_pre(p.0, mult, bdelta, c);
    let g1 = channel_pre(p.1, mult, bdelta, c);
    let b1 = channel_pre(p.2, mult, bdelta, c);
    let l = luma_of(r1, g1, b1);
    (
        channel_to_byte(channel_sat(r1, l, s)),
        channel_to_byte(channel_sat(g1, l, s)),
        channel_to_byte(channel_sat(b1, l, s)),
    )
}

/// Parameter bounds under which the transform is computed.
pub open spec fn params_ok(mult: int, bdelta: int, c: int, s: int) -> bool {
    &&& 0 < mult <= 1_048_576
    &&& -11_000_000 <= bdelta <= 11_000_000
    &&& -(VAL_LIMIT as int) <= c <= VAL_LIMIT as int
    &&& -(VAL_LIMIT as int) <= s <= VAL_LIMIT as int
}

proof fn lemma_div_trunc_range(a: int, b: int)
    requires
        b >= 1,
    ensures
        a >= 0 ==> 0 <= div_trunc(a, b) <= a,
        a < 0 ==> a <= div_trunc(a, b) <= 0,
{
    if a >= 0 {
        vstd::arithmetic::div_mod::lemma_div_nonincreasing(a, b);
        vstd::arithmetic::div_mod::lemma_div_pos_is_pos(a, b);
    } else {
        vstd::arithmetic::div_mod::lemma_div_nonincreasing(-a, b);
        vstd::arithmetic::div_mod::lemma_div_pos_is_pos(-a, b);
    }
}

fn channel_pre_exec(v: u8, mult: i64, bdelta: i64, c: i64) -> (r: i128)
    requires
        params_ok(mult as int, bdelta as int, c as int, 0),
    ensures
        r == channel_pre(v as int, mult as int, bdelta as int, c as int),
        -2_000_000_000_000_000_000 <= r <= 2_000_000_000_000_000_000,
{
    proof {
        assert(0 <= (v as int) * (PIX_NORM as int) <= 1_044_480) by (nonlinear_arith)
            requires
                0 <= v as int <= 255,
        ;
    }
    let x0: i128 = (v as i128) * (PIX_NORM as i128);
    proof {
        assert(0 <= x0 as int * mult as int <= 1_044_480 * 1_048_576) by (nonlinear_arith)
            requires
                0 <= x0 as int <= 1_044_480,
                0 < mult as int <= 1_048_576,
        ;
    }
    let x1: i128 = crate::fixed::div_trunc_i128(x0 * (mult as i128), EXP_ONE as i128);
    proof {
        lemma_div_trunc_range(x0 as int * mult as int, EXP_ONE as int);
    }
    let x2: i128 = x1 + (bdelta as i128);
    proof {
        assert(-1_200_000_000_000 <= (x2 - PIX_HALF as i128) as int <= 1_200_000_000_000);
        assert(
            -1_200_000_000_000_000_000 <= (x2 - PIX_HALF as i128) as int * c as int
                <= 1_200_000_000_000_000_000) by (nonlinear_arith)
            requires
                -1_200_000_000_000 <= (x2 - PIX_HALF as i128) as int <= 1_200_000_000_000,
                -1_000_000 <= c as int <= 1_000_000,
        ;
    }
    let x3: i128 = crate::fixed::div_trunc_i128((x2 - (PIX_HALF as i128)) * (c as i128), 1000)
        + (PIX_HALF as i128);
    proof {
        lemma_div_trunc_range((x2 - PIX_HALF as i128) as int * c as int, 1000);
    }
    x3
}

/// Apply the four adjustments to one pixel.
pub fn adjust_pixel_exec(p: (u8, u8, u8), mult: i64, bdelta: i64, c: i64, s: i64) -> (r: (
    u8,
    u8,
    u8,
))
    requires
        params_ok(mult as int, bdelta as int, c as int, s as int),
    ensures
        (r.0 as int, r.1 as int, r.2 as int) == adjust_pixel(
            (p.0 as int, p.1 as int, p.2 as int),
            mult as int,
            bdelta as int,
            c as int,
            s as int,
        ),
{
    let r1 = channel_pre_exec(p.0, mult, bdelta, c);
    let g1 = channel_pre_exec(p.1, mult, bdelta, c);
    let b1 = channel_pre_exec(p.2, mult, bdelta, c);
    proof {
        assert(299 * r1 as int + 587 * g1 as int + 114 * b1 as int <= 1000
            * 2_000_000_000_000_000_000 && 299 * r1 as int + 587 * g1 as int + 114 * b1 as int
            >= -1000 * 2_000_000_000_000_000_000);
    }
    let lnum: i128 = 299 * r1 + 587 * g1 + 114 * b1;
    let l: i128 = crate::fixed::div_trunc_i128(lnum, 1000);
    proof {
        lemma_div_trunc_range(lnum as int, 1000);
    }
    let cr = sat_to_byte(r1, l, s);
    let cg = sat_to_byte(g1, l, s);
    let cb = sat_to_byte(b1, l, s);
    (cr, cg, cb)
}

fn sat_to_byte(x: i128, l: i128, s: i64) -> (r: u8)
    requires
        -2_000_000_000_000_000_000 <= x <= 2_000_000_000_000_000_000,
        -2_000_000_000_000_000_000_000 <= l <= 2_000_000_000_000_000_000_000,
        -(VAL_LIMIT as int) <= s as int <= VAL_LIMIT as int,
    ensures
        r as int == channel_to_byte(channel_sat(x as int, l as int, s as int)),
{
    proof {
        assert(-4_100_000_000_000_000_000_000_000_000 <= (x - l) as int * s as int
            <= 4_100_000_000_000_000_000_000_000_000) by (nonlinear_arith)
            requires
                -4_100_000_000_000_000_000_000 <= (x - l) as int
                    <= 4_100_000_000_000_000_000_000,
                -1_000_000 <= s as int <= 1_000_000,
        ;
    }
    let d: i128 = crate::fixed::div_trunc_i128((x - l) * (s as i128), 1000);
    proof {
        lemma_div_trunc_range((x - l) as int * s as int, 1000);
    }
    let y: i128 = l + d;
    if y < 0 {
        0
    } else if y > PIX_ONE as i128 {
        255
    } else {
        proof {
            vstd::arithmetic::div_mod::lemma_div_pos_is_pos(y as int, PIX_NORM as int);
            vstd::arithmetic::div_mod::lemma_div_is_ordered(y as int, PIX_ONE as int, PIX_NORM as int);
        }
        (y / (PIX_NORM as i128)) as u8
    }
}

/// With exposure 0, brightness 0, contrast 1 and saturation 1, the
/// transform is the identity on every pixel.
pub proof fn lemma_identity_adjustment(p: (int, int, int))
    requires
        0 <= p.0 <= 255,
        0 <= p.1 <= 255,
        0 <= p.2 <= 255,
    ensures
        adjust_pixel(p, EXP_ONE as int, 0, 1000, 1000) == p,
{
    lemma_identity_channel(p.0);
    lemma_identity_channel(p.1);
    lemma_identity_channel(p.2);
    let r1 = channel_pre(p.0, EXP_ONE as int, 0, 1000);
    let g1 = channel_pre(p.1, EXP_ONE as int, 0, 1000);
    let b1 = channel_pre(p.2, EXP_ONE as int, 0, 1000);
    let l = luma_of(r1, g1, b1);
    lemma_identity_sat(r1, l);
    lemma_identity_sat(g1, l);
    lemma_identity_sat(b1, l);
    lemma_byte_roundtrip(p.0);
    lemma_byte_roundtrip(p.1);
    lemma_byte_roundtrip(p.2);
}

proof fn lemma_identity_channel(v: int)
    requires
        0 <= v <= 255,
    ensures
        channel_pre(v, EXP_ONE as int, 0, 1000) == v * PIX_NORM,
{
    let x0 = v * PIX_NORM;
    assert(0 <= x0 <= PIX_ONE as int) by (nonlinear_arith)
        requires
            0 <= v <= 255,
            x0 == v * (PIX_NORM as int),
    ;
    lemma_div_trunc_mul_cancel(x0, EXP_ONE as int);
    lemma_div_trunc_mul_cancel(x0 - PIX_HALF, 1000);
}

proof fn lemma_identity_sat(x: int, l: int)
    ensures
        channel_sat(x, l, 1000) == x,
{
    lemma_div_trunc_mul_cancel(x - l, 1000);
}

proof fn lemma_byte_roundtrip(v: int)
    requires
        0 <= v <= 255,
    ensures
        channel_to_byte(v * PIX_NORM) == v,
{
    assert(0 <= v * (PIX_NORM as int) <= PIX_ONE as int) by (nonlinear_arith)
        requires
            0 <= v <= 255,
    ;
    vstd::arithmetic::div_mod::lemma_div_by_multiple(v, PIX_NORM as int);
}

/// One full positive stop doubles every channel exactly, clamped at
/// full brightness, when the other parameters are the identity.
pub proof fn lemma_one_stop_doubles(p: (int, int, int))
    requires
        0 <= p.0 <= 255,
        0 <= p.1 <= 255,
        0 <= p.2 <= 255,
    ensures
        adjust_pixel(p, 2 * EXP_ONE as int, 0, 1000, 1000) == (
            if 2 * p.0 > 255 {
                255int
            } else {
                2 * p.0
            },
            if 2 * p.1 > 255 {
                255int
            } else {
                2 * p.1
            },
            if 2 * p.2 > 255 {
                255int
            } else {
                2 * p.2
            },
        ),
{
    lemma_double_channel(p.0);
    lemma_double_channel(p.1);
    lemma_double_channel(p.2);
    let r1 = channel_pre(p.0, 2 * EXP_ONE as int, 0, 1000);
    let g1 = channel_pre(p.1, 2 * EXP_ONE as int, 0, 1000);
    let b1 = channel_pre(p.2, 2 * EXP_ONE as int, 0, 1000);
    let l = luma_of(r1, g1, b1);
    lemma_identity_sat(r1, l);
    lemma_identity_sat(g1, l);
    lemma_identity_sat(b1, l);
    lemma_byte_double(p.0);
    lemma_byte_double(p.1);
    lemma_byte_double(p.2);
}

proof fn lemma_double_channel(v: int)
    requires
        0 <= v <= 255,
    ensures
        channel_pre(v, 2 * EXP_ONE as int, 0, 1000) == 2 * v * PIX_NORM,
{
    let x0 = v * PIX_NORM;
    assert(x0 * (2 * EXP_ONE as int) == (2 * x0) * EXP_ONE) by (nonlinear_arith);
    assert(0 <= 2 * x0) by (nonlinear_arith)
        requires
            0 <= v <= 255,
            x0 == v * (PIX_NORM as int),
    ;
    lemma_div_trunc_mul_cancel(2 * x0, EXP_ONE as int);
    lemma_div_trunc_mul_cancel(2 * x0 - PIX_HALF, 1000);
    assert(2 * x0 == 2 * v * PIX_NORM) by (nonlinear_arith)
        requires
            x0 == v * (PIX_NORM as int),
    ;
}

proof fn lemma_byte_double(v: int)
    requires
        0 <= v <= 255,
    ensures
        channel_to_byte(2 * v * PIX_NORM) == if 2 * v > 255 {
            255int
        } else {
            2 * v
        },
{
    assert(0 <= 2 * v * (PIX_NORM as int) && (2 * v <= 255 ==> 2 * v * (PIX_NORM as int)
        <= PIX_ONE as int) && (2 * v > 255 ==> 2 * v * (PIX_NORM as int) > PIX_ONE as int))
        by (nonlinear_arith)
        requires
            0 <= v <= 255,
    ;
    if 2 * v <= 255 {
        vstd::arithmetic::div_mod::lemma_div_by_multiple(2 * v, PIX_NORM as int);
        assert((2 * v) * (PIX_NORM as int) == 2 * v * (PIX_NORM as int)) by (nonlinear_arith);
    }
}

/// The channels of the pixel at (x, y) in a packed RGB byte sequence.
pub open spec fn packed_pixel(d: Seq<u8>, w: int, x: int, y: int) -> (int, int, int) {
    let base = 3 * (y * w + x);
    (d[base] as int, d[base + 1] as int, d[base + 2] as int)
}

/// An earlier pixel of the row-major order ends before a later one
/// begins.
proof fn lemma_pixel_order(w: int, x: int, y: int, x2: int, y2: int)
    requires
        0 <= x < w,
        0 <= y,
        0 <= x2 < w,
        0 <= y2,
        y2 < y || (y2 == y && x2 < x),
    ensures
        0 <= 3 * (y2 * w + x2),
        3 * (y2 * w + x2) + 3 <= 3 * (y * w + x),
    decreases 0int,
{
    assert(y2 * w + x2 < y * w + x && 0 <= y2 * w + x2) by (nonlinear_arith)
        requires
            0 <= x < w,
            0 <= y,
            0 <= x2 < w,
            0 <= y2,
            y2 < y || (y2 == y && x2 < x),
    ;
}

/// Read the pixel at (x, y).
fn get_pixel(img: &Image, x: u32, y: u32) -> (p: (u8, u8, u8))
    requires
        img.wf(),
        x < img.width,
        y < img.height,
    ensures
        (p.0 as int, p.1 as int, p.2 as int) == img.pixel(x as int, y as int),
{
    let n: usize = img.data.len();
    proof {
        assert(0 <= (y as int) * (img.width as int) && 3 * ((y as int) * (img.width as int)
            + x as int) + 3 <= 3 * (img.width as int) * (img.height as int) && (y as int) * (
        img.width as int) + x as int <= 3 * (img.width as int) * (img.height as int))
            by (nonlinear_arith)
            requires
                0 <= x as int && (x as int) < img.width as int,
                0 <= y as int && (y as int) < img.height as int,
        ;
    }
    let base: usize = 3 * ((y as usize) * (img.width as usize) + (x as usize));
    (img.data[base], img.data[base + 1], img.data[base + 2])
}

/// The packed bytes of a transformed frame, as a function of the
/// source bytes, the source width, the crop window and the four
/// per-frame parameters: byte i belongs to channel i % 3 of output
/// pixel i / 3, which maps back into the crop window of the source.
pub open spec fn transformed_data(
    d: Seq<u8>,
    w: int,
    sx: int,
    sy: int,
    ex: int,
    ey: int,
    mult: int,
    bdelta: int,
    c: int,
    s: int,
) -> Seq<u8> {
    let ow = ex - sx;
    Seq::new(
        (3 * ((ey - sy) * (ex - sx))) as nat,
        |i: int|
            {
                let p = i / 3;
                let ch = i % 3;
                let t = adjust_pixel(
                    packed_pixel(d, w, sx + p % ow, sy + p / ow),
                    mult,
                    bdelta,
                    c,
                    s,
                );
                (if ch == 0 {
                    t.0
                } else if ch == 1 {
                    t.1
                } else {
                    t.2
                }) as u8
            },
    )
}

/// Apply one set of per-frame parameters to every pixel inside the
/// crop window; pixels outside are dropped, not copied.
pub fn transform_image(img: &Image, rect: &CropRect, mult: i64, bdelta: i64, c: i64, s: i64) -> (
    out: Image)
    requires
        img.wf(),
        rect.start_x <= rect.end_x <= img.width,
        rect.start_y <= rect.end_y <= img.height,
        params_ok(mult as int, bdelta as int, c as int, s as int),
    ensures
        out.wf(),
        out.width == rect.end_x - rect.start_x,
        out.height == rect.end_y - rect.start_y,
        forall|x: int, y: int|
            0 <= x < out.width && 0 <= y < out.height ==> #[trigger] out.pixel(x, y)
                == adjust_pixel(
                img.pixel(rect.start_x + x, rect.start_y + y),
                mult as int,
                bdelta as int,
                c as int,
                s as int,
            ),
        out.data@ == transformed_data(
            img.data@,
            img.width as int,
            rect.start_x as int,
            rect.start_y as int,
            rect.end_x as int,
            rect.end_y as int,
            mult as int,
            bdelta as int,
            c as int,
            s as int,
        ),
{
    let new_w: u32 = rect.end_x - rect.start_x;
    let new_h: u32 = rect.end_y - rect.start_y;
    let mut data: Vec<u8> = Vec::new();
    proof {
        assert(3 * (0int * (new_w as int)) == 0) by (nonlinear_arith);
    }
    let mut y: u32 = 0;
    while y < new_h
        invariant
            img.wf(),
            rect.start_x <= rect.end_x <= img.width,
            rect.start_y <= rect.end_y <= img.height,
            params_ok(mult as int, bdelta as int, c as int, s as int),
            new_w == rect.end_x - rect.start_x,
            new_h == rect.end_y - rect.start_y,
            y <= new_h,
            data@.len() == 3 * ((y as int) * (new_w as int)),
            forall|xx: int, yy: int|
                0 <= xx < new_w && 0 <= yy < y ==> #[trigger] packed_pixel(
                    data@,
                    new_w as int,
                    xx,
                    yy,
                ) == adjust_pixel(
                    img.pixel(rect.start_x + xx, rect.start_y + yy),
                    mult as int,
                    bdelta as int,
                    c as int,
                    s as int,
                ),
        decreases new_h - y,
    {
        let mut x: u32 = 0;

        while x < new_w
            invariant
                img.wf(),
                rect.start_x <= rect.end_x <= img.width,
                rect.start_y <= rect.end_y <= img.height,
                params_ok(mult as int, bdelta as int, c as int, s as int),
                new_w == rect.end_x - rect.start_x,
                new_h == rect.end_y - rect.start_y,
                y < new_h,
                x <= new_w,
                data@.len() == 3 * ((y as int) * (new_w as int) + x as int),
                forall|xx: int, yy: int|
                    0 <= xx < new_w && (yy < y && 0 <= yy || (yy == y && 0 <= xx < x))
                        ==> #[trigger] packed_pixel(data@, new_w as int, xx, yy) == adjust_pixel(
                        img.pixel(rect.start_x + xx, rect.start_y + yy),
                        mult as int,
                        bdelta as int,
                        c as int,
                        s as int,
                    ),
            decreases new_w - x,
        {
            let ghost old_data = data@;
            let src = get_pixel(img, rect.start_x + x, rect.start_y + y);
            let dst = adjust_pixel_exec(src, mult, bdelta, c, s);
            proof {
                lemma_pixel_order(new_w as int, new_w - 1, new_h as int, x as int, y as int);
            }
            data.push(dst.0);
            data.push(dst.1);
            data.push(dst.2);
            proof {
                assert(data@.len() == 3 * ((y as int) * (new_w as int) + x as int) + 3);
                assert(3 * ((y as int) * (new_w as int) + x as int) + 3 == 3 * ((y as int) * (
                new_w as int) + (x as int + 1)));
                assert forall|xx: int, yy: int|
                    0 <= xx < new_w && (yy < y && 0 <= yy || (yy == y && 0 <= xx < x
                        + 1)) implies #[trigger] packed_pixel(data@, new_w as int, xx, yy)
                    == adjust_pixel(
                    img.pixel(rect.start_x + xx, rect.start_y + yy),
                    mult as int,
                    bdelta as int,
                    c as int,
                    s as int,
                ) by {
                    if yy == y && xx == x {
                        assert(packed_pixel(data@, new_w as int, xx, yy) == (
                            dst.0 as int,
                            dst.1 as int,
                            dst.2 as int,
                        ));
                    } else {
                        lemma_pixel_order(new_w as int, x as int, y as int, xx, yy);
                        assert(packed_pixel(data@, new_w as int, xx, yy) == packed_pixel(
                            old_data,
                            new_w as int,
                            xx,
                            yy,
                        ));
                    }
                }
            }
            x = x + 1;
        }
        proof {
            assert(3 * ((y as int) * (new_w as int) + new_w as int) == 3 * ((y as int + 1) * (
            new_w as int))) by (nonlinear_arith);
        }
        y = y + 1;
    }
    proof {
        assert(3 * ((new_h as int) * (new_w as int)) == 3 * (new_w as int) * (new_h as int))
            by (nonlinear_arith);
    }
    let ghost d = data@;
    let out = Image { width: new_w, height: new_h, data };
    proof {
        assert forall|x: int, y: int| 0 <= x < out.width && 0 <= y < out.height implies #[trigger] out.pixel(
            x,
            y,
        ) == adjust_pixel(
            img.pixel(rect.start_x + x, rect.start_y + y),
            mult as int,
            bdelta as int,
            c as int,
            s as int,
        ) by {
            assert(packed_pixel(d, new_w as int, x, y) == adjust_pixel(
                img.pixel(rect.start_x + x, rect.start_y + y),
                mult as int,
                bdelta as int,
                c as int,
                s as int,
            ));
        }
        let td = transformed_data(
            img.data@,
            img.width as int,
            rect.start_x as int,
            rect.start_y as int,
            rect.end_x as int,
            rect.end_y as int,
            mult as int,
            bdelta as int,
            c as int,
            s as int,
        );
        assert(d.len() == td.len()) by (nonlinear_arith)
            requires
                d.len() == 3 * ((new_h as int) * (new_w as int)),
                td.len() == 3 * ((new_h as int) * (new_w as int)),
        ;
        assert forall|i: int| 0 <= i < d.len() implies d[i] == td[i] by {
            let p = i / 3;
            let ch = i % 3;
            vstd::arithmetic::div_mod::lemma_fundamental_div_mod(i, 3);
            vstd::arithmetic::div_mod::lemma_mod_division_less_than_divisor(i, 3);
            vstd::arithmetic::div_mod::lemma_div_pos_is_pos(i, 3);
            let x = p % (new_w as int);
            let y = p / (new_w as int);
            assert(0 <= p < (new_h as int) * (new_w as int)) by (nonlinear_arith)
                requires
                    0 <= i,
                    i == 3 * p + ch,
                    0 <= ch < 3,
                    3 * p + ch < 3 * ((new_h as int) * (new_w as int)),
            ;
            vstd::arithmetic::div_mod::lemma_fundamental_div_mod(p, new_w as int);
            vstd::arithmetic::div_mod::lemma_mod_division_less_than_divisor(p, new_w as int);
            assert(0 <= y < new_h as int) by (nonlinear_arith)
                requires
                    p == (new_w as int) * y + x,
                    0 <= x < new_w as int,
                    0 <= p < (new_h as int) * (new_w as int),
                    new_w as int >= 1,
            ;
            assert(packed_pixel(d, new_w as int, x, y) == adjust_pixel(
                img.pixel(rect.start_x + x, rect.start_y + y),
                mult as int,
                bdelta as int,
                c as int,
                s as int,
            ));
            assert(3 * (y * (new_w as int) + x) == i - ch) by (nonlinear_arith)
                requires
                    p == (new_w as int) * y + x,
                    i == 3 * p + ch,
            ;
        }
        assert(d =~= td);
    }
    out
}

/// The adjustment settings of one processing run: a timeline of
/// control values for each parameter, in milli-units, and an optional
/// crop descriptor.
pub struct ImageAdjustments {
    pub exposure: Vec<i64>,
    pub brightness: Vec<i64>,
    pub contrast: Vec<i64>,
    pub saturation: Vec<i64>,
    pub crop: Option<Vec<u8>>,
}

/// A usable timeline: not empty, not beyond the control-value cap,
/// every value within the magnitude bound.
pub open spec fn timeline_ok(v: Seq<i64>) -> bool {
    1 <= v.len() <= MAX_CONTROL_VALUES && values_bounded(v.map_values(|x: i64| x as int))
}

impl ImageAdjustments {
    pub open spec fn wf(&self) -> bool {
        &&& timeline_ok(self.exposure@)
        &&& timeline_ok(self.brightness@)
        &&& timeline_ok(self.contrast@)
        &&& timeline_ok(self.saturation@)
    }

    /// The crop descriptor bytes, where one is set.
    pub open spec fn crop_view(&self) -> Option<Seq<u8>> {
        match self.crop {
            Some(ref v) => Some(v@),
            None => None,
        }
    }

    /// The four interpolated parameter values at one frame.
    pub fn get_values_at_frame(&self, frame_index: usize, total_frames: usize) -> (r: (
        i64,
        i64,
        i64,
        i64,
    ))
        requires
            self.wf(),
            total_frames >= 1,
            frame_index < total_frames,
        ensures
            r.0 as int == spec_value_at(
                self.exposure@.map_values(|x: i64| x as int),
                frame_index as int,
                total_frames as int,
            ),
            r.1 as int == spec_value_at(
                self.brightness@.map_values(|x: i64| x as int),
                frame_index as int,
                total_frames as int,
            ),
            r.2 as int == spec_value_at(
                self.contrast@.map_values(|x: i64| x as int),
                frame_index as int,
                total_frames as int,
            ),
            r.3 as int == spec_value_at(
                self.saturation@.map_values(|x: i64| x as int),
                frame_index as int,
                total_frames as int,
            ),
            -VAL_LIMIT <= r.0 <= VAL_LIMIT,
            -VAL_LIMIT <= r.1 <= VAL_LIMIT,
            -VAL_LIMIT <= r.2 <= VAL_LIMIT,
            -VAL_LIMIT <= r.3 <= VAL_LIMIT,
    {
        (
            interpolate_value(&self.exposure, frame_index, total_frames),
            interpolate_value(&self.brightness, frame_index, total_frames),
            interpolate_value(&self.contrast, frame_index, total_frames),
            interpolate_value(&self.saturation, frame_index, total_frames),
        )
    }
}

impl Default for ImageAdjustments {
    /// Identity settings: no exposure or brightness shift, unit
    /// contrast and saturation, no crop.
    fn default() -> (r: Self)
        ensures
            r.exposure@ == seq![0i64],
            r.brightness@ == seq![0i64],
            r.contrast@ == seq![1000i64],
            r.saturation@ == seq![1000i64],
            r.crop is None,
            r.wf(),
    {
        let r = ImageAdjustments {
            exposure: vec![0],
            brightness: vec![0],
            contrast: vec![1000],
            saturation: vec![1000],
            crop: None,
        };
        proof {
            assert(r.exposure@ =~= seq![0i64]);
            assert(r.brightness@ =~= seq![0i64]);
            assert(r.contrast@ =~= seq![1000i64]);
            assert(r.saturation@ =~= seq![1000i64]);
            assert(r.exposure@.map_values(|x: i64| x as int) =~= seq![0int]);
            assert(r.brightness@.map_values(|x: i64| x as int) =~= seq![0int]);
            assert(r.contrast@.map_values(|x: i64| x as int) =~= seq![1000int]);
            assert(r.saturation@.map_values(|x: i64| x as int) =~= seq![1000int]);
        }
        r
    }
}

/// Exposure values are held to the validated range of three stops
/// either way before the multiplier table is consulted.
pub open spec fn clamp_stops(e: int) -> int {
    if e < -3000 {
        -3000
    } else if e > 3000 {
        3000
    } else {
        e
    }
}

/// The exposure multiplier a frame gets from a timeline.
pub open spec fn spec_frame_mult(exposure: Seq<int>, i: int, n: int) -> int {
    spec_pow2_milli(clamp_stops(spec_value_at(exposure, i, n)))
}

/// The brightness shift a frame gets, in channel scale: b / 100 of
/// full brightness.
pub open spec fn spec_frame_bdelta(brightness: Seq<int>, i: int, n: int) -> int {
    div_trunc(spec_value_at(brightness, i, n) * (PIX_ONE as int), 100_000)
}

/// The crop window of a frame: the full image without a descriptor,
/// the resolved rectangle with one, nothing where it does not parse.
pub open spec fn spec_frame_rect(crop: Option<Seq<u8>>, w: int, h: int) -> Option<
    (int, int, int, int),
> {
    match crop {
        None => Some((0, 0, w, h)),
        Some(cs) => match spec_crop_params(cs) {
            Some((width, height, x, y)) => {
                let (sx, ex) = axis_rect(width.0, width.1, x.0, x.1, w);
                let (sy, ey) = axis_rect(height.0, height.1, y.0, y.1, h);
                Some((sx, sy, ex, ey))
            },
            None => None,
        },
    }
}

/// Transform one frame: resolve the per-frame parameter values from
/// the timelines, resolve the crop window, and map every pixel inside
/// it.  Fails exactly when the crop descriptor does not parse.
pub fn apply_adjustments(
    img: &Image,
    adjustments: &ImageAdjustments,
    frame_index: usize,
    total_frames: usize,
) -> (r: Result<Image, CropError>)
    requires
        img.wf(),
        adjustments.wf(),
        total_frames >= 1,
        frame_index < total_frames,
    ensures
        r is Ok <==> (adjustments.crop_view() is None || spec_crop_params(
            adjustments.crop_view()->Some_0,
        ) is Some),
        r is Ok ==> spec_frame_rect(
            adjustments.crop_view(),
            img.width as int,
            img.height as int,
        ) is Some,
        r is Ok ==> {
            let (sx, sy, ex, ey) = spec_frame_rect(
                adjustments.crop_view(),
                img.width as int,
                img.height as int,
            )->Some_0;
            let i = frame_index as int;
            let n = total_frames as int;
            let mult = spec_frame_mult(adjustments.exposure@.map_values(|x: i64| x as int), i, n);
            let bdelta = spec_frame_bdelta(
                adjustments.brightness@.map_values(|x: i64| x as int),
                i,
                n,
            );
            let c = spec_value_at(adjustments.contrast@.map_values(|x: i64| x as int), i, n);
            let s = spec_value_at(adjustments.saturation@.map_values(|x: i64| x as int), i, n);
            &&& r->Ok_0.wf()
            &&& r->Ok_0.width == ex - sx
            &&& r->Ok_0.height == ey - sy
            &&& forall|x: int, y: int|
                0 <= x < ex - sx && 0 <= y < ey - sy ==> #[trigger] r->Ok_0.pixel(x, y)
                    == adjust_pixel(img.pixel(sx + x, sy + y), mult, bdelta, c, s)
            &&& r->Ok_0.data@ == transformed_data(
                img.data@,
                img.width as int,
                sx,
                sy,
                ex,
                ey,
                mult,
                bdelta,
                c,
                s,
            )
        },
{
    let (e, b, c, s) = adjustments.get_values_at_frame(frame_index, total_frames);
    let e_clamped: i64 = if e < -3000 {
        -3000
    } else if e > 3000 {
        3000
    } else {
        e
    };
    let mult = pow2_milli(e_clamped);
    proof {
        assert(-11_000_000 <= div_trunc(b as int * (PIX_ONE as int), 100_000) <= 11_000_000) by {
            assert(-1_100_000_000_000 <= b as int * (PIX_ONE as int) <= 1_100_000_000_000)
                by (nonlinear_arith)
                requires
                    -1_000_000 <= b as int <= 1_000_000,
            ;
            lemma_div_trunc_range(b as int * (PIX_ONE as int), 100_000);
            if b as int * (PIX_ONE as int) >= 0 {
                vstd::arithmetic::div_mod::lemma_div_is_ordered(
                    b as int * (PIX_ONE as int),
                    1_100_000_000_000,
                    100_000,
                );
            } else {
                vstd::arithmetic::div_mod::lemma_div_is_ordered(
                    -(b as int * (PIX_ONE as int)),
                    1_100_000_000_000,
                    100_000,
                );
            }
        }
    }
    let bdelta = crate::fixed::div_trunc_i128((b as i128) * (PIX_ONE as i128), 100_000) as i64;
    let rect: CropRect = match adjustments.crop {
        None => CropRect { start_x: 0, start_y: 0, end_x: img.width, end_y: img.height },
        Some(ref cs) => {
            match parse_crop_string(cs) {
                Ok(params) => resolve_crop(&params, img.width, img.height),
                Err(e) => {
                    return Err(e);
                },
            }
        },
    };
    Ok(transform_image(img, &rect, mult, bdelta, c, s))
}

} // verus!
