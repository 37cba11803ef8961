//! Output-resolution planning: parsing a target (preset name or
//! WIDTHxHEIGHT), scaling it to the source aspect ratio, rounding both
//! dimensions up to even values for the encoder, and flagging aspect
//! mismatches beyond a five-percent tolerance.
use crate::strutil::{fold_bytes, folded, parse_uint, spec_parse_uint, split_on_byte};
use vstd::prelude::*;

verus! {

/// Why a resolution string was rejected.
#[derive(Debug, Clone, Copy, PartialEq, Eq, Structural)]
pub enum ResolutionError {
    /// Not a preset and not two `x`-separated fields.
    InvalidResolutionFormat,
    /// A dimension field is not a number that fits.
    InvalidResolutionValue,
}

/// "4k" after case folding.
pub open spec fn is_preset_4k(s: Seq<u8>) -> bool {
    folded(s) =~= seq![52u8, 107u8]
}

/// "hd" or "1080p" after case folding.
pub open spec fn is_preset_hd(s: Seq<u8>) -> bool {
    folded(s) =~= seq![104u8, 100u8] || folded(s) =~= seq![49u8, 48u8, 56u8, 48u8, 112u8]
}

/// "720p" after case folding.
pub open spec fn is_preset_720p(s: Seq<u8>) -> bool {
    folded(s) =~= seq![55u8, 50u8, 48u8, 112u8]
}

/// The dimensions a resolution string names: a preset, or
/// WIDTHxHEIGHT with both sides plain numbers that fit 32 bits.
pub open spec fn spec_parse_resolution(s: Seq<u8>) -> Option<(int, int)> {
    if is_preset_4k(s) {
        Some((3840int, 2160int))
    } else if is_preset_hd(s) {
        Some((1920int, 1080int))
    } else if is_preset_720p(s) {
        Some((1280int, 720int))
    } else {
        let parts = crate::crop::split_spec(s, 120);
        if parts.len() != 2 {
            None
        } else {
            match (
                spec_parse_uint(parts[0], u32::MAX as int),
                spec_parse_uint(parts[1], u32::MAX as int),
            ) {
                (Some(w), Some(h)) => Some((w, h)),
                _ => None,
            }
        }
    }
}

/// Parse a resolution target: `4K`, `HD`, `1080p`, `720p` (case
/// blind) or a literal `WIDTHxHEIGHT`.
pub fn parse_resolution(input: &Vec<u8>) -> (r: Result<(u32, u32), ResolutionError>)
    ensures
        match r {
            Ok((w, h)) => spec_parse_resolution(input@) == Some((w as int, h as int)),
            Err(ResolutionError::InvalidResolutionFormat) => spec_parse_resolution(input@) is None
                && crate::crop::split_spec(input@, 120).len() != 2,
            Err(ResolutionError::InvalidResolutionValue) => spec_parse_resolution(input@) is None
                && crate::crop::split_spec(input@, 120).len() == 2,
        },
{
    let low = fold_bytes(input);
    if low.len() == 2 && low[0] == 52 && low[1] == 107 {
        proof {
            assert(is_preset_4k(input@));
        }
        return Ok((3840, 2160));
    }
    if low.len() == 2 && low[0] == 104 && low[1] == 100 {
        proof {
            assert(is_preset_hd(input@));
        }
        return Ok((1920, 1080));
    }
    if low.len() == 5 && low[0] == 49 && low[1] == 48 && low[2] == 56 && low[3] == 48 && low[4]
        == 112 {
        proof {
            assert(is_preset_hd(input@));
        }
        return Ok((1920, 1080));
    }
    if low.len() == 4 && low[0] == 55 && low[1] == 50 && low[2] == 48 && low[3] == 112 {
        proof {
            assert(is_preset_720p(input@));
        }
        return Ok((1280, 720));
    }
    proof {
        assert(!is_preset_4k(input@) && !is_preset_hd(input@) && !is_preset_720p(input@));
    }
    let parts = crate::strutil::split_on_byte(input, 120);
    proof {
        crate::crop::lemma_split_of_join(parts@.map_values(|p: Vec<u8>| p@), 120);
    }
    if parts.len() != 2 {
        return Err(ResolutionError::InvalidResolutionFormat);
    }
    let w = match parse_uint(&parts[0], 4_294_967_295) {
        Some(w) => w,
        None => {
            return Err(ResolutionError::InvalidResolutionValue);
        },
    };
    let h = match parse_uint(&parts[1], 4_294_967_295) {
        Some(h) => h,
        None => {
            return Err(ResolutionError::InvalidResolutionValue);
        },
    };
    Ok((w as u32, h as u32))
}

/// The next even number at or above x.
pub open spec fn next_even(x: int) -> int {
    if x % 2 == 0 {
        x
    } else {
        x + 1
    }
}

/// Whether the target's aspect ratio strays from the source's by more
/// than five percent of the source ratio:
/// |ow/oh - tw/th| > (ow/oh) / 20, by cross-multiplication.
pub open spec fn aspect_mismatch(ow: int, oh: int, tw: int, th: int) -> bool {
    20 * (if ow * th >= tw * oh {
        ow * th - tw * oh
    } else {
        tw * oh - ow * th
    }) > ow * th
}

/// Scale a target to the source: the requested height is kept, the
/// width follows the source aspect ratio, both rounded up to even, and
/// a warning flag is raised when the requested aspect ratio strays
/// from the source's by more than a five-percent relative tolerance.
/// Nothing is returned where the scaled width would not fit the pixel
/// type.
pub fn plan_output_resolution(orig_w: u32, orig_h: u32, target_w: u32, target_h: u32) -> (r:
    Option<(u32, u32, bool)>)
    requires
        orig_w >= 1,
        orig_h >= 1,
        target_h >= 1,
    ensures
        ({
            let sw = next_even((target_h as int) * (orig_w as int) / (orig_h as int));
            let sh = next_even(target_h as int);
            match r {
                Some((w, h, warn)) => {
                    &&& w == sw
                    &&& h == sh
                    &&& w % 2 == 0
                    &&& h % 2 == 0
                    &&& warn == aspect_mismatch(
                        orig_w as int,
                        orig_h as int,
                        target_w as int,
                        target_h as int,
                    )
                },
                None => sw > u32::MAX || sh > u32::MAX,
            }
        }),
{
    proof {
        assert(0 <= (target_h as int) * (orig_w as int) <= 4_294_967_295int * 4_294_967_295)
            by (nonlinear_arith)
            requires
                0 <= target_h as int <= 4_294_967_295,
                0 <= orig_w as int <= 4_294_967_295,
        ;
    }
    let scaled: u64 = ((target_h as u64) * (orig_w as u64)) / (orig_h as u64);
    proof {
        vstd::arithmetic::div_mod::lemma_div_pos_is_pos(
            (target_h as int) * (orig_w as int),
            orig_h as int,
        );
        vstd::arithmetic::div_mod::lemma_div_is_ordered(
            (target_h as int) * (orig_w as int),
            4_294_967_295int * 4_294_967_295,
            orig_h as int,
        );
        vstd::arithmetic::div_mod::lemma_div_is_ordered_by_denominator(
            4_294_967_295int * 4_294_967_295,
            1,
            orig_h as int,
        );
    }
    let out_w: u64 = if scaled % 2 != 0 {
        scaled + 1
    } else {
        scaled
    };
    let out_h: u64 = if target_h % 2 != 0 {
        (target_h as u64) + 1
    } else {
        target_h as u64
    };
    if out_w > 4_294_967_295 || out_h > 4_294_967_295 {
        return None;
    }
    proof {
        assert(0 <= (orig_w as int) * (target_h as int) && 0 <= (target_w as int) * (orig_h as int)
            && (orig_w as int) * (target_h as int) <= 4_294_967_295int * 4_294_967_295 && (
        target_w as int) * (orig_h as int) <= 4_294_967_295int * 4_294_967_295)
            by (nonlinear_arith)
            requires
                0 <= orig_w as int <= 4_294_967_295,
                0 <= orig_h as int <= 4_294_967_295,
                0 <= target_w as int <= 4_294_967_295,
                0 <= target_h as int <= 4_294_967_295,
        ;
    }
    let cross_a: u64 = (orig_w as u64) * (target_h as u64);
    let cross_b: u64 = (target_w as u64) * (orig_h as u64);
    let diff: u64 = if cross_a >= cross_b {
        cross_a - cross_b
    } else {
        cross_b - cross_a
    };
    let warn: bool = (diff as u128) * 20 > (orig_w as u128) * (target_h as u128);
    Some((out_w as u32, out_h as u32, warn))
}

/// Fit a target inside the post-crop frame: the wider side of the
/// crop wins, the other dimension follows its aspect ratio, both
/// rounded up to even.  Nothing is returned where a scaled dimension
/// would not fit the pixel type.
pub fn plan_with_crop(crop_w: u32, crop_h: u32, target_w: u32, target_h: u32) -> (r: Option<
    (u32, u32),
>)
    requires
        crop_w >= 1,
        crop_h >= 1,
        target_w >= 1,
        target_h >= 1,
    ensures
        ({
            let wider = (crop_w as int) * (target_h as int) > (target_w as int) * (crop_h as int);
            let fw = if wider {
                next_even((target_h as int) * (crop_w as int) / (crop_h as int))
            } else {
                next_even(target_w as int)
            };
            let fh = if wider {
                next_even(target_h as int)
            } else {
                next_even((target_w as int) * (crop_h as int) / (crop_w as int))
            };
            match r {
                Some((w, h)) => w == fw && h == fh && w % 2 == 0 && h % 2 == 0,
                None => fw > u32::MAX || fh > u32::MAX,
            }
        }),
{
    proof {
        assert(0 <= (crop_w as int) * (target_h as int) <= 4_294_967_295int * 4_294_967_295 && 0
            <= (target_w as int) * (crop_h as int) <= 4_294_967_295int * 4_294_967_295)
            by (nonlinear_arith)
            requires
                0 <= crop_w as int <= 4_294_967_295,
                0 <= crop_h as int <= 4_294_967_295,
                0 <= target_w as int <= 4_294_967_295,
                0 <= target_h as int <= 4_294_967_295,
        ;
    }
    let lhs: u64 = (crop_w as u64) * (target_h as u64);
    let rhs: u64 = (target_w as u64) * (crop_h as u64);
    let (fw, fh): (u64, u64) = if lhs > rhs {
        proof {
            vstd::arithmetic::div_mod::lemma_div_pos_is_pos(
                (target_h as int) * (crop_w as int),
                crop_h as int,
            );
            vstd::arithmetic::div_mod::lemma_div_is_ordered(
                (target_h as int) * (crop_w as int),
                4_294_967_295int * 4_294_967_295,
                crop_h as int,
            );
            vstd::arithmetic::div_mod::lemma_div_is_ordered_by_denominator(
                4_294_967_295int * 4_294_967_295,
                1,
                crop_h as int,
            );
            assert(0 <= (target_h as int) * (crop_w as int) <= 4_294_967_295int * 4_294_967_295)
                by (nonlinear_arith)
                requires
                    0 <= target_h as int <= 4_294_967_295,
                    0 <= crop_w as int <= 4_294_967_295,
            ;
        }
        let scaled: u64 = ((target_h as u64) * (crop_w as u64)) / (crop_h as u64);
        (
            if scaled % 2 != 0 {
                scaled + 1
            } else {
                scaled
            },
            if target_h % 2 != 0 {
                (target_h as u64) + 1
            } else {
                target_h as u64
            },
        )
    } else {
        proof {
            vstd::arithmetic::div_mod::lemma_div_pos_is_pos(
                (target_w as int) * (crop_h as int),
                crop_w as int,
            );
            vstd::arithmetic::div_mod::lemma_div_is_ordered(
                (target_w as int) * (crop_h as int),
                4_294_967_295int * 4_294_967_295,
                crop_w as int,
            );
            vstd::arithmetic::div_mod::lemma_div_is_ordered_by_denominator(
                4_294_967_295int * 4_294_967_295,
                1,
                crop_w as int,
            );
        }
        let scaled: u64 = ((target_w as u64) * (crop_h as u64)) / (crop_w as u64);
        (
            if target_w % 2 != 0 {
                (target_w as u64) + 1
            } else {
                target_w as u64
            },
            if scaled % 2 != 0 {
                scaled + 1
            } else {
                scaled
            },
        )
    };
    if fw > 4_294_967_295 || fh > 4_294_967_295 {
        return None;
    }
    Some((fw as u32, fh as u32))
}

} // verus!
