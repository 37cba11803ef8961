//! Crop descriptors: parsing of `width:height:x:y` strings, where each
//! field is a pixel count or a `%`-suffixed percentage, and resolution
//! of a descriptor against concrete image dimensions into a clamped
//! pixel rectangle.  Negative x/y offsets count as percentages measured
//! from the right/bottom edge; width/height of zero or less take the
//! remainder of the dimension after the offset.
use crate::fixed::{div_trunc, lemma_div_trunc_mul_cancel};
use crate::strutil::{
    find_byte, join_bytes, parse_dec_milli, spec_parse_dec_milli, spec_trim, split_on_byte,
    trim_bytes,
};
use vstd::prelude::*;

verus! {

/// Why a crop descriptor was rejected.
#[derive(Debug, Clone, Copy, PartialEq, Eq, Structural)]
pub enum CropError {
    /// The descriptor does not split into exactly four `:` fields.
    InvalidCropFormat,
    /// A field is not a valid number or percentage.
    InvalidCropValue,
}

/// One crop field: a milli-unit value, marked as percentage or pixels.
#[derive(Debug, Clone, Copy, PartialEq, Eq, Structural)]
pub struct CropValue {
    pub value: i64,
    pub percent: bool,
}

/// A parsed crop descriptor.
#[derive(Debug, Clone, Copy, PartialEq, Eq, Structural)]
pub struct CropParams {
    pub width: CropValue,
    pub height: CropValue,
    pub x: CropValue,
    pub y: CropValue,
}

/// A resolved crop rectangle, clamped to the image bounds.
#[derive(Debug, Clone, Copy, PartialEq, Eq, Structural)]
pub struct CropRect {
    pub start_x: u32,
    pub start_y: u32,
    pub end_x: u32,
    pub end_y: u32,
}

/// Splitting as the inverse of joining on a separator.
pub open spec fn split_spec(s: Seq<u8>, sep: u8) -> Seq<Seq<u8>>
    decreases s.len(),
{
    let p = find_byte(s, sep);
    if 0 <= p < s.len() {
        seq![s.subrange(0, p)] + split_spec(s.subrange(p + 1, s.len() as int), sep)
    } else {
        seq![s]
    }
}

/// Splitting undoes joining of separator-free parts.
pub proof fn lemma_split_of_join(parts: Seq<Seq<u8>>, sep: u8)
    requires
        parts.len() >= 1,
        crate::strutil::no_sep_in_parts(parts, sep),
    ensures
        split_spec(join_bytes(parts, sep), sep) =~= parts,
    decreases parts.len(),
{
    let s = join_bytes(parts, sep);
    if parts.len() == 1 {
        assert(s == parts[0]);
        assert(forall|j: int| 0 <= j < s.len() ==> #[trigger] s[j] != sep);
        crate::strutil::lemma_find_byte_at(s, sep, s.len() as int);
        assert(split_spec(s, sep) =~= seq![s]);
    } else {
        let head = parts[0];
        let rest = join_bytes(parts.drop_first(), sep);
        assert(s == head + seq![sep] + rest);
        assert(forall|j: int| 0 <= j < head.len() ==> #[trigger] s[j] == head[j] && s[j] != sep);
        assert(s[head.len() as int] == sep);
        crate::strutil::lemma_find_byte_at(s, sep, head.len() as int);
        assert(find_byte(s, sep) == head.len());
        assert(s.subrange(0, head.len() as int) =~= head);
        assert(s.subrange(head.len() as int + 1, s.len() as int) =~= rest);
        assert(crate::strutil::no_sep_in_parts(parts.drop_first(), sep)) by {
            assert(forall|i: int, j: int|
                0 <= i < parts.drop_first().len() && 0 <= j < parts.drop_first()[i].len()
                    ==> #[trigger] parts.drop_first()[i][j] == parts[i + 1][j]);
        }
        lemma_split_of_join(parts.drop_first(), sep);
    }
}

/// Meaning of one crop field: trim, take a `%` suffix as a percentage
/// in [0, 100], otherwise a signed number of pixels.
pub open spec fn spec_parse_crop_value(s: Seq<u8>) -> Option<(int, bool)> {
    let t = spec_trim(s);
    if t.len() >= 1 && t.last() == 37 {
        match spec_parse_dec_milli(t.drop_last()) {
            Some(v) => if 0 <= v <= 100_000 {
                Some((v, true))
            } else {
                None
            },
            None => None,
        }
    } else {
        match spec_parse_dec_milli(t) {
            Some(v) => Some((v, false)),
            None => None,
        }
    }
}

/// Parse one crop field.
pub fn parse_crop_value(input: &Vec<u8>) -> (r: Result<CropValue, CropError>)
    ensures
        match r {
            Ok(cv) => spec_parse_crop_value(input@) == Some((cv.value as int, cv.percent)),
            Err(e) => spec_parse_crop_value(input@) is None && e == CropError::InvalidCropValue,
        },
{
    let t = trim_bytes(input);
    if t.len() >= 1 && t[t.len() - 1] == 37 {
        let mut digits = t;
        let ghost whole = digits@;
        digits.pop();
        proof {
            assert(digits@ =~= whole.drop_last());
        }
        match parse_dec_milli(&digits) {
            Some(v) => {
                if 0 <= v && v <= 100_000 {
                    Ok(CropValue { value: v, percent: true })
                } else {
                    Err(CropError::InvalidCropValue)
                }
            },
            None => Err(CropError::InvalidCropValue),
        }
    } else {
        match parse_dec_milli(&t) {
            Some(v) => Ok(CropValue { value: v, percent: false }),
            None => Err(CropError::InvalidCropValue),
        }
    }
}

/// Field sequences of a well-formed descriptor, at the spec level.
pub open spec fn crop_fields(s: Seq<u8>) -> Seq<Seq<u8>> {
    split_spec(s, 58)
}

/// Parse a `width:height:x:y` descriptor.  Exactly four colon-separated
/// fields are required; each must be a number or percentage.
pub fn parse_crop_string(input: &Vec<u8>) -> (r: Result<CropParams, CropError>)
    ensures
        crop_fields(input@).len() != 4 <==> (r is Err && r->Err_0 == CropError::InvalidCropFormat),
        r is Ok ==> {
            let f = crop_fields(input@);
            &&& f.len() == 4
            &&& spec_parse_crop_value(f[0]) == Some(
                (r->Ok_0.width.value as int, r->Ok_0.width.percent),
            )
            &&& spec_parse_crop_value(f[1]) == Some(
                (r->Ok_0.height.value as int, r->Ok_0.height.percent),
            )
            &&& spec_parse_crop_value(f[2]) == Some((r->Ok_0.x.value as int, r->Ok_0.x.percent))
            &&& spec_parse_crop_value(f[3]) == Some((r->Ok_0.y.value as int, r->Ok_0.y.percent))
        },
        (r is Err && r->Err_0 == CropError::InvalidCropValue) ==> crop_fields(input@).len() == 4
            && exists|i: int|
            0 <= i < 4 && spec_parse_crop_value(#[trigger] crop_fields(input@)[i]) is None,
{
    let parts = split_on_byte(input, 58);
    proof {
        lemma_split_of_join(parts@.map_values(|p: Vec<u8>| p@), 58);
    }
    if parts.len() != 4 {
        return Err(CropError::InvalidCropFormat);
    }
    let width = match parse_crop_value(&parts[0]) {
        Ok(v) => v,
        Err(e) => {
            proof {
                assert(crop_fields(input@)[0] == parts@.map_values(|p: Vec<u8>| p@)[0]);
            }
            return Err(e);
        },
    };
    let height = match parse_crop_value(&parts[1]) {
        Ok(v) => v,
        Err(e) => {
            proof {
                assert(crop_fields(input@)[1] == parts@.map_values(|p: Vec<u8>| p@)[1]);
            }
            return Err(e);
        },
    };
    let x = match parse_crop_value(&parts[2]) {
        Ok(v) => v,
        Err(e) => {
            proof {
                assert(crop_fields(input@)[2] == parts@.map_values(|p: Vec<u8>| p@)[2]);
            }
            return Err(e);
        },
    };
    let y = match parse_crop_value(&parts[3]) {
        Ok(v) => v,
        Err(e) => {
            proof {
                assert(crop_fields(input@)[3] == parts@.map_values(|p: Vec<u8>| p@)[3]);
            }
            return Err(e);
        },
    };
    Ok(CropParams { width, height, x, y })
}

/// Pixel offset of one axis: negative values are percentages from the
/// far edge, percentage fields scale the dimension, pixel fields are
/// milli-pixels truncated to whole pixels.
pub open spec fn axis_offset(v: int, percent: bool, dim: int) -> int {
    if v < 0 {
        dim + div_trunc(v * dim, 100_000)
    } else if percent {
        div_trunc(v * dim, 100_000)
    } else {
        div_trunc(v, 1000)
    }
}

/// Pixel span of one axis: zero or less takes the remainder after the
/// offset.
pub open spec fn axis_span(v: int, percent: bool, dim: int, off: int) -> int {
    if v <= 0 {
        dim - off
    } else if percent {
        div_trunc(v * dim, 100_000)
    } else {
        div_trunc(v, 1000)
    }
}

/// Start and end of one axis after clamping to the image bounds.
pub open spec fn axis_rect(size_v: int, size_pct: bool, off_v: int, off_pct: bool, dim: int) -> (
    int,
    int,
) {
    let off0 = axis_offset(off_v, off_pct, dim);
    let start = if off0 < 0 {
        0
    } else if off0 > dim {
        dim
    } else {
        off0
    };
    let span = axis_span(size_v, size_pct, dim, start);
    let span0 = if span < 0 {
        0
    } else {
        span
    };
    let end = if start + span0 > dim {
        dim
    } else {
        start + span0
    };
    (start, end)
}

fn resolve_axis(size: &CropValue, off: &CropValue, dim: u32) -> (r: (u32, u32))
    ensures
        (r.0 as int, r.1 as int) == axis_rect(
            size.value as int,
            size.percent,
            off.value as int,
            off.percent,
            dim as int,
        ),
        r.0 <= r.1 <= dim,
{
    let d = dim as i128;
    let off0: i128 = if off.value < 0 {
        d + crate::fixed::div_trunc_i128(crate::fixed::mul_milli_dim(off.value, dim), 100_000)
    } else if off.percent {
        crate::fixed::div_trunc_i128(crate::fixed::mul_milli_dim(off.value, dim), 100_000)
    } else {
        crate::fixed::div_trunc_i128(off.value as i128, 1000)
    };
    let start: u32 = if off0 < 0 {
        0
    } else if off0 > d {
        dim
    } else {
        off0 as u32
    };
    let span: i128 = if size.value <= 0 {
        d - (start as i128)
    } else if size.percent {
        crate::fixed::div_trunc_i128(crate::fixed::mul_milli_dim(size.value, dim), 100_000)
    } else {
        crate::fixed::div_trunc_i128(size.value as i128, 1000)
    };
    let span0: i128 = if span < 0 {
        0
    } else {
        span
    };
    let end: u32 = if (start as i128) + span0 > d {
        dim
    } else {
        ((start as i128) + span0) as u32
    };
    (start, end)
}

/// Resolve a parsed descriptor against image dimensions.
pub fn resolve_crop(params: &CropParams, width: u32, height: u32) -> (r: CropRect)
    ensures
        (r.start_x as int, r.end_x as int) == axis_rect(
            params.width.value as int,
            params.width.percent,
            params.x.value as int,
            params.x.percent,
            width as int,
        ),
        (r.start_y as int, r.end_y as int) == axis_rect(
            params.height.value as int,
            params.height.percent,
            params.y.value as int,
            params.y.percent,
            height as int,
        ),
        r.start_x <= r.end_x <= width,
        r.start_y <= r.end_y <= height,
{
    let (start_x, end_x) = resolve_axis(&params.width, &params.x, width);
    let (start_y, end_y) = resolve_axis(&params.height, &params.y, height);
    CropRect { start_x, start_y, end_x, end_y }
}

/// Parse and resolve a crop descriptor in one step.
pub fn resolve_crop_string(input: &Vec<u8>, width: u32, height: u32) -> (r: Result<
    CropRect,
    CropError,
>)
    ensures
        r is Ok <==> parse_succeeds(input@),
        r is Err ==> !parse_succeeds(input@),
        r is Ok ==> r->Ok_0.start_x <= r->Ok_0.end_x <= width && r->Ok_0.start_y <= r->Ok_0.end_y
            <= height,
{
    match parse_crop_string(input) {
        Ok(params) => Ok(resolve_crop(&params, width, height)),
        Err(e) => Err(e),
    }
}

/// Whether a crop descriptor parses: four fields, each a valid value.
pub open spec fn parse_succeeds(s: Seq<u8>) -> bool {
    crop_fields(s).len() == 4 && forall|i: int|
        0 <= i < 4 ==> spec_parse_crop_value(#[trigger] crop_fields(s)[i]) is Some
}

/// The four parsed fields of a descriptor, where it parses.
pub open spec fn spec_crop_params(s: Seq<u8>) -> Option<
    ((int, bool), (int, bool), (int, bool), (int, bool)),
> {
    if parse_succeeds(s) {
        let f = crop_fields(s);
        Some(
            (
                spec_parse_crop_value(f[0])->Some_0,
                spec_parse_crop_value(f[1])->Some_0,
                spec_parse_crop_value(f[2])->Some_0,
                spec_parse_crop_value(f[3])->Some_0,
            ),
        )
    } else {
        None
    }
}

/// Resolving a rectangle that came out of resolution, restated as
/// whole-pixel fields, gives the same rectangle back: resolution is
/// idempotent.  A zero-span axis is excluded: a span of zero or less
/// means "the remainder of the dimension", not an empty crop.
pub proof fn lemma_crop_resolution_idempotent(rect: CropRect, width: u32, height: u32)
    requires
        rect.start_x <= rect.end_x <= width,
        rect.start_y <= rect.end_y <= height,
        rect.start_x < rect.end_x,
        rect.start_y < rect.end_y,
    ensures
        axis_rect(
            (rect.end_x - rect.start_x) * 1000,
            false,
            rect.start_x * 1000,
            false,
            width as int,
        ) == (rect.start_x as int, rect.end_x as int),
        axis_rect(
            (rect.end_y - rect.start_y) * 1000,
            false,
            rect.start_y * 1000,
            false,
            height as int,
        ) == (rect.start_y as int, rect.end_y as int),
{
    lemma_axis_idempotent(rect.start_x as int, rect.end_x as int, width as int);
    lemma_axis_idempotent(rect.start_y as int, rect.end_y as int, height as int);
}

proof fn lemma_axis_idempotent(start: int, end: int, dim: int)
    requires
        0 <= start < end <= dim,
    ensures
        axis_rect((end - start) * 1000, false, start * 1000, false, dim) == (start, end),
{
    lemma_div_trunc_mul_cancel(start, 1000);
    lemma_div_trunc_mul_cancel(end - start, 1000);
    assert((end - start) * 1000 > 0) by (nonlinear_arith)
        requires
            end - start >= 1,
    ;
    assert(start * 1000 >= 0) by (nonlinear_arith)
        requires
            start >= 0,
    ;
}

} // verus!
