//! Run-level validation: parsing comma-separated timeline values and
//! holding every parameter to its documented range before any
//! processing starts.
use crate::strutil::{
    folded, fold_bytes, parse_dec_milli, spec_parse_dec_milli, spec_trim, split_on_byte,
    trim_bytes,
};
use vstd::prelude::*;

verus! {

/// Why a run's settings were rejected before processing.
#[derive(Debug, Clone, Copy, PartialEq, Eq, Structural)]
pub enum SettingsError {
    /// A timeline field is not a number.
    InvalidValueArray,
    /// A timeline value lies outside its documented range; the index
    /// of the first such value.
    ValueOutOfRange(usize),
    /// Frames per second must lie in [1, 120].
    InvalidFps,
    /// The constant rate factor must lie in [0, 51].
    InvalidQuality,
}

/// The fields of a comma-separated value list.
pub open spec fn value_fields(s: Seq<u8>) -> Seq<Seq<u8>> {
    crate::crop::split_spec(s, 44)
}

/// What one timeline field means: its trimmed text as milli-units.
pub open spec fn spec_field_value(s: Seq<u8>) -> Option<int> {
    spec_parse_dec_milli(spec_trim(s))
}

/// Parse a comma-separated list of control values into milli-units,
/// one timeline.  Every field must be a number.
pub fn parse_value_array(input: &Vec<u8>) -> (r: Result<Vec<i64>, SettingsError>)
    ensures
        match r {
            Ok(values) => {
                &&& values@.len() == value_fields(input@).len()
                &&& forall|k: int|
                    0 <= k < values@.len() ==> spec_field_value(#[trigger] value_fields(input@)[k])
                        == Some(values@[k] as int)
            },
            Err(e) => e == SettingsError::InvalidValueArray && exists|k: int|
                0 <= k < value_fields(input@).len() && spec_field_value(
                    #[trigger] value_fields(input@)[k],
                ) is None,
        },
{
    let parts = split_on_byte(input, 44);
    proof {
        crate::crop::lemma_split_of_join(parts@.map_values(|p: Vec<u8>| p@), 44);
    }
    let mut values: Vec<i64> = Vec::new();
    let mut k: usize = 0;
    while k < parts.len()
        invariant
            k <= parts@.len(),
            parts@.map_values(|p: Vec<u8>| p@) == value_fields(input@),
            values@.len() == k,
            forall|j: int|
                0 <= j < k ==> spec_field_value(#[trigger] value_fields(input@)[j]) == Some(
                    values@[j] as int,
                ),
        decreases parts@.len() - k,
    {
        let t = trim_bytes(&parts[k]);
        match parse_dec_milli(&t) {
            Some(v) => {
                values.push(v);
            },
            None => {
                proof {
                    assert(value_fields(input@)[k as int] == parts@.map_values(|p: Vec<u8>| p@)[
                        k as int]);
                }
                return Err(SettingsError::InvalidValueArray);
            },
        }
        k = k + 1;
    }
    Ok(values)
}

/// Whether every value of a timeline lies inside [lo, hi].
pub open spec fn all_in_range(values: Seq<i64>, lo: int, hi: int) -> bool {
    forall|k: int| 0 <= k < values.len() ==> lo <= #[trigger] values[k] as int <= hi
}

/// Hold a timeline to its documented range; the first value outside
/// it is reported by index.
pub fn validate_value_array(values: &Vec<i64>, lo: i64, hi: i64) -> (r: Result<(), SettingsError>)
    ensures
        r is Ok <==> all_in_range(values@, lo as int, hi as int),
        r is Err ==> match r->Err_0 {
            SettingsError::ValueOutOfRange(k) => k < values@.len() && !(lo <= values@[
                k as int] <= hi) && forall|j: int| 0 <= j < k ==> lo <= #[trigger] values@[j] <= hi,
            _ => false,
        },
{
    let mut k: usize = 0;
    while k < values.len()
        invariant
            k <= values@.len(),
            forall|j: int| 0 <= j < k ==> lo <= #[trigger] values@[j] <= hi,
        decreases values@.len() - k,
    {
        let v = values[k];
        if v < lo || v > hi {
            return Err(SettingsError::ValueOutOfRange(k));
        }
        k = k + 1;
    }
    Ok(())
}

/// Hold the video output settings to their documented ranges: fps in
/// [1, 120] and the constant rate factor in [0, 51].
pub fn validate_output_settings(fps: u32, quality: u32) -> (r: Result<(), SettingsError>)
    ensures
        r is Ok <==> (1 <= fps <= 120 && quality <= 51),
        r == Result::<(), SettingsError>::Err(SettingsError::InvalidFps) <==> !(1 <= fps <= 120),
        r == Result::<(), SettingsError>::Err(SettingsError::InvalidQuality) <==> (1 <= fps <= 120
            && quality > 51),
{
    if fps < 1 || fps > 120 {
        return Err(SettingsError::InvalidFps);
    }
    if quality > 51 {
        return Err(SettingsError::InvalidQuality);
    }
    Ok(())
}

/// What an output format name stands for.
#[derive(Debug, Clone, Copy, PartialEq, Eq, Structural)]
pub enum OutputKind {
    /// mp4, mov or avi: frames are assembled into one video.
    Video,
    /// jpg, jpeg, png, tiff or tif: one output image per frame.
    Image,
    /// Anything else is rejected before processing starts.
    Unsupported,
}

/// The classification of a format name, case blind.
pub open spec fn spec_output_kind(s: Seq<u8>) -> OutputKind {
    let f = folded(s);
    if f =~= seq![109u8, 112u8, 52u8] || f =~= seq![109u8, 111u8, 118u8] || f =~= seq![
        97u8,
        118u8,
        105u8,
    ] {
        OutputKind::Video
    } else if f =~= seq![106u8, 112u8, 103u8] || f =~= seq![106u8, 112u8, 101u8, 103u8] || f
        =~= seq![112u8, 110u8, 103u8] || f =~= seq![116u8, 105u8, 102u8, 102u8] || f =~= seq![
        116u8,
        105u8,
        102u8,
    ] {
        OutputKind::Image
    } else {
        OutputKind::Unsupported
    }
}

/// Classify an output format name: video container, image format, or
/// unsupported.
pub fn classify_output_format(format: &Vec<u8>) -> (r: OutputKind)
    ensures
        r == spec_output_kind(format@),
{
    let f = fold_bytes(format);
    let n = f.len();
    let video = (n == 3 && f[0] == 109 && f[1] == 112 && f[2] == 52) || (n == 3 && f[0] == 109
        && f[1] == 111 && f[2] == 118) || (n == 3 && f[0] == 97 && f[1] == 118 && f[2] == 105);
    if video {
        return OutputKind::Video;
    }
    let image = (n == 3 && f[0] == 106 && f[1] == 112 && f[2] == 103) || (n == 4 && f[0] == 106
        && f[1] == 112 && f[2] == 101 && f[3] == 103) || (n == 3 && f[0] == 112 && f[1] == 110
        && f[2] == 103) || (n == 4 && f[0] == 116 && f[1] == 105 && f[2] == 102 && f[3] == 102) || (
    n == 3 && f[0] == 116 && f[1] == 105 && f[2] == 102);
    if image {
        return OutputKind::Image;
    }
    OutputKind::Unsupported
}

} // verus!
