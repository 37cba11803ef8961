//! Batch frame processing: per-frame pipeline (ingest, adjust,
//! encode), progress accounting, output naming, and a sequential
//! driver whose failure policy is the run's: one bad frame is
//! recorded, its siblings are unaffected, and the run as a whole
//! fails when any frame failed.
use crate::adjust::{
    apply_adjustments, spec_frame_bdelta, spec_frame_mult, spec_frame_rect, transformed_data,
    ImageAdjustments,
};
use crate::frame::{encode_image_bytes, encoded_image, standard_decode};
use crate::ingest::{decoded_image, load_image, sensor_view, RawFrame};
use crate::timeline::spec_value_at;
use vstd::prelude::*;
use vstd::string::StringExecFns;

verus! {

/// One frame's failure, kept with its path for the final report.
pub struct FrameError {
    pub path: String,
    pub message: String,
}

/// The outcome of a processing run.
pub struct ProcessingResult {
    pub processed: usize,
    pub errors: Vec<FrameError>,
    pub elapsed_ms: u64,
    pub video_path: Option<String>,
}

impl ProcessingResult {
    /// A run succeeds exactly when no frame failed.
    pub open spec fn is_success(&self) -> bool {
        self.errors@.len() == 0
    }

    pub fn overall_success(&self) -> (r: bool)
        ensures
            r == self.is_success(),
    {
        self.errors.len() == 0
    }
}

/// Shared progress state, owned by the caller and advanced once per
/// completed frame.
pub struct ProgressTracker {
    pub done: usize,
    pub total: usize,
}

impl ProgressTracker {
    pub fn new(total: usize) -> (r: ProgressTracker)
        ensures
            r.done == 0,
            r.total == total,
    {
        ProgressTracker { done: 0, total }
    }

    /// One more frame is complete.
    pub fn record_one(&mut self)
        requires
            old(self).done < old(self).total,
        ensures
            final(self).done == old(self).done + 1,
            final(self).total == old(self).total,
    {
        self.done = self.done + 1;
    }
}

/// Number of decimal digits needed to print `n`; at least 1.
pub open spec fn spec_digit_count(n: nat) -> nat
    decreases n,
{
    if n < 10 {
        1
    } else {
        1 + spec_digit_count(n / 10)
    }
}

proof fn lemma_digit_count_bound(n: nat)
    ensures
        n >= 1 ==> spec_digit_count(n) <= n,
    decreases n,
{
    if n >= 10 {
        lemma_digit_count_bound(n / 10);
    }
}

/// Width of the zero-padded frame numbers: the digit count of the
/// largest frame number, so every name in a run has the same length.
pub fn calculate_frame_padding(total_frames: usize) -> (r: usize)
    ensures
        r == spec_digit_count(total_frames as nat),
        r >= 1,
{
    if total_frames == 0 {
        return 1;
    }
    proof {
        lemma_digit_count_bound(total_frames as nat);
    }
    let mut n: usize = total_frames;
    let mut digits: usize = 0;
    while n > 0
        invariant
            spec_digit_count(total_frames as nat) <= total_frames,
            n > 0 ==> digits + spec_digit_count(n as nat) == spec_digit_count(total_frames as nat),
            n == 0 ==> digits == spec_digit_count(total_frames as nat),
            n == 0 ==> digits >= 1,
        decreases n,
    {
        proof {
            lemma_digit_count_bound(n as nat);
        }
        n = n / 10;
        digits = digits + 1;
    }
    digits
}

/// Decimal digits of n, most significant first.
pub open spec fn dec_bytes(n: nat) -> Seq<u8>
    decreases n,
{
    if n < 10 {
        seq![(48 + n) as u8]
    } else {
        dec_bytes(n / 10).push((48 + n % 10) as u8)
    }
}

/// The decimal digits of a frame number.
pub fn dec_bytes_exec(n: usize) -> (r: Vec<u8>)
    ensures
        r@ == dec_bytes(n as nat),
        r@.len() >= 1,
    decreases n,
{
    if n < 10 {
        let mut r: Vec<u8> = Vec::new();
        r.push(48 + (n as u8));
        proof {
            assert(r@ =~= dec_bytes(n as nat));
        }
        r
    } else {
        let mut r = dec_bytes_exec(n / 10);
        r.push(48 + ((n % 10) as u8));
        proof {
            assert(r@ =~= dec_bytes(n as nat));
        }
        r
    }
}

/// Digits of n, left-padded with zeros to the given width.
pub open spec fn padded_dec(n: nat, width: nat) -> Seq<u8> {
    let d = dec_bytes(n);
    if d.len() >= width {
        d
    } else {
        Seq::new((width - d.len()) as nat, |i: int| 48u8) + d
    }
}

/// The name of a numbered temporary frame: `frame_` + padded digits +
/// `.jpg`.
pub open spec fn frame_filename(n: nat, width: nat) -> Seq<u8> {
    seq![102u8, 114u8, 97u8, 109u8, 101u8, 95u8] + padded_dec(n, width) + seq![
        46u8,
        106u8,
        112u8,
        103u8,
    ]
}

/// Build the zero-padded temp-frame name for one output index.
pub fn format_frame_filename(n: usize, width: usize) -> (r: Vec<u8>)
    ensures
        r@ == frame_filename(n as nat, width as nat),
{
    let mut r: Vec<u8> = Vec::new();
    r.push(102);
    r.push(114);
    r.push(97);
    r.push(109);
    r.push(101);
    r.push(95);
    let digits = dec_bytes_exec(n);
    let mut pad: usize = 0;
    let ghost base = r@;
    if digits.len() < width {
        let need = width - digits.len();
        while pad < need
            invariant
                pad <= need,
                need == width - digits@.len(),
                digits@.len() < width,
                r@ == base + Seq::new(pad as nat, |i: int| 48u8),
            decreases need - pad,
        {
            r.push(48);
            proof {
                assert(base + Seq::new((pad + 1) as nat, |i: int| 48u8) =~= (base + Seq::new(
                    pad as nat,
                    |i: int| 48u8,
                )).push(48u8));
            }
            pad = pad + 1;
        }
    }
    let mut i: usize = 0;
    let ghost with_pad = r@;
    while i < digits.len()
        invariant
            i <= digits@.len(),
            r@ == with_pad + digits@.subrange(0, i as int),
        decreases digits@.len() - i,
    {
        r.push(digits[i]);
        proof {
            assert(with_pad + digits@.subrange(0, i + 1) =~= (with_pad + digits@.subrange(
                0,
                i as int,
            )).push(digits@[i as int]));
        }
        i = i + 1;
    }
    proof {
        assert(with_pad + digits@.subrange(0, digits@.len() as int) =~= with_pad + digits@);
    }
    r.push(46);
    r.push(106);
    r.push(112);
    r.push(103);
    proof {
        assert(r@ =~= frame_filename(n as nat, width as nat));
    }
    r
}

/// The suffix appended to an input stem in image mode.
pub open spec fn processed_suffix() -> Seq<u8> {
    seq![95u8, 112u8, 114u8, 111u8, 99u8, 101u8, 115u8, 115u8, 101u8, 100u8, 46u8]
}

/// Output name of a processed frame: `<stem>_processed.<extension>`.
pub fn generate_output_filename(stem: &Vec<u8>, extension: &Vec<u8>) -> (r: Vec<u8>)
    ensures
        r@ == stem@ + processed_suffix() + extension@,
{
    let mut r: Vec<u8> = Vec::new();
    let mut i: usize = 0;
    while i < stem.len()
        invariant
            i <= stem@.len(),
            r@ == stem@.subrange(0, i as int),
        decreases stem@.len() - i,
    {
        r.push(stem[i]);
        proof {
            assert(stem@.subrange(0, i + 1) =~= stem@.subrange(0, i as int).push(stem@[i as int]));
        }
        i = i + 1;
    }
    proof {
        assert(r@ =~= stem@);
    }
    r.push(95);
    r.push(112);
    r.push(114);
    r.push(111);
    r.push(99);
    r.push(101);
    r.push(115);
    r.push(115);
    r.push(101);
    r.push(100);
    r.push(46);
    let ghost with_suffix = r@;
    proof {
        assert(with_suffix =~= stem@ + processed_suffix());
    }
    let mut j: usize = 0;
    while j < extension.len()
        invariant
            j <= extension@.len(),
            r@ == with_suffix + extension@.subrange(0, j as int),
        decreases extension@.len() - j,
    {
        r.push(extension[j]);
        proof {
            assert(with_suffix + extension@.subrange(0, j + 1) =~= (with_suffix
                + extension@.subrange(0, j as int)).push(extension@[j as int]));
        }
        j = j + 1;
    }
    proof {
        assert(r@ =~= stem@ + processed_suffix() + extension@);
    }
    r
}

/// Where one frame's pipeline stopped.
#[derive(Debug, Clone, Copy, PartialEq, Eq, Structural)]
pub enum FrameStage {
    /// Neither codec nor sensor fallback produced an image.
    DecodeFailed,
    /// The crop descriptor did not parse.
    AdjustFailed,
    /// The output codec refused the transformed frame.
    EncodeFailed,
}

/// One input frame of a run: its path, its encoded bytes, and sensor
/// data where a RAW decoder supplied it.
pub struct FrameInput {
    pub path: String,
    pub bytes: Vec<u8>,
    pub sensor: Option<RawFrame>,
}

impl FrameInput {
    pub open spec fn wf(&self) -> bool {
        match self.sensor {
            Some(ref raw) => raw.wf() && raw.samples@.len() >= 1,
            None => true,
        }
    }

    /// The sensor data this frame carries, as plain values.
    pub open spec fn sensor_data(&self) -> Option<(u32, u32, Seq<u32>)> {
        match self.sensor {
            Some(ref raw) => Some((raw.width, raw.height, raw.samples@)),
            None => None,
        }
    }

    /// What the pipeline yields for this frame at its place in a run.
    pub open spec fn output_of(
        &self,
        adjustments: ImageAdjustments,
        original_index: int,
        total_original: int,
        boost: int,
        fmt_code: u8,
    ) -> Option<Seq<u8>> {
        spec_frame_output(
            self.bytes@,
            self.sensor_data(),
            adjustments,
            original_index,
            total_original,
            boost,
            fmt_code,
        )
    }
}

/// What the pipeline yields for one frame: the ingested image,
/// adjusted inside the resolved crop window with the parameters its
/// original index draws from the timelines, encoded in the requested
/// format; nothing where a stage refuses.
pub open spec fn spec_frame_output(
    bytes: Seq<u8>,
    sensor: Option<(u32, u32, Seq<u32>)>,
    adjustments: ImageAdjustments,
    original_index: int,
    total_original: int,
    boost: int,
    fmt_code: u8,
) -> Option<Seq<u8>> {
    match decoded_image(bytes, sensor, boost) {
        None => None,
        Some((w, h, d)) => match spec_frame_rect(adjustments.crop_view(), w as int, h as int) {
            None => None,
            Some((sx, sy, ex, ey)) => {
                let mult = spec_frame_mult(
                    adjustments.exposure@.map_values(|x: i64| x as int),
                    original_index,
                    total_original,
                );
                let bdelta = spec_frame_bdelta(
                    adjustments.brightness@.map_values(|x: i64| x as int),
                    original_index,
                    total_original,
                );
                let c = spec_value_at(
                    adjustments.contrast@.map_values(|x: i64| x as int),
                    original_index,
                    total_original,
                );
                let s = spec_value_at(
                    adjustments.saturation@.map_values(|x: i64| x as int),
                    original_index,
                    total_original,
                );
                encoded_image(
                    fmt_code,
                    (ex - sx) as u32,
                    (ey - sy) as u32,
                    transformed_data(d, w as int, sx, sy, ex, ey, mult, bdelta, c, s),
                )
            },
        },
    }
}

/// Run the pipeline on one frame: ingest, adjust at its original
/// index, encode in the requested format.
pub fn process_frame(
    bytes: &Vec<u8>,
    sensor: Option<&RawFrame>,
    adjustments: &ImageAdjustments,
    original_index: usize,
    total_original: usize,
    boost_milli: i64,
    fmt_code: u8,
) -> (r: Result<Vec<u8>, FrameStage>)
    requires
        adjustments.wf(),
        total_original >= 1,
        original_index < total_original,
        0 <= boost_milli <= 1_000_000,
        fmt_code <= 2,
        match sensor {
            Some(raw) => raw.wf() && raw.samples@.len() >= 1,
            None => true,
        },
    ensures
        (r == Result::<Vec<u8>, FrameStage>::Err(FrameStage::DecodeFailed)) <==> !(standard_decode(
            bytes@,
        ) is Some || sensor is Some),
        (r == Result::<Vec<u8>, FrameStage>::Err(FrameStage::AdjustFailed)) <==> ((standard_decode(
            bytes@,
        ) is Some || sensor is Some) && !(adjustments.crop_view() is None
            || crate::crop::spec_crop_params(adjustments.crop_view()->Some_0) is Some)),
        r is Ok <==> spec_frame_output(
            bytes@,
            sensor_view(sensor),
            *adjustments,
            original_index as int,
            total_original as int,
            boost_milli as int,
            fmt_code,
        ) is Some,
        r is Ok ==> r->Ok_0@ == spec_frame_output(
            bytes@,
            sensor_view(sensor),
            *adjustments,
            original_index as int,
            total_original as int,
            boost_milli as int,
            fmt_code,
        )->Some_0,
{
    let img = match load_image(bytes, sensor, boost_milli) {
        Ok(img) => img,
        Err(_) => {
            return Err(FrameStage::DecodeFailed);
        },
    };
    let adjusted = match apply_adjustments(&img, adjustments, original_index, total_original) {
        Ok(a) => a,
        Err(_) => {
            return Err(FrameStage::AdjustFailed);
        },
    };
    match encode_image_bytes(fmt_code, adjusted.width, adjusted.height, &adjusted.data) {
        Some(out) => Ok(out),
        None => Err(FrameStage::EncodeFailed),
    }
}

/// How many frames of a run came through.
pub open spec fn count_some(s: Seq<Option<Vec<u8>>>) -> int
    decreases s.len(),
{
    if s.len() == 0 {
        0
    } else {
        (if s.last() is Some {
            1int
        } else {
            0int
        }) + count_some(s.drop_last())
    }
}

/// The paths of the frames that failed, in input order.
pub open spec fn failed_paths(inputs: Seq<FrameInput>, outputs: Seq<Option<Vec<u8>>>) -> Seq<
    Seq<char>,
>
    decreases outputs.len(),
{
    if outputs.len() == 0 {
        Seq::empty()
    } else {
        failed_paths(inputs, outputs.drop_last()) + (if outputs.last() is None {
            seq![inputs[outputs.len() - 1].path@]
        } else {
            Seq::<Seq<char>>::empty()
        })
    }
}

/// Process a whole run of frames in order.  A failed frame is recorded
/// with its path and does not stop its siblings; the run is a failure
/// overall when any error was recorded, while completed outputs stand.
pub fn run_frames(
    inputs: &Vec<FrameInput>,
    adjustments: &ImageAdjustments,
    start_index: usize,
    total_original: usize,
    boost_milli: i64,
    fmt_code: u8,
    progress: &mut ProgressTracker,
) -> (r: (ProcessingResult, Vec<Option<Vec<u8>>>))
    requires
        adjustments.wf(),
        total_original >= 1,
        start_index + inputs@.len() <= total_original,
        0 <= boost_milli <= 1_000_000,
        fmt_code <= 2,
        forall|k: int| 0 <= k < inputs@.len() ==> (#[trigger] inputs@[k]).wf(),
        old(progress).done + inputs@.len() <= old(progress).total,
    ensures
        r.1@.len() == inputs@.len(),
        r.0.processed == count_some(r.1@),
        r.0.processed + r.0.errors@.len() == inputs@.len(),
        r.0.is_success() <==> r.0.processed == inputs@.len(),
        final(progress).total == old(progress).total,
        final(progress).done == old(progress).done + r.0.processed,
        forall|k: int|
            0 <= k < inputs@.len() ==> match (#[trigger] inputs@[k]).output_of(
                *adjustments,
                start_index + k,
                total_original as int,
                boost_milli as int,
                fmt_code,
            ) {
                Some(d) => r.1@[k] is Some && r.1@[k]->Some_0@ == d,
                None => r.1@[k] is None,
            },
        r.0.errors@.map_values(|e: FrameError| e.path@) == failed_paths(inputs@, r.1@),
{
    let mut outputs: Vec<Option<Vec<u8>>> = Vec::new();
    let mut errors: Vec<FrameError> = Vec::new();
    let mut processed: usize = 0;
    let mut k: usize = 0;
    while k < inputs.len()
        invariant
            adjustments.wf(),
            total_original >= 1,
            start_index + inputs@.len() <= total_original,
            0 <= boost_milli <= 1_000_000,
            fmt_code <= 2,
            forall|j: int| 0 <= j < inputs@.len() ==> (#[trigger] inputs@[j]).wf(),
            k <= inputs@.len(),
            outputs@.len() == k,
            processed == count_some(outputs@),
            processed + errors@.len() == k,
            progress.total == old(progress).total,
            old(progress).done + inputs@.len() <= old(progress).total,
            progress.done == old(progress).done + processed,
            forall|j: int|
                0 <= j < k ==> match (#[trigger] inputs@[j]).output_of(
                    *adjustments,
                    start_index + j,
                    total_original as int,
                    boost_milli as int,
                    fmt_code,
                ) {
                    Some(d) => outputs@[j] is Some && outputs@[j]->Some_0@ == d,
                    None => outputs@[j] is None,
                },
            errors@.map_values(|e: FrameError| e.path@) == failed_paths(inputs@, outputs@),
        decreases inputs@.len() - k,
    {
        let input = &inputs[k];
        let sensor: Option<&RawFrame> = match input.sensor {
            Some(ref raw) => Some(raw),
            None => None,
        };
        proof {
            assert(sensor_view(sensor) == input.sensor_data());
        }
        let res = process_frame(
            &input.bytes,
            sensor,
            adjustments,
            start_index + k,
            total_original,
            boost_milli,
            fmt_code,
        );
        let ghost old_outputs = outputs@;
        let ghost old_errors = errors@.map_values(|e: FrameError| e.path@);
        match res {
            Ok(encoded) => {
                outputs.push(Some(encoded));
                progress.record_one();
                processed = processed + 1;
                proof {
                    assert(errors@.map_values(|e: FrameError| e.path@) =~= old_errors
                        + Seq::<Seq<char>>::empty());
                }
            },
            Err(stage) => {
                let message: String = match stage {
                    FrameStage::DecodeFailed => String::from_str("failed to open image"),
                    FrameStage::AdjustFailed => String::from_str("failed to apply adjustments"),
                    FrameStage::EncodeFailed => String::from_str("failed to encode image"),
                };
                errors.push(FrameError { path: input.path.clone(), message });
                outputs.push(None);
                proof {
                    assert(errors@.map_values(|e: FrameError| e.path@) =~= old_errors + seq![
                        inputs@[k as int].path@,
                    ]);
                }
            },
        }
        proof {
            assert(outputs@.drop_last() =~= old_outputs);
        }
        k = k + 1;
    }
    proof {
        lemma_count_some_le(outputs@);
    }
    let result = ProcessingResult {
        processed,
        errors,
        elapsed_ms: 0,
        video_path: None,
    };
    (result, outputs)
}

/// No run completes more frames than it was given.
proof fn lemma_count_some_le(s: Seq<Option<Vec<u8>>>)
    ensures
        0 <= count_some(s) <= s.len(),
    decreases s.len(),
{
    if s.len() > 0 {
        lemma_count_some_le(s.drop_last());
    }
}

} // verus!
