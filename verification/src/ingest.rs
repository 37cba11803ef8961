//! Frame ingestion: the standard codec is tried first; sensor data
//! from a RAW decoder is the fallback, normalized against its own
//! range, boosted, gamma-encoded with exponent 5/11 (one over 2.2) and
//! replicated into the three channels of a grayscale-looking image.
use crate::frame::{decode_rgb_bytes, standard_decode, Image};
use vstd::arithmetic::power::pow;
use vstd::prelude::*;

verus! {

/// Why a frame could not be ingested.
#[derive(Debug, Clone, Copy, PartialEq, Eq, Structural)]
pub enum IngestError {
    /// Neither the standard codec nor the RAW fallback could read it.
    UnsupportedOrCorruptImage,
}

/// A frame of raw sensor samples.  The normalized scale is 25500 for
/// the brightest sample, a hundredth of a channel step of precision;
/// floating-point sensor data is brought to integers by the caller's
/// decoder.
pub struct RawFrame {
    pub width: u32,
    pub height: u32,
    pub samples: Vec<u32>,
}

impl RawFrame {
    pub open spec fn wf(&self) -> bool {
        self.samples@.len() == (self.width as int) * (self.height as int)
    }
}

/// The gamma encoding of x in [0, 25500] is the byte r with
/// r <= 255 * (x / 25500)^(5/11) < r + 1, stated with integer powers:
/// the exponent 1/2.2 is exactly 5/11.
pub open spec fn is_gamma_byte(r: int, x: int) -> bool {
    &&& 0 <= r <= 255
    &&& pow(r, 11) * 10_000_000_000 <= pow(255, 6) * pow(x, 5)
    &&& pow(255, 6) * pow(x, 5) < pow(r + 1, 11) * 10_000_000_000
}

/// The gamma byte as a function of the sample: the largest byte whose
/// eleventh power stays below the curve, searched from the top.
pub open spec fn gamma_search(x: int, r: int) -> int
    decreases r,
{
    if r <= 0 {
        0
    } else if pow(r, 11) * 10_000_000_000 <= pow(255, 6) * pow(x, 5) {
        r
    } else {
        gamma_search(x, r - 1)
    }
}

pub open spec fn gamma_val(x: int) -> int {
    gamma_search(x, 255)
}

/// A larger nonnegative base has no smaller power.
proof fn lemma_pow_base_mono(a: int, b: int, e: nat)
    requires
        0 <= a <= b,
    ensures
        pow(a, e) <= pow(b, e),
    decreases e,
{
    reveal(pow);
    if e > 0 {
        lemma_pow_base_mono(a, b, (e - 1) as nat);
        if b == 0 {
        } else if a == 0 {
            vstd::arithmetic::power::lemma0_pow(e);
            vstd::arithmetic::power::lemma_pow_positive(b, e);
        } else {
            vstd::arithmetic::power::lemma_pow_positive(a, (e - 1) as nat);
            vstd::arithmetic::power::lemma_pow_positive(b, (e - 1) as nat);
            assert(a * pow(a, (e - 1) as nat) <= b * pow(b, (e - 1) as nat)) by (nonlinear_arith)
                requires
                    0 < a <= b,
                    0 < pow(a, (e - 1) as nat) <= pow(b, (e - 1) as nat),
            ;
        }
    }
}

/// The byte the characterization picks is the one the search finds.
proof fn lemma_gamma_search_finds(x: int, r: int, rr: int)
    requires
        is_gamma_byte(r, x),
        r <= rr <= 255,
    ensures
        gamma_search(x, rr) == r,
    decreases rr,
{
    if rr > r {
        assert(pow(r + 1, 11) <= pow(rr, 11)) by {
            lemma_pow_base_mono(r + 1, rr, 11);
        }
        assert(pow(r + 1, 11) * 10_000_000_000 <= pow(rr, 11) * 10_000_000_000);
        lemma_gamma_search_finds(x, r, rr - 1);
    } else {
        if r == 0 {
        } else {
            assert(gamma_search(x, r) == r);
        }
    }
}

/// The characterization has one witness: gamma_val itself.
pub proof fn lemma_gamma_unique(r: int, x: int)
    requires
        is_gamma_byte(r, x),
    ensures
        gamma_val(x) == r,
{
    lemma_gamma_search_finds(x, r, 255);
}

/// The eleventh power, for the gamma search.
fn pow11(b: u128) -> (r: u128)
    requires
        b <= 256,
    ensures
        r == pow(b as int, 11),
        r <= 309_485_009_821_345_068_724_781_056,
{
    proof {
        assert(b as int * b as int <= 65536) by (nonlinear_arith)
            requires
                0 <= b as int <= 256,
        ;
    }
    let b2 = b * b;
    proof {
        assert(b2 as int * b2 as int <= 4_294_967_296) by (nonlinear_arith)
            requires
                0 <= b2 as int <= 65536,
        ;
    }
    let b4 = b2 * b2;
    proof {
        assert(b4 as int * b4 as int <= 18_446_744_073_709_551_616) by (nonlinear_arith)
            requires
                0 <= b4 as int <= 4_294_967_296,
        ;
    }
    let b8 = b4 * b4;
    proof {
        assert(b8 as int * b2 as int <= 1_208_925_819_614_629_174_706_176) by (nonlinear_arith)
            requires
                0 <= b8 as int <= 18_446_744_073_709_551_616,
                0 <= b2 as int <= 65536,
        ;
        assert((b8 as int * b2 as int) * (b as int) <= 309_485_009_821_345_068_724_781_056)
            by (nonlinear_arith)
            requires
                0 <= b8 as int * b2 as int <= 1_208_925_819_614_629_174_706_176,
                0 <= b as int <= 256,
        ;
    }
    let r = b8 * b2 * b;
    proof {
        let bi = b as int;
        assert(pow(bi, 1) == bi) by {
            vstd::arithmetic::power::lemma_pow1(bi);
        }
        assert(pow(bi, 2) == bi * pow(bi, 1)) by {
            reveal_with_fuel(pow, 2);
        }
        assert(b2 == pow(bi, 2));
        vstd::arithmetic::power::lemma_pow_adds(bi, 2, 2);
        assert(b4 == pow(bi, 4));
        vstd::arithmetic::power::lemma_pow_adds(bi, 4, 4);
        assert(b8 == pow(bi, 8));
        vstd::arithmetic::power::lemma_pow_adds(bi, 8, 2);
        vstd::arithmetic::power::lemma_pow_adds(bi, 10, 1);
    }
    r
}

/// The fifth power of a normalized sensor value.
fn pow5(x: u128) -> (r: u128)
    requires
        x <= 25_500,
    ensures
        r == pow(x as int, 5),
        r <= 10_782_039_093_750_000_000_000,
{
    proof {
        assert(x as int * x as int <= 650_250_000) by (nonlinear_arith)
            requires
                0 <= x as int <= 25_500,
        ;
    }
    let x2 = x * x;
    proof {
        assert(x2 as int * x2 as int <= 422_825_062_500_000_000) by (nonlinear_arith)
            requires
                0 <= x2 as int <= 650_250_000,
        ;
        assert((x2 as int * x2 as int) * (x as int) <= 10_782_039_093_750_000_000_000)
            by (nonlinear_arith)
            requires
                0 <= x2 as int * x2 as int <= 422_825_062_500_000_000,
                0 <= x as int <= 25_500,
        ;
    }
    let x4 = x2 * x2;
    let r = x4 * x;
    proof {
        let xi = x as int;
        assert(pow(xi, 1) == xi) by {
            vstd::arithmetic::power::lemma_pow1(xi);
        }
        assert(pow(xi, 2) == xi * pow(xi, 1)) by {
            reveal_with_fuel(pow, 2);
        }
        vstd::arithmetic::power::lemma_pow_adds(xi, 2, 2);
        vstd::arithmetic::power::lemma_pow_adds(xi, 4, 1);
    }
    r
}

/// Gamma-encode a normalized sensor value: the exact integer form of
/// round-down(255 * (x / 25500)^(5/11)), found by binary search on the
/// eleventh power.
pub fn gamma_encode(x: u32) -> (r: u8)
    requires
        x <= 25_500,
    ensures
        is_gamma_byte(r as int, x as int),
        r as int == gamma_val(x as int),
{
    let x5 = pow5(x as u128);
    proof {
        assert(pow(255, 6) == 274_941_996_890_625) by {
            reveal_with_fuel(pow, 7);
        }
        assert(274_941_996_890_625 * (x5 as int) <= 2_964_435_358_988_409_692_871_093_750_000_000_000)
            by (nonlinear_arith)
            requires
                0 <= x5 as int <= 10_782_039_093_750_000_000_000,
        ;
        assert(274_941_996_890_625 * (x5 as int) >= 0) by (nonlinear_arith)
            requires
                x5 as int >= 0,
        ;
    }
    let n: u128 = 274_941_996_890_625u128 * x5;
    let mut lo: u32 = 0;
    let mut hi: u32 = 256;
    proof {
        vstd::arithmetic::power::lemma0_pow(11);
        assert(pow(256, 11) == 309_485_009_821_345_068_724_781_056) by {
            reveal_with_fuel(pow, 12);
        }
    }
    while hi - lo > 1
        invariant
            lo < hi <= 256,
            n == pow(255, 6) * pow(x as int, 5),
            n <= 2_964_435_358_988_409_692_871_093_750_000_000_000,
            pow(lo as int, 11) * 10_000_000_000 <= n as int,
            (n as int) < pow(hi as int, 11) * 10_000_000_000,
        decreases hi - lo,
    {
        let mid = lo + (hi - lo) / 2;
        let m11 = pow11(mid as u128);
        if m11 * 10_000_000_000 <= n {
            lo = mid;
        } else {
            hi = mid;
        }
    }
    proof {
        assert(hi == lo + 1);
        lemma_gamma_unique(lo as int, x as int);
    }
    lo as u8
}

/// The smallest sample of a frame.
pub open spec fn seq_min_u32(s: Seq<u32>) -> int
    decreases s.len(),
{
    if s.len() <= 1 {
        if s.len() == 0 {
            0
        } else {
            s[0] as int
        }
    } else if (s.last() as int) < seq_min_u32(s.drop_last()) {
        s.last() as int
    } else {
        seq_min_u32(s.drop_last())
    }
}

/// The largest sample of a frame.
pub open spec fn seq_max_u32(s: Seq<u32>) -> int
    decreases s.len(),
{
    if s.len() <= 1 {
        if s.len() == 0 {
            0
        } else {
            s[0] as int
        }
    } else if (s.last() as int) > seq_max_u32(s.drop_last()) {
        s.last() as int
    } else {
        seq_max_u32(s.drop_last())
    }
}

/// A sample normalized against the frame's own range, boosted, and
/// held to the sensor scale.  A flat frame (all samples equal)
/// normalizes to zero.
pub open spec fn boosted_norm(v: int, lo: int, hi: int, boost: int) -> int {
    let norm = if hi > lo {
        ((v - lo) * 25_500) / (hi - lo)
    } else {
        0
    };
    let b = (norm * boost) / 1000;
    if b > 25_500 {
        25_500
    } else {
        b
    }
}

fn min_max_samples(samples: &Vec<u32>) -> (r: (u32, u32))
    requires
        samples@.len() >= 1,
    ensures
        r.0 as int == seq_min_u32(samples@),
        r.1 as int == seq_max_u32(samples@),
        r.0 <= r.1,
{
    let mut lo: u32 = samples[0];
    let mut hi: u32 = samples[0];
    let mut i: usize = 1;
    proof {
        assert(samples@.subrange(0, 1).len() == 1);
        assert(seq_min_u32(samples@.subrange(0, 1)) == samples@[0]);
        assert(seq_max_u32(samples@.subrange(0, 1)) == samples@[0]);
    }
    while i < samples.len()
        invariant
            1 <= i <= samples@.len(),
            lo as int == seq_min_u32(samples@.subrange(0, i as int)),
            hi as int == seq_max_u32(samples@.subrange(0, i as int)),
            lo <= hi,
        decreases samples@.len() - i,
    {
        let v = samples[i];
        proof {
            assert(samples@.subrange(0, i + 1).drop_last() =~= samples@.subrange(0, i as int));
            assert(samples@.subrange(0, i + 1).last() == samples@[i as int]);
        }
        if v < lo {
            lo = v;
        }
        if v > hi {
            hi = v;
        }
        i = i + 1;
    }
    proof {
        assert(samples@.subrange(0, samples@.len() as int) =~= samples@);
    }
    (lo, hi)
}

/// Normalize, boost and gamma-encode one sample.
fn develop_sample(v: u32, lo: u32, hi: u32, boost_milli: i64) -> (g: u8)
    requires
        lo <= v <= hi,
        0 <= boost_milli <= 1_000_000,
    ensures
        is_gamma_byte(g as int, boosted_norm(v as int, lo as int, hi as int, boost_milli as int)),
        g as int == gamma_val(boosted_norm(v as int, lo as int, hi as int, boost_milli as int)),
{
    let norm: u64 = if hi > lo {
        let span = (hi - lo) as u64;
        let scaled = ((v - lo) as u64) * 25_500;
        proof {
            assert((v - lo) as int * 25_500 <= (hi - lo) as int * 25_500) by (nonlinear_arith)
                requires
                    0 <= (v - lo) as int <= (hi - lo) as int,
            ;
            vstd::arithmetic::div_mod::lemma_div_is_ordered(
                (v - lo) as int * 25_500,
                (hi - lo) as int * 25_500,
                (hi - lo) as int,
            );
            vstd::arithmetic::div_mod::lemma_div_by_multiple(25_500, (hi - lo) as int);
            assert((hi - lo) as int * 25_500 == 25_500 * ((hi - lo) as int)) by (nonlinear_arith);
            vstd::arithmetic::div_mod::lemma_div_pos_is_pos(
                (v - lo) as int * 25_500,
                (hi - lo) as int,
            );
        }
        scaled / span
    } else {
        0
    };
    proof {
        assert(norm as int * boost_milli as int <= 25_500_000_000_000 && 0 <= norm as int
            * boost_milli as int) by (nonlinear_arith)
            requires
                0 <= norm as int <= 25_500,
                0 <= boost_milli as int <= 1_000_000,
        ;
    }
    let boosted: u64 = (norm * (boost_milli as u64)) / 1000;
    let held: u64 = if boosted > 25_500 {
        25_500
    } else {
        boosted
    };
    gamma_encode(held as u32)
}

/// The pixel bytes a frame of sensor samples develops to: each sample
/// normalized, boosted and gamma-encoded, then replicated into the
/// three channels of its pixel.
pub open spec fn developed_data(samples: Seq<u32>, boost: int) -> Seq<u8> {
    Seq::new(
        (3 * samples.len()) as nat,
        |i: int|
            gamma_val(
                boosted_norm(
                    samples[i / 3] as int,
                    seq_min_u32(samples),
                    seq_max_u32(samples),
                    boost,
                ),
            ) as u8,
    )
}

/// Develop a frame of raw sensor samples into a displayable image:
/// min/max normalization, multiplicative boost, gamma encoding, the
/// scalar replicated into all three channels.
pub fn develop_raw(raw: &RawFrame, boost_milli: i64) -> (out: Image)
    requires
        raw.wf(),
        raw.samples@.len() >= 1,
        0 <= boost_milli <= 1_000_000,
    ensures
        out.wf(),
        out.width == raw.width,
        out.height == raw.height,
        out.data@ == developed_data(raw.samples@, boost_milli as int),
        forall|j: int|
            0 <= j < raw.samples@.len() ==> {
                let g = #[trigger] out.data@[3 * j] as int;
                &&& out.data@[3 * j + 1] as int == g
                &&& out.data@[3 * j + 2] as int == g
                &&& is_gamma_byte(
                    g,
                    boosted_norm(
                        raw.samples@[j] as int,
                        seq_min_u32(raw.samples@),
                        seq_max_u32(raw.samples@),
                        boost_milli as int,
                    ),
                )
            },
{
    let (lo, hi) = min_max_samples(&raw.samples);
    let mut data: Vec<u8> = Vec::new();
    let mut j: usize = 0;
    proof {
        lemma_min_le_all(raw.samples@, raw.samples@.len() as int);
    }
    while j < raw.samples.len()
        invariant
            j <= raw.samples@.len(),
            lo as int == seq_min_u32(raw.samples@),
            hi as int == seq_max_u32(raw.samples@),
            lo <= hi,
            0 <= boost_milli <= 1_000_000,
            data@.len() == 3 * j,
            forall|i: int|
                0 <= i < 3 * j ==> #[trigger] data@[i] == developed_data(
                    raw.samples@,
                    boost_milli as int,
                )[i],
            forall|k: int| 0 <= k < raw.samples@.len() ==> lo <= #[trigger] raw.samples@[k] <= hi,
            forall|k: int|
                0 <= k < j ==> {
                    let g = #[trigger] data@[3 * k] as int;
                    &&& data@[3 * k + 1] as int == g
                    &&& data@[3 * k + 2] as int == g
                    &&& is_gamma_byte(
                        g,
                        boosted_norm(
                            raw.samples@[k] as int,
                            lo as int,
                            hi as int,
                            boost_milli as int,
                        ),
                    )
                },
        decreases raw.samples@.len() - j,
    {
        let v = raw.samples[j];
        let g = develop_sample(v, lo, hi, boost_milli);
        let ghost old_data = data@;
        data.push(g);
        data.push(g);
        data.push(g);
        proof {
            let dd = developed_data(raw.samples@, boost_milli as int);
            assert forall|i: int| 3 * j <= i < 3 * j + 3 implies data@[i] == dd[i] by {
                vstd::arithmetic::div_mod::lemma_fundamental_div_mod_converse(
                    i,
                    3,
                    j as int,
                    i - 3 * j,
                );
            }
        }
        j = j + 1;
    }
    proof {
        assert(3 * (raw.samples@.len() as int) == 3 * (raw.width as int) * (raw.height as int))
            by (nonlinear_arith)
            requires
                raw.samples@.len() as int == (raw.width as int) * (raw.height as int),
        ;
        assert(data@ =~= developed_data(raw.samples@, boost_milli as int));
    }
    Image { width: raw.width, height: raw.height, data }
}

/// Every sample lies between the frame minimum and maximum.
proof fn lemma_min_le_all(s: Seq<u32>, n: int)
    requires
        n == s.len(),
    ensures
        forall|k: int| 0 <= k < s.len() ==> seq_min_u32(s) <= #[trigger] s[k] as int
            && s[k] as int <= seq_max_u32(s),
    decreases s.len(),
{
    if s.len() > 1 {
        lemma_min_le_all(s.drop_last(), n - 1);
        assert forall|k: int| 0 <= k < s.len() implies seq_min_u32(s) <= #[trigger] s[k] as int
            && s[k] as int <= seq_max_u32(s) by {
            if k < s.len() - 1 {
                assert(s.drop_last()[k] == s[k]);
            }
        }
    }
}

/// The sensor data a caller's RAW decoder handed over, as plain
/// values.
pub open spec fn sensor_view(sensor: Option<&RawFrame>) -> Option<(u32, u32, Seq<u32>)> {
    match sensor {
        Some(raw) => Some((raw.width, raw.height, raw.samples@)),
        None => None,
    }
}

/// What ingesting a frame yields, as a function of the bytes, the
/// sensor fallback and the boost: the codec's decode when it reads the
/// bytes, the developed sensor data otherwise, nothing when neither
/// exists.
pub open spec fn decoded_image(
    bytes: Seq<u8>,
    sensor: Option<(u32, u32, Seq<u32>)>,
    boost: int,
) -> Option<(u32, u32, Seq<u8>)> {
    match standard_decode(bytes) {
        Some(t) => Some(t),
        None => match sensor {
            Some((w, h, samples)) => Some((w, h, developed_data(samples, boost))),
            None => None,
        },
    }
}

/// Ingest one frame: try the standard codec on the bytes; fall back
/// to the caller's RAW sensor decode if it produced one; otherwise the
/// frame is unsupported or corrupt.
pub fn load_image(bytes: &Vec<u8>, sensor: Option<&RawFrame>, boost_milli: i64) -> (r: Result<
    Image,
    IngestError,
>)
    requires
        match sensor {
            Some(raw) => raw.wf() && raw.samples@.len() >= 1,
            None => true,
        },
        0 <= boost_milli <= 1_000_000,
    ensures
        r is Ok <==> decoded_image(bytes@, sensor_view(sensor), boost_milli as int) is Some,
        r is Err ==> r->Err_0 == IngestError::UnsupportedOrCorruptImage,
        r is Ok ==> r->Ok_0.wf(),
        r is Ok ==> decoded_image(bytes@, sensor_view(sensor), boost_milli as int) == Some(
            (r->Ok_0.width, r->Ok_0.height, r->Ok_0.data@),
        ),
{
    match decode_rgb_bytes(bytes) {
        Some(img) => Ok(img),
        None => match sensor {
            Some(raw) => Ok(develop_raw(raw, boost_milli)),
            None => Err(IngestError::UnsupportedOrCorruptImage),
        },
    }
}

} // verus!
