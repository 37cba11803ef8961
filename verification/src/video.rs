//! Video assembly: the argument list handed to the external encoder
//! process, and the reading of its exit.  The caller runs the process
//! and, on success, removes the temporary frames; on failure they are
//! left in place for diagnosis.
use vstd::prelude::*;
use vstd::string::StrSliceExecFns;
use vstd::string::StringExecFns;

verus! {

/// Why assembly failed.
#[derive(Debug, PartialEq, Eq)]
pub enum VideoError {
    /// The encoder exited with a failure; its error text is kept.
    EncodingFailed(String),
}

pub open spec fn digit_char(d: int) -> char {
    if d == 0 {
        '0'
    } else if d == 1 {
        '1'
    } else if d == 2 {
        '2'
    } else if d == 3 {
        '3'
    } else if d == 4 {
        '4'
    } else if d == 5 {
        '5'
    } else if d == 6 {
        '6'
    } else if d == 7 {
        '7'
    } else if d == 8 {
        '8'
    } else {
        '9'
    }
}

/// Decimal digits of n as characters, most significant first.
pub open spec fn dec_chars(n: nat) -> Seq<char>
    decreases n,
{
    if n < 10 {
        seq![digit_char(n as int)]
    } else {
        dec_chars(n / 10).push(digit_char((n % 10) as int))
    }
}

fn digit_str(d: u32) -> (r: &'static str)
    requires
        d < 10,
    ensures
        r@ == seq![digit_char(d as int)],
{
    let r: &'static str = if d == 0 {
        "0"
    } else if d == 1 {
        "1"
    } else if d == 2 {
        "2"
    } else if d == 3 {
        "3"
    } else if d == 4 {
        "4"
    } else if d == 5 {
        "5"
    } else if d == 6 {
        "6"
    } else if d == 7 {
        "7"
    } else if d == 8 {
        "8"
    } else {
        "9"
    };
    proof {
        reveal_strlit("0");
        reveal_strlit("1");
        reveal_strlit("2");
        reveal_strlit("3");
        reveal_strlit("4");
        reveal_strlit("5");
        reveal_strlit("6");
        reveal_strlit("7");
        reveal_strlit("8");
        reveal_strlit("9");
        assert(r@ =~= seq![digit_char(d as int)]);
    }
    r
}

/// A number as decimal text.
pub fn u32_string(n: u32) -> (s: String)
    ensures
        s@ == dec_chars(n as nat),
    decreases n,
{
    if n < 10 {
        let s = digit_str(n).to_owned();
        s
    } else {
        let mut s = u32_string(n / 10);
        s.append(digit_str(n % 10));
        proof {
            assert(s@ =~= dec_chars(n as nat));
        }
        s
    }
}

/// The scale filter text `scale=W:H`.
pub open spec fn scale_filter(w: nat, h: nat) -> Seq<char> {
    "scale="@ + dec_chars(w) + ":"@ + dec_chars(h)
}

/// The encoder's argument list: overwrite, input frame rate and
/// pattern, H.264 at the requested constant rate factor, 4:2:0 pixel
/// format, an optional scale filter, and the output path.
pub open spec fn encoder_args(
    fps: nat,
    crf: nat,
    pattern: Seq<char>,
    resolution: Option<(u32, u32)>,
    output: Seq<char>,
) -> Seq<Seq<char>> {
    let head = seq![
        "-y"@,
        "-framerate"@,
        dec_chars(fps),
        "-i"@,
        pattern,
        "-c:v"@,
        "libx264"@,
        "-crf"@,
        dec_chars(crf),
        "-pix_fmt"@,
        "yuv420p"@,
    ];
    let scaled = match resolution {
        Some((w, h)) => head + seq!["-vf"@, scale_filter(w as nat, h as nat)],
        None => head,
    };
    scaled.push(output)
}

/// Build the argument list for the external encoder.
pub fn build_encoder_args(
    fps: u32,
    crf: u32,
    pattern: &str,
    resolution: Option<(u32, u32)>,
    output: &str,
) -> (r: Vec<String>)
    ensures
        r@.map_values(|s: String| s@) == encoder_args(
            fps as nat,
            crf as nat,
            pattern@,
            resolution,
            output@,
        ),
{
    let mut r: Vec<String> = Vec::new();
    r.push(String::from_str("-y"));
    r.push(String::from_str("-framerate"));
    r.push(u32_string(fps));
    r.push(String::from_str("-i"));
    r.push(pattern.to_owned());
    r.push(String::from_str("-c:v"));
    r.push(String::from_str("libx264"));
    r.push(String::from_str("-crf"));
    r.push(u32_string(crf));
    r.push(String::from_str("-pix_fmt"));
    r.push(String::from_str("yuv420p"));
    match resolution {
        Some((w, h)) => {
            r.push(String::from_str("-vf"));
            let mut f = String::from_str("scale=");
            let ws = u32_string(w);
            f.append(ws.as_str());
            f.append(":");
            let hs = u32_string(h);
            f.append(hs.as_str());
            proof {
                assert(f@ =~= scale_filter(w as nat, h as nat));
            }
            r.push(f);
        },
        None => {},
    }
    r.push(output.to_owned());
    proof {
        assert(r@.map_values(|s: String| s@) =~= encoder_args(
            fps as nat,
            crf as nat,
            pattern@,
            resolution,
            output@,
        ));
    }
    r
}

/// Read the encoder's exit: success finishes the run, failure carries
/// the process's error text so the caller can render it.
pub fn encode_outcome(exit_success: bool, stderr_text: String) -> (r: Result<(), VideoError>)
    ensures
        r is Ok <==> exit_success,
        r is Err ==> match r->Err_0 {
            VideoError::EncodingFailed(msg) => msg@ == stderr_text@,
        },
{
    if exit_success {
        Ok(())
    } else {
        Err(VideoError::EncodingFailed(stderr_text))
    }
}

} // verus!
