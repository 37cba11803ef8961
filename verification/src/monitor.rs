//! Support for a front end that drives processing runs: image-file
//! recognition, thumbnail accounting, progress lines parsed back out
//! of the processor's output, run results, and the plain state types a
//! user interface keeps per run.
use crate::strutil::{
    find_byte, fold_bytes, folded, is_space_byte, lemma_find_byte_at, parse_uint, spec_parse_uint,
    split_on_byte, sub_vec,
};
use vstd::prelude::*;
use vstd::string::StrSliceExecFns;
use vstd::string::StringSliceAdditionalSpecFns;
use vstd::string::StringExecFns;

verus! {

/// Metadata of one input image, as plain values.
#[derive(Clone)]
pub struct ImageMetadata {
    pub width: u32,
    pub height: u32,
    pub file_size: u64,
    pub format: String,
    pub modified: Option<u64>,
}

impl Default for ImageMetadata {
    /// Empty metadata: unknown dimensions, size, format and time.
    fn default() -> (r: Self)
        ensures
            r.width == 0,
            r.height == 0,
            r.file_size == 0,
            r.format@ == Seq::<char>::empty(),
            r.modified is None,
    {
        ImageMetadata {
            width: 0,
            height: 0,
            file_size: 0,
            format: String::new(),
            modified: None,
        }
    }
}

/// Messages a processing run sends back to its driver.
#[derive(Debug, Clone)]
pub enum ProcessMessage {
    Progress { current: usize, total: usize, message: String },
    Output(String),
    Error(String),
    Finished { success: bool, output_path: Option<String> },
}

/// Commands a driver can send to a running process.
#[derive(Debug, Clone, PartialEq, Eq, Structural)]
pub enum ProcessCommand {
    Cancel,
}

/// The outcome of one command-line processing run.
#[derive(Debug, Clone)]
pub struct CliResult {
    pub success: bool,
    pub output_path: Option<String>,
    pub error_message: Option<String>,
    pub stdout: String,
    pub stderr: String,
}

/// Loading state of one thumbnail.
#[derive(Clone, PartialEq)]
pub enum ThumbnailLoadState {
    NotStarted,
    Loading,
    Loaded,
    Error(String),
}

/// Severity of a notification.
#[derive(Clone, Debug, PartialEq, Eq, Structural)]
pub enum ErrorType {
    Info,
    Warning,
    Error,
    Critical,
}

/// A non-blocking notification with its arrival time in milliseconds.
#[derive(Clone, Debug)]
pub struct ErrorNotification {
    pub message: String,
    pub error_type: ErrorType,
    pub timestamp_ms: u64,
    pub auto_dismiss: bool,
}

/// Kinds of modal dialogs.
#[derive(Default, PartialEq, Eq, Structural, Clone, Copy, Debug)]
pub enum DialogType {
    #[default]
    Error,
    Confirmation,
    Info,
}

/// Modal dialog state for errors that must not pass silently.
pub struct ModalDialog {
    pub is_open: bool,
    pub title: String,
    pub message: String,
    pub dialog_type: DialogType,
}

impl Default for ModalDialog {
    /// A closed, empty dialog.
    fn default() -> (r: Self)
        ensures
            !r.is_open,
            r.title@ == Seq::<char>::empty(),
            r.message@ == Seq::<char>::empty(),
            r.dialog_type == DialogType::Error,
    {
        ModalDialog {
            is_open: false,
            title: String::new(),
            message: String::new(),
            dialog_type: DialogType::Error,
        }
    }
}

/// Index of the last occurrence of a byte, or -1.
pub open spec fn last_index_of(s: Seq<u8>, b: u8) -> int
    decreases s.len(),
{
    if s.len() == 0 {
        -1
    } else if s.last() == b {
        s.len() - 1
    } else {
        last_index_of(s.drop_last(), b)
    }
}

proof fn lemma_last_index_at(s: Seq<u8>, b: u8, i: int)
    requires
        -1 <= i < s.len(),
        forall|j: int| i < j < s.len() ==> #[trigger] s[j] != b,
        i == -1 || s[i] == b,
    ensures
        last_index_of(s, b) == i,
    decreases s.len(),
{
    if s.len() > 0 && s.last() != b {
        lemma_last_index_at(s.drop_last(), b, i);
    }
}

/// The final path component: everything after the last slash.
pub open spec fn spec_filename(path: Seq<u8>) -> Seq<u8> {
    path.subrange(last_index_of(path, 47) + 1, path.len() as int)
}

/// The extension of the final component: the bytes after its last
/// dot, none when there is no dot or only a leading one.
pub open spec fn spec_extension(path: Seq<u8>) -> Option<Seq<u8>> {
    let f = spec_filename(path);
    let q = last_index_of(f, 46);
    if q <= 0 {
        None
    } else {
        Some(f.subrange(q + 1, f.len() as int))
    }
}

/// The image formats the processor accepts, by case-folded extension.
pub open spec fn is_supported_ext(e: Seq<u8>) -> bool {
    let f = folded(e);
    ||| f =~= seq![106u8, 112u8, 103u8]
    ||| f =~= seq![106u8, 112u8, 101u8, 103u8]
    ||| f =~= seq![112u8, 110u8, 103u8]
    ||| f =~= seq![116u8, 105u8, 102u8, 102u8]
    ||| f =~= seq![116u8, 105u8, 102u8]
    ||| f =~= seq![98u8, 109u8, 112u8]
    ||| f =~= seq![119u8, 101u8, 98u8, 112u8]
    ||| f =~= seq![114u8, 97u8, 119u8]
    ||| f =~= seq![99u8, 114u8, 50u8]
    ||| f =~= seq![110u8, 101u8, 102u8]
    ||| f =~= seq![97u8, 114u8, 119u8]
}

/// Whether a path names a supported image file.
pub open spec fn spec_is_image_file(path: Seq<u8>) -> bool {
    match spec_extension(path) {
        Some(e) => is_supported_ext(e),
        None => false,
    }
}

fn rfind_byte(s: &Vec<u8>, b: u8, from: usize) -> (r: Option<usize>)
    requires
        from <= s@.len(),
    ensures
        match r {
            Some(i) => from <= i < s@.len() && s@[i as int] == b && forall|j: int|
                i < j < s@.len() ==> #[trigger] s@[j] != b,
            None => forall|j: int| from <= j < s@.len() ==> #[trigger] s@[j] != b,
        },
{
    let mut i: usize = s.len();
    while i > from
        invariant
            from <= i <= s@.len(),
            forall|j: int| i <= j < s@.len() ==> #[trigger] s@[j] != b,
        decreases i,
    {
        if s[i - 1] == b {
            return Some(i - 1);
        }
        i = i - 1;
    }
    None
}

/// Whether a file path names a supported image format, judged by the
/// extension of its final component, case blind.
pub fn is_image_file(path: &str) -> (r: bool)
    ensures
        r == spec_is_image_file(path.spec_bytes()),
{
    let bytes = path.as_bytes_vec();
    let n = bytes.len();
    let fstart: usize = match rfind_byte(&bytes, 47, 0) {
        Some(i) => {
            proof {
                lemma_last_index_at(bytes@, 47, i as int);
            }
            i + 1
        },
        None => {
            proof {
                lemma_last_index_at(bytes@, 47, -1);
            }
            0
        },
    };
    let fname = sub_vec(&bytes, fstart, bytes.len());
    proof {
        assert(fname@ =~= spec_filename(bytes@));
    }
    let dot: usize = match rfind_byte(&fname, 46, 0) {
        Some(i) => {
            proof {
                lemma_last_index_at(fname@, 46, i as int);
            }
            if i == 0 {
                return false;
            }
            i
        },
        None => {
            proof {
                lemma_last_index_at(fname@, 46, -1);
            }
            return false;
        },
    };
    let ext = sub_vec(&fname, dot + 1, fname.len());
    proof {
        assert(spec_extension(bytes@) == Some(ext@));
    }
    let f = fold_bytes(&ext);
    let n = f.len();
    let supported = (n == 3 && f[0] == 106 && f[1] == 112 && f[2] == 103) || (n == 4 && f[0] == 106
        && f[1] == 112 && f[2] == 101 && f[3] == 103) || (n == 3 && f[0] == 112 && f[1] == 110
        && f[2] == 103) || (n == 4 && f[0] == 116 && f[1] == 105 && f[2] == 102 && f[3] == 102) || (
    n == 3 && f[0] == 116 && f[1] == 105 && f[2] == 102) || (n == 3 && f[0] == 98 && f[1] == 109
        && f[2] == 112) || (n == 4 && f[0] == 119 && f[1] == 101 && f[2] == 98 && f[3] == 112) || (n
        == 3 && f[0] == 114 && f[1] == 97 && f[2] == 119) || (n == 3 && f[0] == 99 && f[1] == 114
        && f[2] == 50) || (n == 3 && f[0] == 110 && f[1] == 101 && f[2] == 102) || (n == 3 && f[0]
        == 97 && f[1] == 114 && f[2] == 119);
    proof {
        assert(supported == is_supported_ext(ext@));
    }
    supported
}

/// Memory one cached thumbnail takes: four bytes per pixel.
pub fn calculate_thumbnail_memory_size(width: u32, height: u32) -> (r: usize)
    requires
        (width as int) * (height as int) * 4 <= u32::MAX,
    ensures
        r == (width as int) * (height as int) * 4,
{
    proof {
        assert(0 <= (width as int) * (height as int) && (width as int) * (height as int) * 4 == ((
        width as int) * (height as int)) * 4) by (nonlinear_arith);
    }
    ((width * height) * 4) as usize
}

/// Index of the first whitespace byte, or -1.
pub open spec fn find_space(s: Seq<u8>) -> int
    decreases s.len(),
{
    if s.len() == 0 {
        -1
    } else if is_space_byte(s[0]) {
        0
    } else if find_space(s.drop_first()) == -1 {
        -1
    } else {
        1 + find_space(s.drop_first())
    }
}

proof fn lemma_find_space_at(s: Seq<u8>, i: int)
    requires
        0 <= i <= s.len(),
        forall|j: int| 0 <= j < i ==> !is_space_byte(#[trigger] s[j]),
        i == s.len() || is_space_byte(s[i]),
    ensures
        i < s.len() ==> find_space(s) == i,
        i == s.len() ==> find_space(s) == -1,
    decreases s.len(),
{
    if s.len() > 0 && !is_space_byte(s[0]) {
        lemma_find_space_at(s.drop_first(), i - 1);
    }
}

/// Splitting on whitespace, one separator at a time.
pub open spec fn split_ws(s: Seq<u8>) -> Seq<Seq<u8>>
    decreases s.len(),
{
    let p = find_space(s);
    if 0 <= p < s.len() {
        seq![s.subrange(0, p)] + split_ws(s.subrange(p + 1, s.len() as int))
    } else {
        seq![s]
    }
}

proof fn lemma_split_ws_step(s: Seq<u8>, p: int)
    requires
        0 <= p <= s.len(),
        forall|j: int| 0 <= j < p ==> !is_space_byte(#[trigger] s[j]),
        p == s.len() || is_space_byte(s[p]),
    ensures
        p < s.len() ==> split_ws(s) == seq![s.subrange(0, p)] + split_ws(
            s.subrange(p + 1, s.len() as int),
        ),
        p == s.len() ==> split_ws(s) == seq![s],
{
    lemma_find_space_at(s, p);
}

/// What one token contributes: a plain number's value; a `a/b` token
/// with both sides numbers contributes the first; anything else,
/// nothing.
pub open spec fn token_number(t: Seq<u8>) -> Option<int> {
    if find_byte(t, 47) != -1 {
        let ps = crate::crop::split_spec(t, 47);
        if ps.len() == 2 && spec_parse_uint(ps[0], usize::MAX as int) is Some && spec_parse_uint(
            ps[1],
            usize::MAX as int,
        ) is Some {
            spec_parse_uint(ps[0], usize::MAX as int)
        } else {
            None
        }
    } else {
        spec_parse_uint(t, usize::MAX as int)
    }
}

/// The numbers found among a line's tokens, in order.
pub open spec fn numbers_of(tokens: Seq<Seq<u8>>) -> Seq<int>
    decreases tokens.len(),
{
    if tokens.len() == 0 {
        Seq::empty()
    } else {
        numbers_of(tokens.drop_last()) + (match token_number(tokens.last()) {
            Some(v) => seq![v],
            None => Seq::empty(),
        })
    }
}

/// Whether a byte string contains a pattern.
pub open spec fn contains_bytes(s: Seq<u8>, pat: Seq<u8>) -> bool {
    exists|i: int| 0 <= i <= s.len() - pat.len() && #[trigger] s.subrange(i, i + pat.len()) =~= pat
}

fn contains_pat(h: &Vec<u8>, pat: &Vec<u8>) -> (r: bool)
    requires
        pat@.len() >= 1,
    ensures
        r == contains_bytes(h@, pat@),
{
    if pat.len() > h.len() {
        return false;
    }
    let last_start = h.len() - pat.len();
    let mut i: usize = 0;
    while i <= last_start
        invariant
            i <= last_start + 1,
            last_start == h@.len() - pat@.len(),
            pat@.len() >= 1,
            h@.len() <= usize::MAX,
            forall|ii: int| 0 <= ii < i ==> !(#[trigger] h@.subrange(ii, ii + pat@.len()) =~= pat@),
        decreases last_start + 1 - i,
    {
        let mut j: usize = 0;
        let mut matched = true;
        while j < pat.len()
            invariant
                i + pat@.len() <= h@.len(),
                h@.len() <= usize::MAX,
                j <= pat@.len(),
                matched ==> forall|k: int| 0 <= k < j ==> h@[i + k] == #[trigger] pat@[k],
                !matched ==> !(h@.subrange(i as int, i + pat@.len()) =~= pat@),
            decreases pat@.len() - j,
        {
            if h[i + j] != pat[j] {
                proof {
                    assert(h@.subrange(i as int, i + pat@.len())[j as int] != pat@[j as int]);
                }
                matched = false;
                j = pat.len();
            } else {
                j = j + 1;
            }
        }
        if matched {
            proof {
                assert(h@.subrange(i as int, i + pat@.len()) =~= pat@);
            }
            return true;
        }
        i = i + 1;
    }
    false
}

/// The progress a line of processor output reports: when the line
/// mentions processing or a frame (case blind), the first two numbers
/// among its tokens as (current, total), a lone number as (current, 0).
pub open spec fn spec_parse_progress(s: Seq<u8>) -> Option<(int, int)> {
    if contains_bytes(folded(s), seq![112u8, 114u8, 111u8, 99u8, 101u8, 115u8, 115u8, 105u8, 110u8, 103u8])
        || contains_bytes(folded(s), seq![102u8, 114u8, 97u8, 109u8, 101u8]) {
        let nums = numbers_of(split_ws(s));
        if nums.len() >= 2 {
            Some((nums[0], nums[1]))
        } else if nums.len() == 1 {
            Some((nums[0], 0))
        } else {
            None
        }
    } else {
        None
    }
}

fn token_number_exec(t: &Vec<u8>) -> (r: Option<usize>)
    ensures
        match r {
            Some(v) => token_number(t@) == Some(v as int),
            None => token_number(t@) is None,
        },
{
    let mut p: usize = 0;
    while p < t.len() && t[p] != 47
        invariant
            p <= t@.len(),
            forall|j: int| 0 <= j < p ==> #[trigger] t@[j] != 47,
        decreases t@.len() - p,
    {
        p = p + 1;
    }
    proof {
        lemma_find_byte_at(t@, 47, p as int);
    }
    if p < t.len() {
        let parts = split_on_byte(t, 47);
        proof {
            crate::crop::lemma_split_of_join(parts@.map_values(|q: Vec<u8>| q@), 47);
        }
        if parts.len() != 2 {
            return None;
        }
        let a = parse_uint(&parts[0], usize::MAX as u64);
        let b = parse_uint(&parts[1], usize::MAX as u64);
        match (a, b) {
            (Some(v), Some(_)) => Some(v as usize),
            _ => None,
        }
    } else {
        match parse_uint(t, usize::MAX as u64) {
            Some(v) => Some(v as usize),
            None => None,
        }
    }
}

/// Parse progress information from one line of processor output.
pub fn parse_progress_from_output(line: &str) -> (r: Option<(usize, usize)>)
    ensures
        match r {
            Some((c, t)) => spec_parse_progress(line.spec_bytes()) == Some((c as int, t as int)),
            None => spec_parse_progress(line.spec_bytes()) is None,
        },
{
    let bytes = line.as_bytes_vec();
    let low = fold_bytes(&bytes);
    let mut pat1: Vec<u8> = Vec::new();
    pat1.push(112);
    pat1.push(114);
    pat1.push(111);
    pat1.push(99);
    pat1.push(101);
    pat1.push(115);
    pat1.push(115);
    pat1.push(105);
    pat1.push(110);
    pat1.push(103);
    let mut pat2: Vec<u8> = Vec::new();
    pat2.push(102);
    pat2.push(114);
    pat2.push(97);
    pat2.push(109);
    pat2.push(101);
    proof {
        assert(pat1@ =~= seq![
            112u8,
            114u8,
            111u8,
            99u8,
            101u8,
            115u8,
            115u8,
            105u8,
            110u8,
            103u8,
        ]);
        assert(pat2@ =~= seq![102u8, 114u8, 97u8, 109u8, 101u8]);
    }
    let mentions = contains_pat(&low, &pat1) || contains_pat(&low, &pat2);
    if !mentions {
        return None;
    }
    // split the line on whitespace, one separator at a time
    let mut tokens: Vec<Vec<u8>> = Vec::new();
    let mut pos: usize = 0;
    let mut done = false;
    proof {
        assert(bytes@.subrange(0, bytes@.len() as int) =~= bytes@);
        assert(tokens@.map_values(|q: Vec<u8>| q@) =~= Seq::<Seq<u8>>::empty());
        assert(Seq::<Seq<u8>>::empty() + split_ws(bytes@) =~= split_ws(bytes@));
    }
    while !done
        invariant
            pos <= bytes@.len(),
            split_ws(bytes@) == tokens@.map_values(|q: Vec<u8>| q@) + (if done {
                Seq::<Seq<u8>>::empty()
            } else {
                split_ws(bytes@.subrange(pos as int, bytes@.len() as int))
            }),
        decreases bytes@.len() - pos + (if done {
            0int
        } else {
            1int
        }),
    {
        let ghost suffix = bytes@.subrange(pos as int, bytes@.len() as int);
        let mut p: usize = pos;
        while p < bytes.len() && !(bytes[p] == 32 || (9 <= bytes[p] && bytes[p] <= 13))
            invariant
                pos <= p <= bytes@.len(),
                forall|j: int| pos <= j < p ==> !is_space_byte(#[trigger] bytes@[j]),
            decreases bytes@.len() - p,
        {
            p = p + 1;
        }
        proof {
            assert(forall|j: int|
                0 <= j < p - pos ==> !is_space_byte(#[trigger] suffix[j]));
            if p < bytes@.len() {
                assert(is_space_byte(suffix[p - pos]));
            }
            lemma_split_ws_step(suffix, p - pos);
        }
        let tok = sub_vec(&bytes, pos, p);
        proof {
            assert(tok@ =~= suffix.subrange(0, p - pos));
        }
        let ghost old_tokens = tokens@.map_values(|q: Vec<u8>| q@);
        tokens.push(tok);
        proof {
            assert(tokens@.map_values(|q: Vec<u8>| q@) =~= old_tokens.push(tok@));
        }
        if p < bytes.len() {
            proof {
                assert(suffix.subrange(p - pos + 1, suffix.len() as int) =~= bytes@.subrange(
                    p + 1,
                    bytes@.len() as int,
                ));
                assert(old_tokens.push(tok@) + split_ws(
                    bytes@.subrange(p + 1, bytes@.len() as int),
                ) =~= old_tokens + (seq![tok@] + split_ws(
                    bytes@.subrange(p + 1, bytes@.len() as int),
                )));
            }
            pos = p + 1;
        } else {
            proof {
                assert(suffix =~= tok@);
                assert(old_tokens.push(tok@) =~= old_tokens + seq![tok@]);
            }
            pos = p;
            done = true;
        }
    }
    // collect the numbers the tokens carry
    let mut nums: Vec<usize> = Vec::new();
    let mut k: usize = 0;
    while k < tokens.len()
        invariant
            k <= tokens@.len(),
            split_ws(bytes@) == tokens@.map_values(|q: Vec<u8>| q@),
            nums@.map_values(|v: usize| v as int) == numbers_of(
                tokens@.map_values(|q: Vec<u8>| q@).subrange(0, k as int),
            ),
        decreases tokens@.len() - k,
    {
        let ghost toks = tokens@.map_values(|q: Vec<u8>| q@);
        let ghost old_nums = nums@.map_values(|v: usize| v as int);
        let tn = token_number_exec(&tokens[k]);
        proof {
            assert(toks.subrange(0, k + 1).drop_last() =~= toks.subrange(0, k as int));
            assert(toks.subrange(0, k + 1).last() == toks[k as int]);
        }
        match tn {
            Some(v) => {
                nums.push(v);
                proof {
                    assert(nums@.map_values(|x: usize| x as int) =~= old_nums.push(v as int));
                    assert(old_nums.push(v as int) =~= old_nums + seq![v as int]);
                }
            },
            None => {},
        }
        proof {
            assert(nums@.map_values(|x: usize| x as int) =~= numbers_of(toks.subrange(0, k + 1)));
        }
        k = k + 1;
    }
    proof {
        let toks = tokens@.map_values(|q: Vec<u8>| q@);
        assert(toks.subrange(0, toks.len() as int) =~= toks);
    }
    if nums.len() >= 2 {
        Some((nums[0], nums[1]))
    } else if nums.len() == 1 {
        Some((nums[0], 0))
    } else {
        None
    }
}

/// Assemble the result of a finished command-line run: on failure the
/// error text is the process's own words, or a fixed note where it
/// said nothing; an output path is only meaningful on success.
pub fn cli_result_of_output(
    success: bool,
    stdout: String,
    stderr: String,
    output_path: Option<String>,
) -> (r: CliResult)
    ensures
        r.success == success,
        success ==> r.output_path == output_path && r.error_message is None,
        !success ==> r.output_path is None,
        (!success && stderr@.len() > 0) ==> match r.error_message {
            Some(m) => m@ == stderr@,
            None => false,
        },
        (!success && stderr@.len() == 0) ==> r.error_message is Some,
        r.stdout@ == stdout@,
        r.stderr@ == stderr@,
{
    let error_message: Option<String> = if success {
        None
    } else if stderr.as_str().unicode_len() == 0 {
        Some(String::from_str("Command failed with unknown error"))
    } else {
        Some(stderr.clone())
    };
    let out = if success {
        output_path
    } else {
        None
    };
    CliResult { success, output_path: out, error_message, stdout, stderr }
}

} // verus!
