//! Frame-range selection: an optional inclusive start/end pair subsets
//! the sorted input list, while each retained frame keeps its original
//! index so that interpolation still samples the same curve positions.
use vstd::prelude::*;

verus! {

/// Why a frame range was rejected.
#[derive(Debug, Clone, Copy, PartialEq, Eq, Structural)]
pub enum RangeError {
    /// The start index lies after the end index.
    InvalidFrameRange,
    /// An index points past the end of the input list.
    FrameIndexOutOfRange,
}

/// One unit of work: an input path with its position in the original
/// sequence, the length of that sequence, and its position among the
/// retained frames.
#[derive(Debug)]
pub struct FrameTask {
    pub path: String,
    pub original_index: usize,
    pub total_original: usize,
    pub output_index: usize,
}

/// The effective start of a range: the first frame when unset.
pub open spec fn range_start(start_frame: Option<usize>) -> int {
    match start_frame {
        Some(s) => s as int,
        None => 0,
    }
}

/// The effective end of a range: the last frame when unset.
pub open spec fn range_end(end_frame: Option<usize>, total: int) -> int {
    match end_frame {
        Some(e) => e as int,
        None => total - 1,
    }
}

/// Validate and apply an inclusive frame range to the sorted input
/// list.  A start after the end is `InvalidFrameRange`; an index at or
/// past the list length is `FrameIndexOutOfRange`; otherwise every
/// retained frame keeps its original index.
pub fn select_frame_range(
    paths: &Vec<String>,
    start_frame: Option<usize>,
    end_frame: Option<usize>,
) -> (r: Result<Vec<FrameTask>, RangeError>)
    requires
        paths@.len() >= 1,
    ensures
        ({
            let total = paths@.len() as int;
            let s = range_start(start_frame);
            let e = range_end(end_frame, total);
            match r {
                Err(RangeError::InvalidFrameRange) => start_frame is Some && end_frame is Some
                    && s > e,
                Err(RangeError::FrameIndexOutOfRange) => !(start_frame is Some
                    && end_frame is Some && s > e) && (s >= total || e >= total),
                Ok(tasks) => {
                    &&& !(start_frame is Some && end_frame is Some && s > e)
                    &&& s < total
                    &&& e < total
                    &&& s <= e
                    &&& tasks@.len() == e - s + 1
                    &&& forall|k: int|
                        0 <= k < tasks@.len() ==> {
                            &&& (#[trigger] tasks@[k]).path@ == paths@[s + k]@
                            &&& tasks@[k].original_index == s + k
                            &&& tasks@[k].total_original == paths@.len()
                            &&& tasks@[k].output_index == k
                        }
                },
            }
        }),
{
    let total = paths.len();
    if let (Some(s), Some(e)) = (start_frame, end_frame) {
        if s > e {
            return Err(RangeError::InvalidFrameRange);
        }
    }
    let start: usize = match start_frame {
        Some(s) => s,
        None => 0,
    };
    let end: usize = match end_frame {
        Some(e) => e,
        None => total - 1,
    };
    if start >= total || end >= total {
        return Err(RangeError::FrameIndexOutOfRange);
    }
    let mut tasks: Vec<FrameTask> = Vec::new();
    let mut i: usize = start;
    while i <= end
        invariant
            start <= i <= end + 1,
            end < total == paths@.len(),
            tasks@.len() == i - start,
            forall|k: int|
                0 <= k < tasks@.len() ==> {
                    &&& (#[trigger] tasks@[k]).path@ == paths@[start + k]@
                    &&& tasks@[k].original_index == start + k
                    &&& tasks@[k].total_original == paths@.len()
                    &&& tasks@[k].output_index == k
                },
        decreases end + 1 - i,
    {
        let task = FrameTask {
            path: paths[i].clone(),
            original_index: i,
            total_original: total,
            output_index: i - start,
        };
        tasks.push(task);
        i = i + 1;
    }
    Ok(tasks)
}

} // verus!
