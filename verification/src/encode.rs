use vstd::prelude::*;
use crate::catalog::tail_from;
use crate::search::SimilarityScore;

verus! {

/// Frames are streamed at a fixed interval of one frame per
/// `FRAMES_PER_SECOND`th of a second.
pub const FRAMES_PER_SECOND: u64 = 24;

/// One step of the encode schedule: the catalog index of a frame, its
/// path, and its frame offset from the start of the selected range. The
/// frame's timestamp is `offset / FRAMES_PER_SECOND` seconds.
#[derive(Debug)]
pub struct FramePlan {
    pub index: usize,
    pub path: Vec<u8>,
    pub offset: usize,
}

/// The ordered stream handed to the encoder: the frames of
/// `selection.start .. selection.end` (end exclusive) in catalog order,
/// each timestamped relative to the start of the range.
pub fn encode_plan(selection: &SimilarityScore, paths: &Vec<Vec<u8>>) -> (r: Vec<FramePlan>)
    requires
        selection.start <= selection.end,
        selection.end <= paths@.len(),
    ensures
        r@.len() == selection.end - selection.start,
        forall|k: int|
            0 <= k < r@.len() ==> {
                &&& (#[trigger] r@[k]).index == selection.start + k
                &&& r@[k].path@ == paths@[selection.start + k]@
                &&& r@[k].offset == k
            },
{
    let mut out: Vec<FramePlan> = Vec::new();
    let mut i = selection.start;
    while i < selection.end
        invariant
            selection.start <= i <= selection.end,
            selection.end <= paths@.len(),
            out@.len() == i - selection.start,
            forall|k: int|
                0 <= k < out@.len() ==> {
                    &&& (#[trigger] out@[k]).index == selection.start + k
                    &&& out@[k].path@ == paths@[selection.start + k]@
                    &&& out@[k].offset == k
                },
        decreases selection.end - i,
    {
        let path = tail_from(&paths[i], 0);
        proof {
            assert(path@ =~= paths@[i as int]@);
        }
        out.push(FramePlan { index: i, path, offset: i - selection.start });
        i += 1;
    }
    out
}

} // verus!
