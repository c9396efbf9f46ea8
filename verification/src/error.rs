use vstd::prelude::*;

verus! {

/// Fatal conditions of the frame-loading and loop-search pipeline.
/// Dimension-mismatched frame pairs are not an error: the search skips them.
#[derive(Clone, Copy, Debug, PartialEq, Eq, Structural)]
pub enum LoopError {
    /// The directory listing itself could not be read.
    DirectoryUnreadable,
    /// No file in the listing matched the extension filter.
    NoMatchingFiles,
    /// A frame's bytes were not a valid image of the expected format.
    DecodeError,
    /// Fewer than two frames: a single frame cannot loop.
    NoCandidates,
    /// The streaming encoder rejected a frame or failed to finalize.
    EncodeError,
}

} // verus!
