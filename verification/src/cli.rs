use vstd::prelude::*;

verus! {

/// The algorithms offered for comparing two images.
#[derive(Clone, Copy, Debug, PartialEq, Eq, Structural)]
pub enum CompareAlgorithm {
    NormalizedEuclideanDistance,
}

impl CompareAlgorithm {
    /// The user-facing name of the algorithm.
    pub fn name(&self) -> (r: String)
        ensures
            r@ == "normalized-euclidean-distance"@,
    {
        String::from_str("normalized-euclidean-distance")
    }
}

} // verus!
