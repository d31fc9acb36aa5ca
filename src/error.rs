//! The ways a trimming run can fail. Every one of them is fatal.
use vstd::prelude::*;

verus! {

#[derive(Clone, Copy, Debug, PartialEq, Eq, Structural)]
pub enum TrimError {
    /// No usable rasterizer executable was found.
    ToolNotFound,
    /// Neither the given path nor the path with `.pdf` appended exists.
    InputNotFound,
    /// The rasterizer process could not be started.
    ToolSpawnFailed,
    /// The rasterizer exited with a failure status.
    ToolExecutionFailed,
    /// The rasterizer reported no standard-precision bounding box.
    NoBoundingBoxesFound,
    /// The two precision tiers hold different numbers of rectangles.
    PrecisionTierMismatch { standard: usize, high_precision: usize },
    /// The document's page count differs from the number of rectangles.
    PageCountMismatch { pages: usize, boxes: usize },
    /// The page at this position is not a dictionary.
    MalformedPageObject { page: usize },
    /// The document could not be read.
    DocumentLoadFailed,
    /// The document could not be written.
    DocumentSaveFailed,
}

} // verus!
