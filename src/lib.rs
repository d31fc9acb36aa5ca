//! Removing white margins from PDF pages: reading the per-page bounding
//! boxes that a rasterizer reports, reconciling their two precision tiers,
//! and writing them into the pages' crop rectangles.
pub mod collect;
pub mod crop;
pub mod error;
pub mod record;
pub mod tool;
