//! Selection of the best looping subrange from an ordered sequence of image
//! frames: a catalog of lazily loaded frames, a pairwise similarity search
//! over all frame pairs, and the schedule that hands the selected range to a
//! streaming encoder.

pub mod borders;
pub mod catalog;
pub mod cli;
pub mod encode;
pub mod entry;
pub mod error;
pub mod search;
pub mod similarity;
