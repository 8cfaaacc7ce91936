//! A falling-notes visualisation: an integer software rasterizer, a small
//! particle simulation and the per-frame driver that ties them to a note
//! timeline.

pub mod geometry;
pub mod canvas;
pub mod notes;
pub mod palette;
pub mod particles;
mod random;
pub mod sketch;
