//! Pointer hit-testing over circle primitives.
//!
//! Each tick the host hands the library a snapshot of pointers, cameras and
//! primitives. For every pointer the library selects the camera that draws
//! to the surface under the pointer, tests the pointer's world position
//! against every primitive, and reports the primitives that are hit,
//! nearest first, as one batch per pointer.
//!
//! World coordinates are integers in a fixed-point unit of the host's
//! choosing, so that distances are compared exactly.

pub mod geometry;
pub mod camera;
pub mod ranking;
pub mod pipeline;
