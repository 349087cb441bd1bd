//! A fixed-capacity table of disjoint address ranges, kept sorted and
//! coalesced, in the style of early-boot memory-map trackers.
pub mod laws;
pub mod memblock;
pub mod model;
pub mod region;
