//! Graph diagnosis: how cycles are shown, and how close a symbol's
//! consumers sit to each other.

pub mod cycles;
pub mod importers;
pub mod order;
