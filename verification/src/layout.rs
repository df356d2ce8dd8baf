//! The layout's tables: jump targets and their locations.

pub mod clusters;
pub mod cycles;
pub mod jump;
