//! Dependency analysis of a Cargo workspace: parsing of `use` statements and
//! paths, re-export resolution, the dependency graph's edge kinds, and the
//! small tables the diagram and the hotspot map are built from.

pub mod analyze;
pub mod cli;
pub mod collections;
pub mod diagnose;
pub mod digraph;
pub mod graph;
pub mod hotspots;
pub mod layout;
pub mod model;
pub mod paths;
pub mod sorting;
pub mod text;
