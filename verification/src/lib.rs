//! Schema analysis for STEP: an EXPRESS reader and the inference stages built
//! on top of it, from entity declarations to a compiled blueprint.

pub mod catalog;
pub mod catalog_laws;
pub mod chains;
pub mod express;
pub mod graph;
pub mod infer;
pub mod inheritance;
pub mod names;
pub mod patterns;
pub mod step_io_scan;
pub mod text;
pub mod text_laws;
