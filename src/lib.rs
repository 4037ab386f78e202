//! Reads the metadata of an EDF biosignal file and decodes time windows of its samples.
//!
//! The header grammar, the derived block geometry and the windowed read are verified;
//! bytes come from a caller-supplied source (see `file_reader`).

pub mod error;
pub mod parser;
pub mod decimal;
pub mod model;
pub mod window;
pub mod file_reader;
pub mod sync_reader;

pub use window::{check_bounds, get_sample};
