//! An in-place, format-preserving editor for line-oriented, brace-delimited
//! configuration text. Sections are declared as `name {` ... `}` lines and
//! entries as `key = value` lines; the library builds an index of nested
//! sections and lets callers insert or update entries at a dotted section
//! path while preserving all surrounding text verbatim.

pub mod color;
pub mod config;
pub mod laws;
pub mod model;
pub mod text;

pub use config::parse_config;
pub use config::HyprlandConfig;
