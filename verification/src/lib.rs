//! A position-preserving YAML document model for configuration validation.
//!
//! The library rebuilds a YAML document from a stream of low-level parse
//! events while keeping, for every node, the source position it came from.
//! A navigator then turns structural paths (property / index steps) back
//! into concrete source positions, so that validation errors expressed as
//! paths can be reported against the original text.

pub mod model;
pub mod builder;
pub mod pointer;
pub mod parse;
pub mod laws;
pub mod telemetry;
