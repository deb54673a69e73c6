//! Tooling drafts: a per-line context without resumption.
pub mod parse_tooling;
