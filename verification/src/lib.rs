//! Per-emitter log severity filter: threshold tables keyed by substring
//! patterns, their textual form, and the accept/reject decision for one event.
//!
//! A configuration is built once from two lists of threshold specifications,
//! one matched against module paths and one against explicit targets. Each
//! event is then accepted when its severity is at least as urgent as the
//! threshold of the first pattern that occurs in its module path or target.

pub mod severity;
pub mod text;
pub mod table;
pub mod parse;
pub mod config;
pub mod roundtrip;

pub use crate::config::LogConfig;
pub use crate::parse::ConfigError;
pub use crate::severity::Severity;
pub use crate::table::{ThresholdEntry, ThresholdTable};
