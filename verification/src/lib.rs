//! Pattern-based prompt-injection detection for LLM applications.
//!
//! A [`Shield`] runs a set of [`Rule`]s over an input, collects their
//! [`Finding`]s into a [`ScanReport`] sorted by position, rates the input by
//! its most severe finding and redacts the serious ones; `sanitize` refuses
//! inputs whose risk reaches the block threshold.

pub mod error;
pub mod findings;
pub mod laws;
pub mod pattern;
pub mod redact;
pub mod risk_order;
pub mod rule;
pub mod rule_laws;
pub mod rules;
pub mod shield;
pub mod sorting;
pub mod text;

pub use error::ShieldBlocked;
pub use findings::{Finding, FindingView, RiskLevel, ScanReport};
pub use rule::Rule;
pub use shield::Shield;
