//! Splits a secret-scanning report into unique findings and duplicates.
//!
//! A report is an ordered sequence of [`finding::Finding`] records.  Two
//! findings are considered duplicates of one another when their `secret` and
//! `rule_id` fields agree.  [`partition::partition_findings`] walks the report
//! once, in order, and classifies each finding: the first member of every
//! (secret, rule id) class is unique, every later member is a duplicate.
//! [`render::render`] turns a chosen group into output: fingerprints sorted
//! by ordinal string comparison, or the records themselves in their original
//! order for a structured dump.

pub mod finding;
pub mod partition;
pub mod render;
