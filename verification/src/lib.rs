//! Deduplication of (index, label) records by merging all indices that share
//! a label into one canonical entity.
//!
//! The crate has three parts: a lazily-populated union-find over sparse
//! `usize` keys (`disjoint_set`), a strict two-field line parser (`parsing`),
//! and the streaming merge pipeline built on both (`merge`).

pub mod disjoint_set;
pub mod merge;
pub mod parsing;
