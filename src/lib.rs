//! Compile-time core of a phrase-extraction pipeline.
//!
//! A phrase is literal text mixed with arguments that vary by gender, plural
//! number or an enumerated choice. This crate
//! - collects the variation sources of a phrase (`element`, `nodes`),
//! - enumerates every combination of their values (`jsfbt_builder`),
//! - files the rendered text of each combination in a nested table keyed by
//!   the chosen values (`jsfbt`, `element`),
//! - substitutes token aliases for display (`transform`),
//! - and derives a short, stable identifier of a table from its canonical
//!   form (`hash`).
use vstd::prelude::*;

pub mod arguments;
pub mod element;
pub mod hash;
pub mod jsfbt;
pub mod jsfbt_builder;
pub mod nodes;
pub mod transform;
pub mod util;

verus! {

} // verus!
