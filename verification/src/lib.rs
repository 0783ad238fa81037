//! A fuzzy name search engine for an application launcher.
//!
//! The library turns a list of named items into an ephemeral in-memory
//! inverted index over case-folded substring tokens of bounded width, answers
//! a single exact-token query against it, ranks the matching items by term
//! frequency (ties broken by first-seen order), and rehydrates the winning
//! records. Every query is self-contained: the caller hands in the current
//! item list and a keyword, and gets back the ranked results.

use vstd::prelude::*;

pub mod engine;
pub mod laws;
pub mod fold;
pub mod index;
pub mod items;
pub mod occur;
pub mod query;

verus! {

} // verus!
