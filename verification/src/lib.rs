//! Looking up kanji by their components: reading the IDS decompositions,
//! Unihan stroke counts and radical equivalences into component graphs,
//! searching those graphs (characters holding all given components, or the
//! components of given characters, directly or through any depth of
//! nesting), and rendering the results by stroke count.
use vstd::prelude::*;

pub mod charset;
pub mod classify;
pub mod graph;
pub mod ids;
pub mod laws;
pub mod load;
pub mod order;
pub mod pages;
pub mod parse;
pub mod query;
pub mod reorder;
pub mod report;
pub mod search;
pub mod search_laws;
pub mod server;
pub mod strokes;
pub mod template;
pub mod text;

verus! {
} // verus!
