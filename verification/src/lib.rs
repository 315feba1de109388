//! A tag query engine: it keeps a persisted mapping from file names to
//! free-text tags and answers small boolean filter queries over those tags.
//!
//! The pieces, leaf first:
//! - [`text`]: character-level helpers shared by the tokenizer and the codec.
//! - [`infix`]: the query tokenizer and the rule parser.
//! - [`tagmap`]: the tag store, the rule evaluator and the lazy match sequence.
//! - [`codec`]: the line format in which a store is persisted.
//! - [`tagger_map`]: the store wrapper that owns directory synchronization.
//! - [`list`]: an early, minimal form of the store kept for compatibility.
//! - [`completer`]: prefix completion of tag names.
//!
//! All file and directory access stays with the caller: the engine works on
//! plain strings and lists of names, and every function here is verified.
#![verifier::loop_isolation(false)]

pub mod codec;
pub mod completer;
pub mod infix;
pub mod list;
pub mod tagger_map;
pub mod tagmap;
pub mod text;

use vstd::prelude::*;

verus! {

} // verus!
