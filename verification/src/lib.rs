//! The Earwig template preprocessor: a parser for `.ear` templates, the tree
//! it builds, the decisions of the interpreter that walks that tree, and the
//! text that the templates render to.
use vstd::prelude::*;

pub mod text;
pub mod datatypes;
pub mod parserutilities;
pub mod arena;
pub mod parser;
pub mod jsondeserializer;
pub mod errorhandler;
pub mod interpreter;
pub mod effects;
pub mod settingshandler;
pub mod laws;
pub mod template_laws;

verus! {
} // verus!
