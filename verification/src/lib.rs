//! Literate Lean 4 pages rendered as a static website. Paths are Unix paths.

pub mod graph;
pub mod maps;
pub mod markup;
pub mod outside;
pub mod parse;
pub mod render;
pub mod serve;
pub mod site;
pub mod text;
pub mod validate;
pub mod xref;
