//! Batch renaming by example: infers the naming templates shared by the
//! files of a directory, derives a rewrite rule from one example rename, and
//! plans the same rename for every file of the example's group.

pub mod ambiguity;
pub mod cache;
pub mod rename;
pub mod templates;
pub mod text;
pub mod text_histo;
pub mod trusted;

pub use rename::rename_map;
pub use text_histo::{text_histo, TextHisto};
