//! Edits the creation, modification and last-printed dates held in the
//! property parts of an Office Open XML package.
pub mod archive;
pub mod bytes;
pub mod extract;
pub mod package;
pub mod props;
pub mod rewrite;
pub mod xml;
