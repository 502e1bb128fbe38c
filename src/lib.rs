//! Page-level recomposition of documents stored as graphs of typed,
//! cross-referencing objects: merging, splitting, range extraction and page
//! counting, with a cycle-safe, copy-once object graph copier at the core.
pub mod object;
pub mod document;
pub mod idmap;
pub mod copier;
pub mod names;
pub mod pages;
pub mod assemble;
pub mod ops;
pub mod ranges;
pub mod laws;
