//! Core logic of a semantic file system: the inode layout, the answers to
//! file-system requests, the tag index built from the document store, and
//! the text processing used when documents are indexed.

pub mod text;
pub mod path;
pub mod tags;
pub mod fs;
pub mod indexer;
pub mod archive;
pub mod watcher;
pub mod searcher;
pub mod laws;
