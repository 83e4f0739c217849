//! Navigation and search support for a vault of markdown notes.
//!
//! The crate holds the rules of a small notes service: how a directory
//! listing becomes the navigation tree, how a note's leading metadata block is
//! split from its body, which notes a search index still lacks, and how a
//! search hit is turned into a line of a result page. Reading the disk, talking
//! to the search engine and serving HTTP are left to the caller, who hands
//! plain values in and takes plain values back.

pub mod frontmatter;
pub mod reply;
pub mod search;
pub mod snippet;
pub mod text;
pub mod tree;
pub mod tree_laws;
pub mod upload;
pub mod value;
