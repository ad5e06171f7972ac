//! The object model: hashes, blobs, trees, commits and the working-tree
//! status.
pub mod blob;
pub mod commit;
pub mod hash;
pub mod name_map;
pub mod snapshot;
pub mod status;
pub mod tree;
