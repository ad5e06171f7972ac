//! A small content-addressed object store in the style of Git: blobs, trees
//! and commits are framed with a `<kind> <length>\0` header, named by the
//! SHA-1 of their bytes (as lowercase hex) and stored zlib-compressed under
//! `.rgit/objects/<2 hex digits>/<38 hex digits>`.
pub mod text;
pub mod store;
pub mod domain;
pub mod objects;
