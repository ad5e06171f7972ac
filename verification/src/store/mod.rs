//! Where objects live: their framing, compression and place on disk, and the
//! repository's head reference.
pub mod object_store;
pub mod repo;
