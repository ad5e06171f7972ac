//! The object store as free functions over the same objects as `domain`:
//! framing, naming and the place of an object on disk.
use crate::domain::hash::{object_id, splits_at_two};
use crate::domain::tree::{entry_views, tree_text};
use crate::domain::commit::commit_text;
use crate::store::object_store::{blob_kind, commit_kind, object_bytes, tree_kind};
use vstd::prelude::*;
use vstd::utf8::{encode_utf8, is_ascii_chars};

verus! {

/// An object's name.
pub type Hash = crate::domain::hash::Hash;

/// What a tree entry points at.
pub type ObjectType = crate::domain::tree::ObjectType;

/// One line of a tree.
pub type TreeEntry = crate::domain::tree::TreeEntry;

/// A commit.
pub type Commit = crate::domain::commit::Commit;

/// The bytes of the blob object holding `content`.
pub fn prepare_blob(content: &[u8]) -> (res: Vec<u8>)
    ensures
        res@ == object_bytes(blob_kind(), content@),
{
    crate::domain::blob::Blob::prepare(content)
}

/// The name of the object whose bytes are `data`.
pub fn hash_data(data: &[u8]) -> (res: Hash)
    ensures
        res@ == object_id(data@),
        res@.len() == 40,
        is_ascii_chars(res@),
{
    crate::domain::hash::Hash::from_bytes(data)
}

/// The name, as text, of the blob holding `content`: the SHA-1 of
/// `blob <length>\0<content>` in lowercase hex, the same as Git's.
pub fn hash_blob(content: &[u8]) -> (res: String)
    ensures
        res@ == object_id(object_bytes(blob_kind(), content@)),
        res@.len() == 40,
{
    let data = prepare_blob(content);
    let hash = crate::domain::hash::Hash::from_bytes(data.as_slice());
    String::from_str(hash.as_str())
}

/// The directory and file names under which the object named `hash` is
/// stored: its first two bytes and the rest.
pub fn get_object_path(hash: &str) -> (res: (String, String))
    requires
        splits_at_two(hash@),
    ensures
        res.0@ + res.1@ == hash@,
        encode_utf8(res.0@).len() == 2,
        is_ascii_chars(hash@) ==> res.0@ == hash@.take(2) && res.1@ == hash@.skip(2),
{
    let h = crate::domain::hash::Hash::new(String::from_str(hash));
    let (dir, file) = h.fan_out();
    (String::from_str(dir), String::from_str(file))
}

/// The bytes of a tree object listing `entries` in the given order.
pub fn prepare_tree(entries: &[TreeEntry]) -> (res: Vec<u8>)
    ensures
        res@ == object_bytes(tree_kind(), encode_utf8(tree_text(entry_views(entries@)))),
{
    crate::domain::tree::Tree::prepare(entries)
}

/// The bytes of a commit object.
pub fn prepare_commit(commit: &Commit) -> (res: Vec<u8>)
    ensures
        res@ == object_bytes(commit_kind(), encode_utf8(commit_text(commit@))),
{
    commit.prepare()
}

} // verus!
