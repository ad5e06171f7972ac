//! Blobs: file contents, stored as they are.
use crate::store::object_store::{blob_kind, frame, lemma_framed_object_body, object_body, object_bytes};
use vstd::prelude::*;

verus! {

/// Blob objects.
pub struct Blob;

impl Blob {
    /// The bytes of the blob object holding `content`:
    /// `blob <length>\0<content>`.
    pub fn prepare(content: &[u8]) -> (res: Vec<u8>)
        ensures
            res@ == object_bytes(blob_kind(), content@),
    {
        let kind: Vec<u8> = vec![98u8, 108, 111, 98];
        proof {
            assert(kind@ =~= blob_kind());
        }
        frame(kind.as_slice(), content)
    }

    /// Reading a blob object back gives the content it was made from,
    /// whatever bytes that content holds, NUL bytes included.
    pub proof fn lemma_blob_roundtrip(content: Seq<u8>)
        ensures
            object_body(object_bytes(blob_kind(), content)) == Some(content),
    {
        assert(!blob_kind().contains(0u8)) by {
            if blob_kind().contains(0u8) {
                let i = choose|i: int| 0 <= i < blob_kind().len() && blob_kind()[i] == 0u8;
            }
        }
        lemma_framed_object_body(blob_kind(), content);
    }
}

} // verus!
