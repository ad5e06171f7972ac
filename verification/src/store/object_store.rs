//! How objects are framed, named, compressed and found again.
use crate::domain::hash::{object_id, splits_at_two};
use crate::text::{decimal, decimal_bytes, digits_value, find_byte, first_index_of, lemma_decimal_digits, lemma_decimal_value, push_all, lemma_first_index_of};
use flate2::read::ZlibDecoder;
use flate2::write::ZlibEncoder;
use flate2::Compression;
use std::io::{Read, Write};
use vstd::prelude::*;
use vstd::utf8::is_ascii_chars;

verus! {

/// An object's bytes: its kind, a space, the length of its body in decimal,
/// a NUL byte, then the body.
pub open spec fn object_bytes(kind: Seq<u8>, body: Seq<u8>) -> Seq<u8> {
    kind + seq![32u8] + decimal(body.len()) + seq![0u8] + body
}

/// The kind word of a blob object.
pub open spec fn blob_kind() -> Seq<u8> {
    seq![98u8, 108, 111, 98]
}

/// The kind word of a tree object.
pub open spec fn tree_kind() -> Seq<u8> {
    seq![116u8, 114, 101, 101]
}

/// The kind word of a commit object.
pub open spec fn commit_kind() -> Seq<u8> {
    seq![99u8, 111, 109, 109, 105, 116]
}

/// Frames `body` as an object of the given kind.
pub fn frame(kind: &[u8], body: &[u8]) -> (res: Vec<u8>)
    ensures
        res@ == object_bytes(kind@, body@),
{
    let mut out: Vec<u8> = Vec::new();
    push_all(&mut out, kind);
    out.push(32u8);
    let digits = decimal_bytes(body.len());
    push_all(&mut out, digits.as_slice());
    out.push(0u8);
    push_all(&mut out, body);
    out
}

/// What follows the first NUL byte of an object's bytes, if it has one.
pub open spec fn object_body(data: Seq<u8>) -> Option<Seq<u8>> {
    let k = first_index_of(data, 0u8);
    if 0 <= k < data.len() {
        Some(data.skip(k + 1))
    } else {
        None
    }
}

/// The body of an object: the bytes after its first NUL byte, or `None` when
/// it has none.
pub fn object_content(data: &[u8]) -> (res: Option<Vec<u8>>)
    ensures
        match res {
            Some(v) => object_body(data@) == Some(v@),
            None => object_body(data@) is None,
        },
{
    let k = find_byte(data, 0u8);
    if k < data.len() {
        Some(vstd::slice::slice_to_vec(vstd::slice::slice_subrange(data, k + 1, data.len())))
    } else {
        None
    }
}

/// Reading an object back: the body after the header is the body that was
/// framed, whatever it holds, as long as the kind word has no NUL byte.
pub proof fn lemma_framed_object_body(kind: Seq<u8>, body: Seq<u8>)
    requires
        !kind.contains(0u8),
    ensures
        object_body(object_bytes(kind, body)) == Some(body),
{
    let data = object_bytes(kind, body);
    let d = decimal(body.len());
    lemma_decimal_digits(body.len());
    let k: int = kind.len() + 1 + d.len() as int;
    assert(data[k] == 0u8);
    assert forall|j: int| 0 <= j < k implies data[j] != 0u8 by {
        if j < kind.len() {
            assert(data[j] == kind[j]);
        } else if j > kind.len() {
            assert(data[j] == d[j - kind.len() - 1]);
        }
    }
    lemma_first_index_of(data, 0u8, k);
    assert(data.skip(k + 1) =~= body);
}

/// The header of an object states the length of its body: after the kind
/// and a space come decimal digits, up to the first NUL byte, that read in
/// base ten as the body's length (with no leading zero), and the body
/// follows that NUL byte.
pub proof fn lemma_object_header_length(kind: Seq<u8>, body: Seq<u8>)
    requires
        !kind.contains(0u8),
    ensures
        object_bytes(kind, body).take(kind.len() as int) == kind,
        object_bytes(kind, body)[kind.len() as int] == 32u8,
        kind.len() + 1 < first_index_of(object_bytes(kind, body), 0u8) < object_bytes(kind, body).len(),
        digits_value(
            object_bytes(kind, body).subrange(
                kind.len() + 1 as int,
                first_index_of(object_bytes(kind, body), 0u8),
            ),
        ) == body.len(),
        forall|i: int|
            kind.len() + 1 <= i < first_index_of(object_bytes(kind, body), 0u8) ==> 48 <= #[trigger] object_bytes(kind, body)[i] <= 57,
        object_bytes(kind, body)[kind.len() + 1 as int] == 48u8 ==> body.len() == 0,
        object_bytes(kind, body).skip(first_index_of(object_bytes(kind, body), 0u8) + 1) == body,
{
    let data = object_bytes(kind, body);
    let d = decimal(body.len());
    lemma_decimal_value(body.len());
    lemma_framed_object_body(kind, body);
    let k: int = kind.len() + 1 + d.len() as int;
    assert(data[k] == 0u8);
    assert forall|j: int| 0 <= j < k implies data[j] != 0u8 by {
        if j < kind.len() {
            assert(data[j] == kind[j]);
            if data[j] == 0u8 {
                assert(kind.contains(kind[j]));
            }
        } else if j > kind.len() {
            assert(data[j] == d[j - kind.len() - 1]);
        }
    }
    lemma_first_index_of(data, 0u8, k);
    assert(data.take(kind.len() as int) =~= kind);
    assert(data.subrange(kind.len() + 1 as int, k) =~= d);
    assert forall|i: int| kind.len() + 1 <= i < k implies 48 <= #[trigger] data[i] <= 57 by {
        assert(data[i] == d[i - kind.len() - 1]);
    }
    assert(data[kind.len() + 1 as int] == d[0]);
    assert(data.skip(k + 1) =~= body);
}

/// The compressed form of a byte sequence.
pub uninterp spec fn zlib_compressed(data: Seq<u8>) -> Seq<u8>;

/// What decompressing a byte sequence gives, `None` for a broken stream.
pub uninterp spec fn zlib_decompressed(data: Seq<u8>) -> Option<Seq<u8>>;

/// zlib compression at the default level with `flate2::write::ZlibEncoder`
/// into memory. The output is a function of the input alone (a fixed
/// encoder at a fixed level); what it is, is left to `zlib_compressed`.
/// Writing into a `Vec` cannot fail.
#[verifier::external_body]
fn zlib_compress(data: &[u8]) -> (res: Vec<u8>)
    ensures
        res@ == zlib_compressed(data@),
{
    let mut encoder = ZlibEncoder::new(Vec::new(), Compression::default());
    encoder.write_all(data).unwrap();
    encoder.finish().unwrap()
}

/// zlib decompression with `flate2::read::ZlibDecoder`, read to the end.
/// The result is a function of the input; a stream that the encoder made
/// from some bytes gives those bytes back (zlib is lossless).
#[verifier::external_body]
fn zlib_decompress(data: &[u8]) -> (res: Option<Vec<u8>>)
    ensures
        res is Some <==> zlib_decompressed(data@) is Some,
        res is Some ==> res.unwrap()@ == zlib_decompressed(data@).unwrap(),
        forall|x: Seq<u8>| #[trigger] zlib_compressed(x) == data@ ==> res is Some && res.unwrap()@ == x,
{
    let mut out: Vec<u8> = Vec::new();
    match ZlibDecoder::new(data).read_to_end(&mut out) {
        Ok(_) => Some(out),
        Err(_) => None,
    }
}

/// An object ready to be written: its name and its compressed bytes.
pub struct EncodedObject {
    pub hash: crate::domain::hash::Hash,
    pub compressed: Vec<u8>,
}

/// Names and compresses an object's bytes, as they are written to disk.
pub fn encode(data: &[u8]) -> (res: EncodedObject)
    ensures
        res.hash@ == object_id(data@),
        res.hash@.len() == 40,
        is_ascii_chars(res.hash@),
        splits_at_two(res.hash@),
        res.compressed@ == zlib_compressed(data@),
{
    let hash = crate::domain::hash::Hash::from_bytes(data);
    let compressed = zlib_compress(data);
    EncodedObject { hash, compressed }
}

/// The bytes of an object from what is stored on disk; `None` when they are
/// not a zlib stream. Reading back what `encode` wrote gives the object's
/// bytes again.
pub fn decode(stored: &[u8]) -> (res: Option<Vec<u8>>)
    ensures
        res is Some <==> zlib_decompressed(stored@) is Some,
        res is Some ==> res.unwrap()@ == zlib_decompressed(stored@).unwrap(),
        forall|x: Seq<u8>| #[trigger] zlib_compressed(x) == stored@ ==> res is Some && res.unwrap()@ == x,
{
    zlib_decompress(stored)
}

/// Why the content of a stored object could not be read.
#[derive(Debug, Clone, Copy, PartialEq, Eq, Structural)]
pub enum ObjectError {
    /// The stored bytes are not a zlib stream.
    CorruptStream,
    /// The object's bytes have no NUL byte ending their header.
    MissingNullTerminator,
}

/// The content of an object from what is stored on disk: its bytes
/// decompressed, without the header that ends at the first NUL byte.
/// Reading back what `encode` wrote gives the framed body again.
pub fn read_content(stored: &[u8]) -> (res: Result<Vec<u8>, ObjectError>)
    ensures
        match res {
            Ok(v) => match zlib_decompressed(stored@) {
                Some(d) => object_body(d) == Some(v@),
                None => false,
            },
            Err(ObjectError::CorruptStream) => zlib_decompressed(stored@) is None,
            Err(ObjectError::MissingNullTerminator) => match zlib_decompressed(stored@) {
                Some(d) => object_body(d) is None,
                None => false,
            },
        },
        forall|x: Seq<u8>| #[trigger] zlib_compressed(x) == stored@ ==> match object_body(x) {
            Some(b) => match res {
                Ok(v) => v@ == b,
                Err(_) => false,
            },
            None => res == Err::<Vec<u8>, ObjectError>(ObjectError::MissingNullTerminator),
        },
{
    match decode(stored) {
        None => Err(ObjectError::CorruptStream),
        Some(data) => match object_content(data.as_slice()) {
            Some(body) => Ok(body),
            None => Err(ObjectError::MissingNullTerminator),
        },
    }
}

} // verus!
