//! Object names: the SHA-1 of an object's bytes, written as 40 lowercase hex
//! digits, and where such a name puts the object on disk.
use sha1::{Digest, Sha1};
use crate::text::{chars_of, is_white_space, no_white_space};
use vstd::prelude::*;
use vstd::utf8::*;

verus! {

/// The SHA-1 digest of a byte sequence (20 bytes).
pub uninterp spec fn sha1_digest(data: Seq<u8>) -> Seq<u8>;

/// SHA-1 from the `sha1` crate, through its `Digest::digest` one-shot
/// function. SHA-1 is a function of the input alone and its digest has 20
/// bytes; what the digest is, is left to the name `sha1_digest`.
#[verifier::external_body]
fn sha1_bytes(data: &[u8]) -> (res: Vec<u8>)
    ensures
        res@ == sha1_digest(data@),
        res@.len() == 20,
{
    Sha1::digest(data).to_vec()
}

/// The lowercase hex digit for a value below 16.
pub open spec fn hex_digit(v: int) -> char {
    if v < 10 {
        (48 + v) as char
    } else {
        (87 + v) as char
    }
}

/// Each byte as two lowercase hex digits, high nibble first.
pub open spec fn hex_lower(bytes: Seq<u8>) -> Seq<char>
    decreases bytes.len(),
{
    if bytes.len() == 0 {
        seq![]
    } else {
        seq![hex_digit((bytes[0] / 16) as int), hex_digit((bytes[0] % 16) as int)] + hex_lower(bytes.drop_first())
    }
}

/// `hex::encode` from the `hex` crate: every byte becomes two characters of
/// `0123456789abcdef`, the high nibble first, in the order of the bytes.
#[verifier::external_body]
fn hex_encode(bytes: &[u8]) -> (res: String)
    ensures
        res@ == hex_lower(bytes@),
{
    hex::encode(bytes)
}

/// The name of an object whose framed bytes are `data`.
pub open spec fn object_id(data: Seq<u8>) -> Seq<char> {
    hex_lower(sha1_digest(data))
}

/// Hex text has two ASCII characters per byte, none of them white space.
pub proof fn lemma_hex_lower(bytes: Seq<u8>)
    ensures
        hex_lower(bytes).len() == 2 * bytes.len(),
        is_ascii_chars(hex_lower(bytes)),
        no_white_space(hex_lower(bytes)),
    decreases bytes.len(),
{
    if bytes.len() > 0 {
        lemma_hex_lower(bytes.drop_first());
        let h = hex_lower(bytes);
        let t = hex_lower(bytes.drop_first());
        assert(h =~= seq![hex_digit((bytes[0] / 16) as int), hex_digit((bytes[0] % 16) as int)] + t);
        assert forall|i: int| 0 <= i < h.len() implies '\0' <= #[trigger] h[i] <= '\u{7f}' && !is_white_space(h[i]) by {
            if i >= 2 {
                assert(h[i] == t[i - 2]);
            }
        }
    }
}

/// The text splits after its first two bytes without cutting a character:
/// what `str::split_at(2)` needs.
pub open spec fn splits_at_two(s: Seq<char>) -> bool {
    is_char_boundary(encode_utf8(s), 2)
}

/// ASCII text of two characters or more splits after two bytes.
pub proof fn lemma_ascii_splits_at_two(s: Seq<char>)
    requires
        is_ascii_chars(s),
        s.len() >= 2,
    ensures
        splits_at_two(s),
{
    let b = encode_utf8(s);
    encode_utf8_valid_utf8(s);
    is_ascii_chars_encode_utf8(s);
    if b.len() == 2 {
        is_char_boundary_start_end_of_seq(b);
    } else {
        is_char_boundary_iff_is_leading_byte(b, 2);
        assert(s[2] as u8 == b[2]);
    }
}

/// A hash, held as its hex text.
#[derive(Debug, Clone)]
pub struct Hash(String);

impl View for Hash {
    type V = Seq<char>;

    closed spec fn view(&self) -> Seq<char> {
        self.0@
    }
}

impl PartialEq for Hash {
    fn eq(&self, other: &Self) -> (res: bool) {
        self.0 == other.0
    }
}

impl Eq for Hash {}

impl vstd::std_specs::cmp::PartialEqSpecImpl for Hash {
    open spec fn obeys_eq_spec() -> bool {
        true
    }

    open spec fn eq_spec(&self, other: &Self) -> bool {
        self@ == other@
    }
}

impl Hash {
    /// A hash with the given text.
    pub fn new(hex: String) -> (res: Hash)
        ensures
            res@ == hex@,
    {
        Hash(hex)
    }

    /// A copy of this hash.
    pub fn duplicate(&self) -> (res: Hash)
        ensures
            res@ == self@,
    {
        Hash(self.0.clone())
    }

    /// Whether `fan_out` can split this hash: its first two bytes form whole
    /// characters.
    pub fn can_fan_out(&self) -> (res: bool)
        ensures
            res == splits_at_two(self@),
    {
        self.0.as_str().is_char_boundary(2)
    }

    /// The directory part (the first two bytes) and the file part (the rest).
    pub fn fan_out(&self) -> (res: (&str, &str))
        requires
            splits_at_two(self@),
        ensures
            res.0@ + res.1@ == self@,
            encode_utf8(res.0@).len() == 2,
            is_ascii_chars(self@) ==> res.0@ == self@.take(2) && res.1@ == self@.skip(2),
    {
        let s = self.0.as_str();
        let res = s.split_at(2);
        proof {
            let b = encode_utf8(self@);
            encode_utf8_valid_utf8(self@);
            lemma_split_at_bytes(self@, res.0@, res.1@);
            if is_ascii_chars(self@) {
                is_ascii_chars_concat(self@, res.0@, res.1@);
                is_ascii_chars_encode_utf8(res.0@);
                assert(self@.take(2) =~= res.0@);
                assert(self@.skip(2) =~= res.1@);
            }
        }
        res
    }

    /// The hash's text.
    pub fn as_str(&self) -> (res: &str)
        ensures
            res@ == self@,
    {
        self.0.as_str()
    }

    /// The name of the object whose framed bytes are `bytes`.
    pub fn from_bytes(bytes: &[u8]) -> (res: Hash)
        ensures
            res@ == object_id(bytes@),
            res@.len() == 40,
            is_ascii_chars(res@),
            splits_at_two(res@),
    {
        let digest = sha1_bytes(bytes);
        let hex = hex_encode(digest.as_slice());
        proof {
            lemma_hex_lower(digest@);
            lemma_ascii_splits_at_two(hex@);
        }
        Hash(hex)
    }

    /// Where the object named by this hash is stored under `repo_root`: the
    /// root joined with `.rgit/objects`, then with the directory part, then
    /// with the file part, each join as `Path::join` does it on Unix.
    pub fn get_path(&self, repo_root: &str) -> (res: String)
        requires
            splits_at_two(self@),
        ensures
            exists|prefix: Seq<char>, rest: Seq<char>|
                prefix + rest == self@ && encode_utf8(prefix).len() == 2 && res@ == join_path(
                    join_path(join_path(repo_root@, objects_dir()), prefix),
                    rest,
                ),
            is_ascii_chars(self@) ==> res@ == join_path(
                join_path(join_path(repo_root@, objects_dir()), self@.take(2)),
                self@.skip(2),
            ),
    {
        let (prefix, rest) = self.fan_out();
        proof {
            reveal_strlit(".rgit/objects");
            assert(".rgit/objects"@ =~= objects_dir());
        }
        let base = join_text(String::from_str(repo_root), ".rgit/objects");
        let dir = join_text(base, prefix);
        join_text(dir, rest)
    }
}

/// The object store's directory, relative to a repository's root.
pub open spec fn objects_dir() -> Seq<char> {
    seq!['.', 'r', 'g', 'i', 't', '/', 'o', 'b', 'j', 'e', 'c', 't', 's']
}

/// `Path::join` on Unix, on text: a path that starts with `/` replaces the
/// base; otherwise a `/` goes between the two, unless the base is empty or
/// already ends with one.
pub open spec fn join_path(base: Seq<char>, p: Seq<char>) -> Seq<char> {
    if p.len() > 0 && p[0] == '/' {
        p
    } else if base.len() == 0 || base.last() == '/' {
        base + p
    } else {
        base + seq!['/'] + p
    }
}

/// Joins `p` onto `base` (see `join_path`).
pub fn join_text(base: String, p: &str) -> (res: String)
    ensures
        res@ == join_path(base@, p@),
{
    let pc = chars_of(p);
    if pc.len() > 0 && pc[0] == '/' {
        return String::from_str(p);
    }
    let bc = chars_of(base.as_str());
    let mut out = base;
    if bc.len() > 0 && bc[bc.len() - 1] != '/' {
        out.append("/");
        proof {
            reveal_strlit("/");
            assert("/"@ =~= seq!['/']);
        }
    }
    out.append(p);
    out
}

/// Splitting a string's UTF-8 bytes at a character boundary splits its
/// characters: the two pieces put together are the whole.
proof fn lemma_split_at_bytes(s: Seq<char>, a: Seq<char>, b: Seq<char>)
    requires
        encode_utf8(a) == encode_utf8(s).subrange(0, 2),
        encode_utf8(b) == encode_utf8(s).subrange(2, encode_utf8(s).len() as int),
        is_char_boundary(encode_utf8(s), 2),
    ensures
        a + b == s,
        encode_utf8(a).len() == 2,
{
    let bs = encode_utf8(s);
    encode_utf8_valid_utf8(s);
    crate::text::lemma_encode_utf8_concat(a, b);
    assert(bs.subrange(0, 2) + bs.subrange(2, bs.len() as int) =~= bs);
    crate::text::lemma_encode_utf8_injective(a + b, s);
}

} // verus!
