//! The repository: its root directory and the reference to the current
//! commit.
use crate::text::{chars_of, is_white_space, string_of, trim, trim_chars, trim_end, trim_start};
use vstd::prelude::*;

verus! {

/// A repository, known by its root directory.
pub struct Repo {
    pub root: String,
}

/// Text with no white space at either end.
pub open spec fn trimmed(s: Seq<char>) -> bool {
    s.len() == 0 || (!is_white_space(s[0]) && !is_white_space(s.last()))
}

impl Repo {
    /// The repository rooted at `path`.
    pub fn new(path: &str) -> (res: Repo)
        ensures
            res.root@ == path@,
    {
        Repo { root: String::from_str(path) }
    }

    /// What the branch reference file holds for a commit: its hash and a
    /// newline.
    pub fn ref_contents(hash: &crate::domain::hash::Hash) -> (res: String)
        ensures
            res@ == hash@ + seq!['\n'],
    {
        let mut s = String::from_str(hash.as_str());
        s.append("\n");
        proof {
            reveal_strlit("\n");
            assert("\n"@ =~= seq!['\n']);
        }
        s
    }

    /// The commit hash that a branch reference file holds: its text without
    /// white space at either end.
    pub fn head_from_ref(contents: &str) -> (res: String)
        ensures
            res@ == trim(contents@),
    {
        let cs = chars_of(contents);
        let t = trim_chars(cs.as_slice());
        string_of(t.as_slice())
    }

    /// Reading the reference gives back the hash that was written to it,
    /// when the hash has no white space at its ends (a hex hash has none).
    pub proof fn lemma_ref_roundtrip(hash: Seq<char>)
        requires
            trimmed(hash),
        ensures
            trim(hash + seq!['\n']) == hash,
    {
        let t = hash + seq!['\n'];
        assert(is_white_space('\n'));
        if hash.len() == 0 {
            assert(t =~= seq!['\n']);
            assert(t.drop_first() =~= Seq::<char>::empty());
            assert(trim_start(t) == trim_start(t.drop_first()));
            assert(trim_start(t) =~= Seq::<char>::empty());
        } else {
            assert(t[0] == hash[0]);
            assert(trim_start(t) == t);
            assert(t.last() == '\n');
            assert(t.drop_last() =~= hash);
            assert(hash.last() == hash[hash.len() - 1]);
            assert(trim_end(t) == trim_end(hash));
            assert(trim_end(hash) == hash);
        }
    }
}

} // verus!
