//! Commits: a tree, an optional parent, an author and a message, written as
//! header lines, a blank line and the message.
use crate::store::object_store::{commit_kind, frame, lemma_framed_object_body, object_body, object_bytes};
use crate::text::{lemma_first_index_of, chars_of, decode_lossy, find_char, join_lines, lemma_join_lines, lemma_lines_cons, lines, no_crlf, plain_line, split_lines, split_once, str_eq, string_of, utf8_lossy};
use vstd::prelude::*;
use vstd::utf8::*;

verus! {

/// A commit.
pub struct Commit {
    pub tree_hash: crate::domain::hash::Hash,
    pub parent_hash: Option<crate::domain::hash::Hash>,
    pub author: String,
    pub message: String,
}

/// A commit's fields as text.
pub struct CommitView {
    pub tree_hash: Seq<char>,
    pub parent_hash: Option<Seq<char>>,
    pub author: Seq<char>,
    pub message: Seq<char>,
}

impl View for Commit {
    type V = CommitView;

    open spec fn view(&self) -> CommitView {
        CommitView {
            tree_hash: self.tree_hash@,
            parent_hash: match self.parent_hash {
                Some(h) => Some(h@),
                None => None,
            },
            author: self.author@,
            message: self.message@,
        }
    }
}

/// `tree`
pub open spec fn tree_key() -> Seq<char> {
    seq!['t', 'r', 'e', 'e']
}

/// `parent`
pub open spec fn parent_key() -> Seq<char> {
    seq!['p', 'a', 'r', 'e', 'n', 't']
}

/// `author`
pub open spec fn author_key() -> Seq<char> {
    seq!['a', 'u', 't', 'h', 'o', 'r']
}

/// A header line: the key, a space, the value.
pub open spec fn header_line(key: Seq<char>, value: Seq<char>) -> Seq<char> {
    key + seq![' '] + value
}

/// The text of a commit:
/// `tree <hash>\n[parent <hash>\n]author <author>\n\n<message>\n`.
pub open spec fn commit_text(c: CommitView) -> Seq<char> {
    header_line(tree_key(), c.tree_hash) + seq!['\n'] + match c.parent_hash {
        Some(p) => header_line(parent_key(), p) + seq!['\n'],
        None => seq![],
    } + header_line(author_key(), c.author) + seq!['\n'] + seq!['\n'] + c.message + seq!['\n']
}

/// The layout of a commit's text, character by character: the `tree` line
/// first, then the `parent` line exactly when there is a parent, then the
/// `author` line, an empty line, and the message with a final newline.
pub proof fn lemma_commit_text_layout(c: CommitView)
    ensures
        c.parent_hash is None ==> commit_text(c) == seq!['t', 'r', 'e', 'e', ' '] + c.tree_hash
            + seq!['\n', 'a', 'u', 't', 'h', 'o', 'r', ' '] + c.author + seq!['\n', '\n'] + c.message
            + seq!['\n'],
        c.parent_hash matches Some(p) ==> commit_text(c) == seq!['t', 'r', 'e', 'e', ' '] + c.tree_hash
            + seq!['\n', 'p', 'a', 'r', 'e', 'n', 't', ' '] + p + seq!['\n', 'a', 'u', 't', 'h', 'o', 'r', ' ']
            + c.author + seq!['\n', '\n'] + c.message + seq!['\n'],
{
    match c.parent_hash {
        Some(p) => {
            assert(commit_text(c) =~= seq!['t', 'r', 'e', 'e', ' '] + c.tree_hash + seq![
                '\n',
                'p',
                'a',
                'r',
                'e',
                'n',
                't',
                ' ',
            ] + p + seq!['\n', 'a', 'u', 't', 'h', 'o', 'r', ' '] + c.author + seq!['\n', '\n']
                + c.message + seq!['\n']);
        },
        None => {
            assert(commit_text(c) =~= seq!['t', 'r', 'e', 'e', ' '] + c.tree_hash + seq![
                '\n',
                'a',
                'u',
                't',
                'h',
                'o',
                'r',
                ' ',
            ] + c.author + seq!['\n', '\n'] + c.message + seq!['\n']);
        },
    }
}

/// The commit that reading starts from: every field empty, no parent.
pub open spec fn empty_commit() -> CommitView {
    CommitView { tree_hash: seq![], parent_hash: None, author: seq![], message: seq![] }
}

/// What one header line sets: `tree`, `parent` and `author` lines set their
/// field to what follows the first space; other lines set nothing.
pub open spec fn apply_header(acc: CommitView, line: Seq<char>) -> CommitView {
    let (key, value) = split_once(line, ' ');
    if key == tree_key() {
        CommitView { tree_hash: value.unwrap(), ..acc }
    } else if key == parent_key() {
        CommitView { parent_hash: Some(value.unwrap()), ..acc }
    } else if key == author_key() {
        CommitView { author: value.unwrap(), ..acc }
    } else {
        acc
    }
}

/// A header line that names a field but has no space, so no value.
pub open spec fn header_without_value(line: Seq<char>) -> bool {
    let (key, value) = split_once(line, ' ');
    (key == tree_key() || key == parent_key() || key == author_key()) && value is None
}

/// Reading header lines until the first empty line; the lines after it,
/// joined with `\n`, are the message.
pub open spec fn parse_commit_lines(ls: Seq<Seq<char>>, acc: CommitView) -> CommitView
    decreases ls.len(),
{
    if ls.len() == 0 {
        acc
    } else if ls[0].len() == 0 {
        CommitView { message: join_lines(ls.drop_first()), ..acc }
    } else {
        parse_commit_lines(ls.drop_first(), apply_header(acc, ls[0]))
    }
}

/// Some header line before the first empty line names a field and has no
/// value: reading such a text fails.
pub open spec fn headers_lack_value(ls: Seq<Seq<char>>) -> bool
    decreases ls.len(),
{
    if ls.len() == 0 || ls[0].len() == 0 {
        false
    } else {
        header_without_value(ls[0]) || headers_lack_value(ls.drop_first())
    }
}

/// The commit a text describes.
pub open spec fn parse_commit_text(s: Seq<char>) -> CommitView {
    parse_commit_lines(lines(s), empty_commit())
}

/// Whether reading the text fails.
pub open spec fn commit_text_unreadable(s: Seq<char>) -> bool {
    headers_lack_value(lines(s))
}

/// Whether the characters are those of `lit`.
fn is_word(w: &[char], lit: &str) -> (res: bool)
    ensures
        res == (w@ == lit@),
{
    let s = string_of(w);
    str_eq(s.as_str(), lit)
}

/// The lines joined with `\n`.
fn join_with_newlines(ls: &[Vec<char>]) -> (res: Vec<char>)
    ensures
        res@ == join_lines(ls@.map_values(|l: Vec<char>| l@)),
{
    let ghost all = ls@.map_values(|l: Vec<char>| l@);
    let n = ls.len();
    let mut out: Vec<char> = Vec::new();
    if n == 0 {
        return out;
    }
    let mut i: usize = n;
    // Build from the back: `out` is the join of the lines from `i` on.
    out = ls[n - 1].clone();
    i = n - 1;
    proof {
        assert(all.skip(i as int) =~= seq![all[i as int]]);
    }
    while i > 0
        invariant
            n == ls@.len(),
            all == ls@.map_values(|l: Vec<char>| l@),
            i < n,
            out@ == join_lines(all.skip(i as int)),
        decreases i,
    {
        let mut next = ls[i - 1].clone();
        next.push('\n');
        let mut k: usize = 0;
        let ghost joined = out@;
        let ghost start = next@;
        while k < out.len()
            invariant
                k <= out@.len(),
                out@ == joined,
                next@ == start + joined.take(k as int),
            decreases out@.len() - k,
        {
            next.push(out[k]);
            proof {
                assert(joined.take(k + 1) =~= joined.take(k as int).push(joined[k as int]));
            }
            k = k + 1;
        }
        proof {
            assert(joined.take(k as int) =~= joined);
            let s = all.skip(i - 1);
            assert(s.drop_first() =~= all.skip(i as int));
            assert(s[0] == all[i - 1]);
            assert(all[i - 1] == ls@[i - 1]@);
            assert(s.len() > 1);
        }
        out = next;
        i = i - 1;
    }
    proof {
        assert(all.skip(0) =~= all);
    }
    out
}

/// The fields read so far, with no message yet.
spec fn fields_so_far(t: Seq<char>, p: Option<Vec<char>>, a: Seq<char>) -> CommitView {
    CommitView {
        tree_hash: t,
        parent_hash: match p {
            Some(v) => Some(v@),
            None => None,
        },
        author: a,
        message: seq![],
    }
}

/// The commit that the lines of a text describe (see `parse_commit_lines`).
fn read_commit(ls: &Vec<Vec<char>>) -> (res: Commit)
    requires
        !headers_lack_value(ls@.map_values(|l: Vec<char>| l@)),
    ensures
        res@ == parse_commit_lines(ls@.map_values(|l: Vec<char>| l@), empty_commit()),
{
    let ghost all = ls@.map_values(|l: Vec<char>| l@);
    let mut tree: Vec<char> = Vec::new();
    let mut parent: Option<Vec<char>> = None;
    let mut author: Vec<char> = Vec::new();
    let mut message: Vec<char> = Vec::new();
    let n = ls.len();
    let mut i: usize = 0;
    proof {
        assert(all.skip(0) =~= all);
    }
    proof {
        assert(fields_so_far(tree@, parent, author@) == empty_commit());
    }
    while i < n
        invariant
            n == ls@.len(),
            all == ls@.map_values(|l: Vec<char>| l@),
            i <= n,
            message@ == Seq::<char>::empty(),
            !headers_lack_value(all.skip(i as int)),
            parse_commit_lines(all.skip(i as int), fields_so_far(tree@, parent, author@)) == parse_commit_lines(all, empty_commit()),
        decreases n - i,
    {
        let line = ls[i].as_slice();
        let ghost rest = all.skip(i as int);
        let ghost acc = fields_so_far(tree@, parent, author@);
        proof {
            assert(rest[0] == all[i as int]);
            assert(all[i as int] == line@);
            assert(rest.drop_first() =~= all.skip(i + 1));
        }
        if line.len() == 0 {
            let tail = vstd::slice::slice_subrange(ls.as_slice(), i + 1, n);
            message = join_with_newlines(tail);
            proof {
                assert(tail@.map_values(|l: Vec<char>| l@) =~= all.skip(i + 1));
            }
            let ghost p = parent;
            let res = Commit {
                tree_hash: crate::domain::hash::Hash::new(string_of(tree.as_slice())),
                parent_hash: match parent {
                    Some(p) => Some(crate::domain::hash::Hash::new(string_of(p.as_slice()))),
                    None => None,
                },
                author: string_of(author.as_slice()),
                message: string_of(message.as_slice()),
            };
            proof {
                match p {
                    Some(v) => {
                        assert(res@.parent_hash == Some(v@));
                    },
                    None => {},
                }
                assert(res@.parent_hash == acc.parent_hash);
                assert(res@ == CommitView { message: join_lines(all.skip(i + 1)), ..acc });
            }
            return res;
        }
        let k = find_char(line, ' ');
        let key = vstd::slice::slice_subrange(line, 0, k);
        proof {
            assert(key@ =~= line@.take(k as int));
            assert(split_once(line@, ' ').0 =~= key@);
            assert(split_once(line@, ' ').1 is None <==> k >= line@.len());
            assert(!header_without_value(line@));
        }
        if is_word(key, "tree") || is_word(key, "parent") || is_word(key, "author") {
            proof {
                reveal_strlit("tree");
                reveal_strlit("parent");
                reveal_strlit("author");
                assert("tree"@ =~= tree_key());
                assert("parent"@ =~= parent_key());
                assert("author"@ =~= author_key());
            }
            assert(k < line.len());
            let value = vstd::slice::slice_to_vec(vstd::slice::slice_subrange(line, k + 1, line.len()));
            proof {
                assert(value@ =~= line@.skip(k + 1));
            }
            if is_word(key, "tree") {
                tree = value;
            } else if is_word(key, "parent") {
                parent = Some(value);
            } else {
                author = value;
            }
            proof {
                assert(fields_so_far(tree@, parent, author@) == apply_header(acc, line@));
            }
        } else {
            proof {
                reveal_strlit("tree");
                reveal_strlit("parent");
                reveal_strlit("author");
                assert("tree"@ =~= tree_key());
                assert("parent"@ =~= parent_key());
                assert("author"@ =~= author_key());
                assert(apply_header(acc, line@) == acc);
            }
        }
        i = i + 1;
    }
    proof {
        assert(all.skip(n as int) =~= Seq::<Seq<char>>::empty());
    }
    Commit {
        tree_hash: crate::domain::hash::Hash::new(string_of(tree.as_slice())),
        parent_hash: match parent {
            Some(p) => Some(crate::domain::hash::Hash::new(string_of(p.as_slice()))),
            None => None,
        },
        author: string_of(author.as_slice()),
        message: string_of(message.as_slice()),
    }
}

impl Commit {
    /// The bytes of the commit object.
    pub fn prepare(&self) -> (res: Vec<u8>)
        ensures
            res@ == object_bytes(commit_kind(), encode_utf8(commit_text(self@))),
    {
        let mut body = String::new();
        body.append("tree ");
        body.append(self.tree_hash.as_str());
        body.append("\n");
        match &self.parent_hash {
            Some(parent) => {
                body.append("parent ");
                body.append(parent.as_str());
                body.append("\n");
            },
            None => {},
        }
        body.append("author ");
        body.append(self.author.as_str());
        body.append("\n");
        body.append("\n");
        body.append(self.message.as_str());
        body.append("\n");
        proof {
            reveal_strlit("tree ");
            reveal_strlit("parent ");
            reveal_strlit("author ");
            reveal_strlit("\n");
            assert("tree "@ =~= tree_key() + seq![' ']);
            assert("parent "@ =~= parent_key() + seq![' ']);
            assert("author "@ =~= author_key() + seq![' ']);
            assert("\n"@ =~= seq!['\n']);
            assert(body@ =~= commit_text(self@));
        }
        let kind: Vec<u8> = vec![99u8, 111, 109, 109, 105, 116];
        proof {
            assert(kind@ =~= commit_kind());
        }
        frame(kind.as_slice(), body.as_str().as_bytes())
    }

    /// The commit that a text describes. The bytes are read as UTF-8,
    /// invalid sequences replaced, and cut into lines. Up to the first empty
    /// line, a line `tree <h>`, `parent <h>` or `author <a>` sets that field
    /// (a later line wins) and other lines are ignored; the lines after the
    /// empty line, joined with `\n`, are the message. A field line with no
    /// space and so no value cannot be read: `try_parse` tells such texts
    /// apart.
    pub fn parse(data: &[u8]) -> (res: Commit)
        requires
            !commit_text_unreadable(utf8_lossy(data@)),
        ensures
            res@ == parse_commit_text(utf8_lossy(data@)),
            valid_utf8(data@) ==> res@ == parse_commit_text(decode_utf8(data@)),
    {
        let text = decode_lossy(data);
        let cs = chars_of(text.as_str());
        let ls = split_lines(cs.as_slice());
        read_commit(&ls)
    }

    /// The commit that a text describes (see `parse`), or `None` when a
    /// field line has no value.
    pub fn try_parse(data: &[u8]) -> (res: Option<Commit>)
        ensures
            res is None <==> commit_text_unreadable(utf8_lossy(data@)),
            res is Some ==> res.unwrap()@ == parse_commit_text(utf8_lossy(data@)),
            valid_utf8(data@) && res is Some ==> res.unwrap()@ == parse_commit_text(decode_utf8(data@)),
    {
        let text = decode_lossy(data);
        let cs = chars_of(text.as_str());
        let ls = split_lines(cs.as_slice());
        if lines_lack_value(&ls) {
            None
        } else {
            Some(Commit::parse(data))
        }
    }
}

/// Whether a header line names a field and has no value.
fn lacks_value(line: &[char]) -> (res: bool)
    ensures
        res == header_without_value(line@),
{
    let k = find_char(line, ' ');
    let key = vstd::slice::slice_subrange(line, 0, k);
    proof {
        assert(key@ =~= line@.take(k as int));
        assert(split_once(line@, ' ').0 =~= key@);
        assert(split_once(line@, ' ').1 is None <==> k >= line@.len());
        reveal_strlit("tree");
        reveal_strlit("parent");
        reveal_strlit("author");
        assert("tree"@ =~= tree_key());
        assert("parent"@ =~= parent_key());
        assert("author"@ =~= author_key());
    }
    k >= line.len() && (is_word(key, "tree") || is_word(key, "parent") || is_word(key, "author"))
}

/// Whether some header line names a field and has no value.
fn lines_lack_value(ls: &Vec<Vec<char>>) -> (res: bool)
    ensures
        res == headers_lack_value(ls@.map_values(|l: Vec<char>| l@)),
{
    let ghost all = ls@.map_values(|l: Vec<char>| l@);
    let n = ls.len();
    let mut i: usize = 0;
    proof {
        assert(all.skip(0) =~= all);
    }
    while i < n
        invariant
            n == ls@.len(),
            all == ls@.map_values(|l: Vec<char>| l@),
            i <= n,
            headers_lack_value(all) == headers_lack_value(all.skip(i as int)),
        decreases n - i,
    {
        let ghost rest = all.skip(i as int);
        proof {
            assert(rest[0] == all[i as int]);
            assert(all[i as int] == ls@[i as int]@);
            assert(rest.drop_first() =~= all.skip(i + 1));
        }
        if ls[i].len() == 0 {
            return false;
        }
        if lacks_value(ls[i].as_slice()) {
            return true;
        }
        i = i + 1;
    }
    proof {
        assert(all.skip(n as int) =~= Seq::<Seq<char>>::empty());
    }
    false
}

/// A commit whose text reads back as itself: the hashes and the author are
/// plain lines, and the message has no carriage return before a line break
/// or at its end.
pub open spec fn commit_well_formed(c: CommitView) -> bool {
    &&& plain_line(c.tree_hash)
    &&& (c.parent_hash matches Some(p) ==> plain_line(p))
    &&& plain_line(c.author)
    &&& no_crlf(c.message)
}

/// A header line splits at the space after its key.
proof fn lemma_split_header(key: Seq<char>, value: Seq<char>)
    requires
        !key.contains(' '),
        !key.contains('\n'),
    ensures
        split_once(header_line(key, value), ' ') == (key, Some(value)),
        plain_line(value) ==> plain_line(header_line(key, value)),
        header_line(key, value).len() > 0,
{
    let l = header_line(key, value);
    assert forall|j: int| 0 <= j < key.len() implies l[j] != ' ' by {
        assert(l[j] == key[j]);
        if l[j] == ' ' {
            assert(key.contains(key[j]));
        }
    }
    lemma_first_index_of(l, ' ', key.len() as int);
    assert(l.take(key.len() as int) =~= key);
    assert(l.skip(key.len() + 1 as int) =~= value);
    if plain_line(value) {
        assert(!l.contains('\n')) by {
            if l.contains('\n') {
                let j = choose|j: int| 0 <= j < l.len() && l[j] == '\n';
                if j < key.len() {
                    assert(key[j] == '\n');
                    assert(key.contains(key[j]));
                } else if j > key.len() {
                    assert(value[j - key.len() - 1] == '\n');
                    assert(value.contains(value[j - key.len() - 1]));
                }
            }
        }
        if value.len() > 0 {
            assert(l.last() == value.last());
        }
    }
}

/// Reading back the text of a well-formed commit gives the commit, and
/// reading it does not fail.
pub proof fn lemma_parse_commit_text(c: CommitView)
    requires
        commit_well_formed(c),
    ensures
        !commit_text_unreadable(commit_text(c)),
        parse_commit_text(commit_text(c)) == c,
{
    let tk = tree_key();
    let pk = parent_key();
    let ak = author_key();
    assert(!tk.contains(' ') && !pk.contains(' ') && !ak.contains(' ')) by {
        if tk.contains(' ') { let j = choose|j: int| 0 <= j < tk.len() && tk[j] == ' '; }
        if pk.contains(' ') { let j = choose|j: int| 0 <= j < pk.len() && pk[j] == ' '; }
        if ak.contains(' ') { let j = choose|j: int| 0 <= j < ak.len() && ak[j] == ' '; }
    }
    assert(!tk.contains('\n') && !pk.contains('\n') && !ak.contains('\n')) by {
        if tk.contains('\n') { let j = choose|j: int| 0 <= j < tk.len() && tk[j] == '\n'; }
        if pk.contains('\n') { let j = choose|j: int| 0 <= j < pk.len() && pk[j] == '\n'; }
        if ak.contains('\n') { let j = choose|j: int| 0 <= j < ak.len() && ak[j] == '\n'; }
    }
    assert(tk != pk && tk != ak && pk != ak) by {
        assert(tk.len() != pk.len());
        assert(tk.len() != ak.len());
        assert(pk[0] != ak[0]);
    }
    let nl = seq!['\n'];
    let tl = header_line(tk, c.tree_hash);
    let al = header_line(ak, c.author);
    let m = c.message;
    lemma_split_header(tk, c.tree_hash);
    lemma_split_header(ak, c.author);
    let after_author = Seq::<char>::empty() + nl + (m + nl);
    let tail = al + nl + after_author;
    lemma_lines_cons(Seq::<char>::empty(), m + nl);
    lemma_lines_cons(al, after_author);
    let msg_lines = lines(m + nl);
    lemma_join_lines(m);
    let e = Seq::<char>::empty();
    // The lines from the author line on.
    let tail_lines = seq![al] + (seq![e] + msg_lines);
    assert(lines(tail) == tail_lines);
    let start = empty_commit();
    let after_tree = CommitView { tree_hash: c.tree_hash, ..start };
    assert(apply_header(start, tl) == after_tree);
    match c.parent_hash {
        Some(p) => {
            let pl = header_line(pk, p);
            lemma_split_header(pk, p);
            let text = tl + nl + (pl + nl + tail);
            assert(commit_text(c) =~= text);
            lemma_lines_cons(pl, tail);
            lemma_lines_cons(tl, pl + nl + tail);
            let ls = seq![tl] + (seq![pl] + tail_lines);
            assert(lines(text) == ls);
            let after_parent = CommitView { parent_hash: Some(p), ..after_tree };
            assert(apply_header(after_tree, pl) == after_parent);
            assert(apply_header(after_parent, al) == CommitView { author: c.author, ..after_parent });
            assert(ls.drop_first() =~= seq![pl] + tail_lines);
            assert((seq![pl] + tail_lines).drop_first() =~= tail_lines);
            assert(tail_lines.drop_first() =~= seq![e] + msg_lines);
            assert((seq![e] + msg_lines).drop_first() =~= msg_lines);
            let after_author = CommitView { author: c.author, ..after_parent };
            assert(parse_commit_lines(seq![e] + msg_lines, after_author) == c);
            assert(tail_lines[0] == al);
            assert(parse_commit_lines(tail_lines, after_parent) == parse_commit_lines(seq![e] + msg_lines, after_author));
            assert((seq![pl] + tail_lines)[0] == pl);
            assert(parse_commit_lines(seq![pl] + tail_lines, after_tree) == parse_commit_lines(tail_lines, after_parent));
            assert(ls[0] == tl);
            assert(parse_commit_lines(ls, start) == parse_commit_lines(seq![pl] + tail_lines, after_tree));
            assert(!headers_lack_value(seq![e] + msg_lines));
            assert(!header_without_value(al));
            assert(!headers_lack_value(tail_lines));
            assert(!header_without_value(pl));
            assert(!headers_lack_value(seq![pl] + tail_lines));
            assert(!header_without_value(tl));
            assert(!headers_lack_value(ls));
        },
        None => {
            let text = tl + nl + tail;
            assert(commit_text(c) =~= text);
            lemma_lines_cons(tl, tail);
            let ls = seq![tl] + tail_lines;
            assert(lines(text) == ls);
            assert(apply_header(after_tree, al) == CommitView { author: c.author, ..after_tree });
            assert(ls.drop_first() =~= tail_lines);
            assert(tail_lines.drop_first() =~= seq![e] + msg_lines);
            assert((seq![e] + msg_lines).drop_first() =~= msg_lines);
            let after_author = CommitView { author: c.author, ..after_tree };
            assert(parse_commit_lines(seq![e] + msg_lines, after_author) == c);
            assert(tail_lines[0] == al);
            assert(parse_commit_lines(tail_lines, after_tree) == parse_commit_lines(seq![e] + msg_lines, after_author));
            assert(ls[0] == tl);
            assert(parse_commit_lines(ls, start) == parse_commit_lines(tail_lines, after_tree));
            assert(!headers_lack_value(seq![e] + msg_lines));
            assert(!header_without_value(al));
            assert(!headers_lack_value(tail_lines));
            assert(!header_without_value(tl));
            assert(!headers_lack_value(ls));
        },
    }
}

/// The body of a prepared commit reads back as the commit: it is valid UTF-8
/// and parses to the commit it was made from, when that is well formed.
pub proof fn lemma_commit_object_roundtrip(c: CommitView)
    requires
        commit_well_formed(c),
    ensures
        object_body(object_bytes(commit_kind(), encode_utf8(commit_text(c)))) == Some(
            encode_utf8(commit_text(c)),
        ),
        valid_utf8(encode_utf8(commit_text(c))),
        !commit_text_unreadable(decode_utf8(encode_utf8(commit_text(c)))),
        parse_commit_text(decode_utf8(encode_utf8(commit_text(c)))) == c,
{
    assert(!commit_kind().contains(0u8)) by {
        if commit_kind().contains(0u8) {
            let i = choose|i: int| 0 <= i < commit_kind().len() && commit_kind()[i] == 0u8;
        }
    }
    lemma_framed_object_body(commit_kind(), encode_utf8(commit_text(c)));
    encode_utf8_valid_utf8(commit_text(c));
    encode_utf8_decode_utf8(commit_text(c));
    lemma_parse_commit_text(c);
}

} // verus!
