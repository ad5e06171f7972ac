//! Trees: the listing of a directory, one line per entry:
//! `<mode> <kind> <hash>\t<name>\n`.
use crate::domain::hash::object_id;
use crate::domain::name_map::{map_of, NameMap};
use crate::store::object_store::{frame, lemma_framed_object_body, object_body, object_bytes, object_content, tree_kind};
use crate::text::{bytes_lt, lemma_bytes_lt_irreflexive, lemma_bytes_lt_asymmetric, lemma_bytes_lt_total, lemma_bytes_lt_transitive, str_eq, str_lt, is_white_space, chars_of, lemma_first_index_of, lemma_words_three, no_white_space, strip_cr, decode_lossy, find_char, lines, split_lines, split_once, split_words, string_of, utf8_lossy, words};
use vstd::prelude::*;
use vstd::utf8::*;

verus! {

/// What a tree entry points at.
#[derive(Debug, Clone, Copy, PartialEq, Eq, Structural)]
pub enum ObjectType {
    Blob,
    Tree,
}

/// The word `blob`.
pub open spec fn blob_word() -> Seq<char> {
    seq!['b', 'l', 'o', 'b']
}

/// The word `tree`.
pub open spec fn tree_word() -> Seq<char> {
    seq!['t', 'r', 'e', 'e']
}

/// The word a tree line uses for each kind of entry.
pub open spec fn type_word(t: ObjectType) -> Seq<char> {
    match t {
        ObjectType::Blob => blob_word(),
        ObjectType::Tree => tree_word(),
    }
}

impl ObjectType {
    /// `blob` or `tree`.
    pub fn as_str(&self) -> (res: &str)
        ensures
            res@ == type_word(*self),
    {
        proof {
            reveal_strlit("blob");
            reveal_strlit("tree");
        }
        match self {
            ObjectType::Blob => "blob",
            ObjectType::Tree => "tree",
        }
    }
}

/// One line of a tree.
pub struct TreeEntry {
    pub mode: String,
    pub otype: ObjectType,
    pub hash: crate::domain::hash::Hash,
    pub name: String,
}

/// A tree entry's fields as text.
pub struct EntryView {
    pub mode: Seq<char>,
    pub otype: ObjectType,
    pub hash: Seq<char>,
    pub name: Seq<char>,
}

impl View for TreeEntry {
    type V = EntryView;

    open spec fn view(&self) -> EntryView {
        EntryView { mode: self.mode@, otype: self.otype, hash: self.hash@, name: self.name@ }
    }
}

/// The views of a list of entries.
pub open spec fn entry_views(es: Seq<TreeEntry>) -> Seq<EntryView> {
    es.map_values(|e: TreeEntry| e@)
}

/// An entry's line, without its final newline.
pub open spec fn entry_line(e: EntryView) -> Seq<char> {
    e.mode + seq![' '] + type_word(e.otype) + seq![' '] + e.hash + seq!['\t'] + e.name
}

/// The text of a tree: each entry's line followed by a newline.
pub open spec fn tree_text(es: Seq<EntryView>) -> Seq<char>
    decreases es.len(),
{
    if es.len() == 0 {
        seq![]
    } else {
        entry_line(es[0]) + seq!['\n'] + tree_text(es.drop_first())
    }
}

/// A tree's text is its entries' lines one after another and nothing else:
/// no entries give no text, and one more entry adds exactly its line
/// `<mode> <blob|tree> <hash>\t<name>` and a newline at the end.
pub proof fn lemma_tree_text_lines(es: Seq<EntryView>, e: EntryView)
    ensures
        tree_text(Seq::<EntryView>::empty()) == Seq::<char>::empty(),
        tree_text(es.push(e)) == tree_text(es) + entry_line(e) + seq!['\n'],
        entry_line(e) == e.mode + seq![' '] + (if e.otype == ObjectType::Blob {
            seq!['b', 'l', 'o', 'b']
        } else {
            seq!['t', 'r', 'e', 'e']
        }) + seq![' '] + e.hash + seq!['\t'] + e.name,
    decreases es.len(),
{
    let all = es.push(e);
    if es.len() == 0 {
        assert(all.drop_first() =~= Seq::<EntryView>::empty());
        assert(all[0] == e);
        assert(all.drop_first().len() == 0);
        assert(tree_text(all.drop_first()) =~= Seq::<char>::empty());
        assert(tree_text(es) =~= Seq::<char>::empty());
        assert(tree_text(all) == entry_line(e) + seq!['\n'] + tree_text(all.drop_first()));
        assert(tree_text(all) =~= tree_text(es) + entry_line(e) + seq!['\n']);
    } else {
        lemma_tree_text_lines(es.drop_first(), e);
        assert(all.drop_first() =~= es.drop_first().push(e));
        assert(all[0] == es[0]);
        assert(tree_text(all) =~= tree_text(es) + entry_line(e) + seq!['\n']);
    }
}

/// The entry a line stands for, if it has the shape of one: a tab, and before
/// it exactly three words. The second word `blob` makes a blob entry, any
/// other word a tree entry.
pub open spec fn parse_entry_line(line: Seq<char>) -> Option<EntryView> {
    let (meta, name) = split_once(line, '\t');
    let ws = words(meta);
    if name is Some && ws.len() == 3 {
        Some(
            EntryView {
                mode: ws[0],
                otype: if ws[1] == blob_word() {
                    ObjectType::Blob
                } else {
                    ObjectType::Tree
                },
                hash: ws[2],
                name: name.unwrap(),
            },
        )
    } else {
        None
    }
}

/// The entries of the lines that have the shape of one, in order.
pub open spec fn parse_lines(ls: Seq<Seq<char>>) -> Seq<EntryView>
    decreases ls.len(),
{
    if ls.len() == 0 {
        seq![]
    } else {
        match parse_entry_line(ls[0]) {
            Some(e) => seq![e] + parse_lines(ls.drop_first()),
            None => parse_lines(ls.drop_first()),
        }
    }
}

/// The entries a tree's text lists.
pub open spec fn parse_tree_text(s: Seq<char>) -> Seq<EntryView> {
    parse_lines(lines(s))
}

/// The map from names to hashes that the entries give, a later entry
/// replacing an earlier one of the same name.
pub open spec fn entries_map(es: Seq<EntryView>) -> Map<Seq<char>, Seq<char>> {
    map_of(es.map_values(|e: EntryView| (e.name, e.hash)))
}

/// An entry that survives being written and read back: mode and hash are
/// single non-empty words, and the name holds no line break and does not end
/// with a carriage return.
pub open spec fn entry_well_formed(e: EntryView) -> bool {
    &&& e.mode.len() > 0 && no_white_space(e.mode)
    &&& e.hash.len() > 0 && no_white_space(e.hash)
    &&& !e.name.contains('\n')
    &&& !(e.name.len() > 0 && e.name.last() == '\r')
}

/// Reading a written entry line gives the entry back.
proof fn lemma_parse_entry_line(e: EntryView)
    requires
        entry_well_formed(e),
    ensures
        parse_entry_line(entry_line(e)) == Some(e),
{
    let l = entry_line(e);
    let tw = type_word(e.otype);
    let meta = e.mode + seq![' '] + tw + seq![' '] + e.hash;
    let m = meta.len() as int;
    assert(l =~= meta + seq!['\t'] + e.name);
    assert(no_white_space(tw));
    assert forall|j: int| 0 <= j < m implies l[j] != '\t' by {
        assert(l[j] == meta[j]);
        if j < e.mode.len() {
            assert(meta[j] == e.mode[j]);
        } else if j == e.mode.len() {
        } else if j < e.mode.len() + 1 + 4 {
            assert(meta[j] == tw[j - e.mode.len() - 1]);
        } else if j == e.mode.len() + 5 {
        } else {
            assert(meta[j] == e.hash[j - e.mode.len() - 6]);
        }
    }
    lemma_first_index_of(l, '\t', m);
    assert(l.take(m) =~= meta);
    assert(l.skip(m + 1) =~= e.name);
    lemma_words_three(e.mode, tw, e.hash);
    assert(blob_word() != tree_word()) by {
        assert(blob_word()[0] != tree_word()[0]);
    }
    let p = parse_entry_line(l).unwrap();
    assert(p.otype == e.otype);
    assert(p == e);
}

/// Reading back the text of a tree gives its entries, in order, when every
/// entry is well formed.
pub proof fn lemma_parse_tree_text(es: Seq<EntryView>)
    requires
        forall|i: int| 0 <= i < es.len() ==> entry_well_formed(#[trigger] es[i]),
    ensures
        parse_tree_text(tree_text(es)) == es,
    decreases es.len(),
{
    if es.len() == 0 {
        assert(tree_text(es) =~= Seq::<char>::empty());
        assert(parse_tree_text(tree_text(es)) =~= es);
    } else {
        let e = es[0];
        let rest = es.drop_first();
        assert forall|i: int| 0 <= i < rest.len() implies entry_well_formed(#[trigger] rest[i]) by {
            assert(rest[i] == es[i + 1]);
        }
        lemma_parse_tree_text(rest);
        let l = entry_line(e);
        let t = tree_text(es);
        let k = l.len() as int;
        assert(t =~= l + seq!['\n'] + tree_text(rest));
        assert forall|j: int| 0 <= j < k implies t[j] != '\n' by {
            assert(t[j] == l[j]);
            let meta_len = e.mode.len() + 6 + e.hash.len();
            assert(is_white_space('\n'));
            if j < e.mode.len() {
                assert(l[j] == e.mode[j]);
            } else if meta_len < j {
                assert(l[j] == e.name[j - meta_len - 1]);
                assert(e.name.contains(l[j]));
            } else if e.mode.len() + 5 < j < meta_len {
                assert(l[j] == e.hash[j - e.mode.len() - 6]);
            }
        }
        lemma_first_index_of(t, '\n', k);
        assert(t.take(k) =~= l);
        assert(strip_cr(l) == l) by {
            if e.name.len() > 0 {
                assert(l.last() == e.name.last());
            }
        }
        assert(t.skip(k + 1) =~= tree_text(rest));
        assert(lines(t) == seq![l] + lines(tree_text(rest)));
        lemma_parse_entry_line(e);
        let ls = seq![l] + lines(tree_text(rest));
        assert(ls[0] == l);
        assert(ls.drop_first() =~= lines(tree_text(rest)));
        assert(parse_lines(ls) == seq![e] + parse_lines(lines(tree_text(rest))));
        assert(seq![e] + rest =~= es);
    }
}

/// Whether `w` is the word `blob`.
fn is_blob_word(w: &[char]) -> (res: bool)
    ensures
        res == (w@ == blob_word()),
{
    let r = w.len() == 4 && w[0] == 'b' && w[1] == 'l' && w[2] == 'o' && w[3] == 'b';
    proof {
        if r {
            assert(w@ =~= blob_word());
        }
    }
    r
}

/// The entry a line stands for (see `parse_entry_line`).
fn parse_line(line: &[char]) -> (res: Option<TreeEntry>)
    ensures
        match res {
            Some(e) => parse_entry_line(line@) == Some(e@),
            None => parse_entry_line(line@) is None,
        },
{
    let k = find_char(line, '\t');
    if k >= line.len() {
        return None;
    }
    let meta = vstd::slice::slice_subrange(line, 0, k);
    let ws = split_words(meta);
    if ws.len() != 3 {
        return None;
    }
    proof {
        assert(meta@ =~= line@.take(k as int));
        assert(ws@.map_values(|w: Vec<char>| w@)[0] == ws@[0]@);
        assert(ws@.map_values(|w: Vec<char>| w@)[1] == ws@[1]@);
        assert(ws@.map_values(|w: Vec<char>| w@)[2] == ws@[2]@);
    }
    let otype = if is_blob_word(ws[1].as_slice()) {
        ObjectType::Blob
    } else {
        ObjectType::Tree
    };
    let rest = vstd::slice::slice_subrange(line, k + 1, line.len());
    assert(rest@ =~= line@.skip(k + 1));
    Some(
        TreeEntry {
            mode: string_of(ws[0].as_slice()),
            otype,
            hash: crate::domain::hash::Hash::new(string_of(ws[2].as_slice())),
            name: string_of(rest),
        },
    )
}

/// Tree objects.
pub struct Tree;

impl Tree {
    /// The bytes of a tree object listing `entries` in the given order.
    pub fn prepare(entries: &[TreeEntry]) -> (res: Vec<u8>)
        ensures
            res@ == object_bytes(tree_kind(), encode_utf8(tree_text(entry_views(entries@)))),
    {
        let ghost views = entry_views(entries@);
        let mut body = String::new();
        let n = entries.len();
        let mut i: usize = 0;
        proof {
            reveal_strlit(" ");
            reveal_strlit("\t");
            reveal_strlit("\n");
            assert(" "@ =~= seq![' ']);
            assert("\t"@ =~= seq!['\t']);
            assert("\n"@ =~= seq!['\n']);
            assert(views.skip(0) =~= views);
        }
        while i < n
            invariant
                " "@ == seq![' '],
                "\t"@ == seq!['\t'],
                "\n"@ == seq!['\n'],
                n == entries@.len(),
                views == entry_views(entries@),
                i <= n,
                body@ + tree_text(views.skip(i as int)) == tree_text(views),
            decreases n - i,
        {
            let e = &entries[i];
            let ghost before = body@;
            body.append(e.mode.as_str());
            body.append(" ");
            body.append(e.otype.as_str());
            body.append(" ");
            body.append(e.hash.as_str());
            body.append("\t");
            body.append(e.name.as_str());
            body.append("\n");
            proof {
                assert(views[i as int] == e@);
                assert(body@ =~= before + entry_line(e@) + seq!['\n']);
                assert(views.skip(i as int).drop_first() =~= views.skip(i + 1));
                assert(tree_text(views.skip(i as int)) == entry_line(views[i as int]) + seq!['\n']
                    + tree_text(views.skip(i + 1)));
                assert(body@ + tree_text(views.skip(i + 1)) =~= before + tree_text(
                    views.skip(i as int),
                ));
            }
            i = i + 1;
        }
        proof {
            assert(views.skip(n as int) =~= Seq::<EntryView>::empty());
            assert(body@ + Seq::<char>::empty() =~= body@);
        }
        let kind: Vec<u8> = vec![116u8, 114, 101, 101];
        proof {
            assert(kind@ =~= tree_kind());
        }
        frame(kind.as_slice(), body.as_str().as_bytes())
    }

    /// The entries that the text of a tree lists, in order. The bytes are
    /// read as UTF-8, invalid sequences replaced; lines without a tab or
    /// without exactly three words before it are skipped.
    pub fn parse(data: &[u8]) -> (res: Vec<TreeEntry>)
        ensures
            entry_views(res@) == parse_tree_text(utf8_lossy(data@)),
            valid_utf8(data@) ==> entry_views(res@) == parse_tree_text(decode_utf8(data@)),
    {
        let text = decode_lossy(data);
        let cs = chars_of(text.as_str());
        let ls = split_lines(cs.as_slice());
        let ghost all = ls@.map_values(|l: Vec<char>| l@);
        let mut entries: Vec<TreeEntry> = Vec::new();
        let n = ls.len();
        let mut i: usize = 0;
        proof {
            assert(all.skip(0) =~= all);
            assert(entry_views(entries@) =~= Seq::<EntryView>::empty());
        }
        while i < n
            invariant
                n == ls@.len(),
                all == ls@.map_values(|l: Vec<char>| l@),
                i <= n,
                entry_views(entries@) + parse_lines(all.skip(i as int)) == parse_lines(all),
            decreases n - i,
        {
            let ghost before = entry_views(entries@);
            proof {
                assert(all[i as int] == ls@[i as int]@);
                assert(all.skip(i as int).drop_first() =~= all.skip(i + 1));
                assert(all.skip(i as int)[0] == all[i as int]);
            }
            if ls[i].len() > 0 {
                match parse_line(ls[i].as_slice()) {
                    Some(e) => {
                        entries.push(e);
                        proof {
                            assert(entry_views(entries@) =~= before.push(e@));
                            assert(before.push(e@) + parse_lines(all.skip(i + 1)) =~= before + (
                            seq![e@] + parse_lines(all.skip(i + 1))));
                        }
                    },
                    None => {},
                }
            } else {
                proof {
                    assert(split_once(all[i as int], '\t').1 is None);
                }
            }
            i = i + 1;
        }
        proof {
            assert(all.skip(n as int) =~= Seq::<Seq<char>>::empty());
            assert(entry_views(entries@) + Seq::<EntryView>::empty() =~= entry_views(entries@));
        }
        entries
    }
}


/// The names, as bytes, are in order: no entry sorts before an earlier one.
pub open spec fn sorted_by_name(es: Seq<EntryView>) -> bool {
    forall|i: int, j: int|
        0 <= i < j < es.len() ==> !bytes_lt(
            encode_utf8(#[trigger] es[j].name),
            encode_utf8(#[trigger] es[i].name),
        )
}

/// The mode of a plain file.
pub open spec fn file_mode() -> Seq<char> {
    seq!['1', '0', '0', '6', '4', '4']
}

/// The entry of a plain file with the given name and blob hash.
pub open spec fn file_entry(name: Seq<char>, hash: Seq<char>) -> EntryView {
    EntryView { mode: file_mode(), otype: ObjectType::Blob, hash, name }
}

/// The entries of files given by name and blob hash, in their order.
pub open spec fn file_entries(files: Seq<(String, crate::domain::hash::Hash)>) -> Seq<EntryView> {
    files.map_values(|f: (String, crate::domain::hash::Hash)| file_entry(f.0@, f.1@))
}

/// Names that a snapshot of the working directory leaves out: `.rgit` and
/// `target`.
pub open spec fn skipped_by_snapshot(name: Seq<char>) -> bool {
    name == seq!['.', 'r', 'g', 'i', 't'] || name == seq!['t', 'a', 'r', 'g', 'e', 't']
}

/// No two entries have the same name.
pub open spec fn distinct_entry_names(es: Seq<EntryView>) -> bool {
    forall|i: int, j: int| 0 <= i < j < es.len() ==> (#[trigger] es[i]).name != (#[trigger] es[j]).name
}

/// Entries with the same multiset as a list of distinct names have distinct
/// names too.
proof fn lemma_distinct_names_permuted(a: Seq<EntryView>, b: Seq<EntryView>)
    requires
        a.to_multiset() == b.to_multiset(),
        distinct_entry_names(b),
    ensures
        distinct_entry_names(a),
{
    broadcast use vstd::seq_lib::group_to_multiset_ensures;

    assert(b.no_duplicates()) by {
        assert forall|i: int, j: int| 0 <= i < b.len() && 0 <= j < b.len() && i != j implies b[i] != b[j] by {
            if i < j {
                assert(b[i].name != b[j].name);
            } else {
                assert(b[j].name != b[i].name);
            }
        }
    }
    b.lemma_multiset_has_no_duplicates();
    a.lemma_multiset_has_no_duplicates_conv();
    assert forall|i: int, j: int| 0 <= i < j < a.len() implies (#[trigger] a[i]).name != (#[trigger] a[j]).name by {
        assert(a.contains(a[i]));
        assert(a.contains(a[j]));
        assert(a.to_multiset().count(a[i]) > 0);
        assert(a.to_multiset().count(a[j]) > 0);
        assert(b.contains(a[i]));
        assert(b.contains(a[j]));
        let p = choose|p: int| 0 <= p < b.len() && b[p] == a[i];
        let q = choose|q: int| 0 <= q < b.len() && b[q] == a[j];
        assert(a[i] != a[j]);
        if p < q {
            assert(b[p].name != b[q].name);
        } else {
            assert(b[q].name != b[p].name);
        }
    }
}

/// Two lists of entries sorted by name, with the same entries and distinct
/// names, are the same list.
proof fn lemma_sorted_unique(a: Seq<EntryView>, b: Seq<EntryView>)
    requires
        sorted_by_name(a),
        sorted_by_name(b),
        a.to_multiset() == b.to_multiset(),
        distinct_entry_names(a),
    ensures
        a == b,
    decreases a.len(),
{
    broadcast use vstd::seq_lib::group_to_multiset_ensures;

    assert(a.len() == a.to_multiset().len());
    assert(b.len() == b.to_multiset().len());
    if a.len() == 0 {
        assert(a =~= b);
    } else {
        assert(a.contains(a[0]));
        assert(a.to_multiset().count(a[0]) > 0);
        assert(b.contains(a[0]));
        let j = choose|j: int| 0 <= j < b.len() && b[j] == a[0];
        assert(b.contains(b[0]));
        assert(b.to_multiset().count(b[0]) > 0);
        assert(a.contains(b[0]));
        let i = choose|i: int| 0 <= i < a.len() && a[i] == b[0];
        if i != 0 && j != 0 {
            let ea = encode_utf8(a[0].name);
            let eb = encode_utf8(b[0].name);
            assert(!bytes_lt(encode_utf8(a[i].name), encode_utf8(a[0].name)));
            assert(!bytes_lt(encode_utf8(b[j].name), encode_utf8(b[0].name)));
            lemma_bytes_lt_total(ea, eb);
            crate::text::lemma_encode_utf8_injective(a[0].name, b[0].name);
            assert(a[0].name != a[i].name);
        }
        assert(a[0] == b[0]);
        let a1 = a.drop_first();
        let b1 = b.drop_first();
        assert(a.remove(0) =~= a1);
        assert(b.remove(0) =~= b1);
        assert(a1.to_multiset() == b1.to_multiset());
        assert(sorted_by_name(a1)) by {
            assert forall|x: int, y: int| 0 <= x < y < a1.len() implies !bytes_lt(
                encode_utf8(#[trigger] a1[y].name),
                encode_utf8(#[trigger] a1[x].name),
            ) by {
                assert(a1[x] == a[x + 1] && a1[y] == a[y + 1]);
            }
        }
        assert(sorted_by_name(b1)) by {
            assert forall|x: int, y: int| 0 <= x < y < b1.len() implies !bytes_lt(
                encode_utf8(#[trigger] b1[y].name),
                encode_utf8(#[trigger] b1[x].name),
            ) by {
                assert(b1[x] == b[x + 1] && b1[y] == b[y + 1]);
            }
        }
        assert(distinct_entry_names(a1)) by {
            assert forall|x: int, y: int| 0 <= x < y < a1.len() implies (#[trigger] a1[x]).name
                != (#[trigger] a1[y]).name by {
                assert(a1[x] == a[x + 1] && a1[y] == a[y + 1]);
            }
        }
        lemma_sorted_unique(a1, b1);
        assert(a =~= b) by {
            assert forall|k: int| 0 <= k < a.len() implies a[k] == b[k] by {
                if k > 0 {
                    assert(a[k] == a1[k - 1] && b[k] == b1[k - 1]);
                }
            }
        }
    }
}

/// A snapshot does not depend on the order in which the directory lists its
/// files: two listings of the same files (each name once) give the same
/// sorted entries, so the same tree bytes and the same tree name.
pub proof fn lemma_snapshot_ignores_order(
    files1: Seq<(String, crate::domain::hash::Hash)>,
    files2: Seq<(String, crate::domain::hash::Hash)>,
    res1: Seq<EntryView>,
    res2: Seq<EntryView>,
)
    requires
        file_entries(files1).to_multiset() == file_entries(files2).to_multiset(),
        distinct_entry_names(file_entries(files1)),
        sorted_by_name(res1),
        res1.to_multiset() == file_entries(files1).to_multiset(),
        sorted_by_name(res2),
        res2.to_multiset() == file_entries(files2).to_multiset(),
    ensures
        res1 == res2,
        object_bytes(tree_kind(), encode_utf8(tree_text(res1))) == object_bytes(
            tree_kind(),
            encode_utf8(tree_text(res2)),
        ),
        object_id(object_bytes(tree_kind(), encode_utf8(tree_text(res1)))) == object_id(
            object_bytes(tree_kind(), encode_utf8(tree_text(res2))),
        ),
{
    lemma_distinct_names_permuted(res1, file_entries(files1));
    lemma_sorted_unique(res1, res2);
}

/// The entries named `n`, in their order.
pub open spec fn with_name(es: Seq<EntryView>, n: Seq<char>) -> Seq<EntryView>
    decreases es.len(),
{
    if es.len() == 0 {
        seq![]
    } else if es[0].name == n {
        seq![es[0]] + with_name(es.drop_first(), n)
    } else {
        with_name(es.drop_first(), n)
    }
}

proof fn lemma_with_name_concat(a: Seq<EntryView>, b: Seq<EntryView>, n: Seq<char>)
    ensures
        with_name(a + b, n) == with_name(a, n) + with_name(b, n),
    decreases a.len(),
{
    if a.len() == 0 {
        assert(a + b =~= b);
        assert(with_name(a, n) + with_name(b, n) =~= with_name(b, n));
    } else {
        assert((a + b).drop_first() =~= a.drop_first() + b);
        assert((a + b)[0] == a[0]);
        lemma_with_name_concat(a.drop_first(), b, n);
        if a[0].name == n {
            assert(seq![a[0]] + (with_name(a.drop_first(), n) + with_name(b, n)) =~= (seq![a[0]]
                + with_name(a.drop_first(), n)) + with_name(b, n));
        }
    }
}

proof fn lemma_with_name_none(es: Seq<EntryView>, n: Seq<char>)
    requires
        forall|i: int| 0 <= i < es.len() ==> (#[trigger] es[i]).name != n,
    ensures
        with_name(es, n) == Seq::<EntryView>::empty(),
    decreases es.len(),
{
    if es.len() > 0 {
        assert forall|i: int| 0 <= i < es.drop_first().len() implies (#[trigger] es.drop_first()[i]).name != n by {
            assert(es.drop_first()[i] == es[i + 1]);
        }
        lemma_with_name_none(es.drop_first(), n);
    }
}

/// The body of a prepared tree reads back as its entries: it is valid UTF-8
/// and parses to the entries it was made from, when they are well formed.
pub proof fn lemma_tree_object_roundtrip(es: Seq<EntryView>)
    requires
        forall|i: int| 0 <= i < es.len() ==> entry_well_formed(#[trigger] es[i]),
    ensures
        object_body(object_bytes(tree_kind(), encode_utf8(tree_text(es)))) == Some(
            encode_utf8(tree_text(es)),
        ),
        valid_utf8(encode_utf8(tree_text(es))),
        parse_tree_text(decode_utf8(encode_utf8(tree_text(es)))) == es,
{
    assert(!tree_kind().contains(0u8)) by {
        if tree_kind().contains(0u8) {
            let i = choose|i: int| 0 <= i < tree_kind().len() && tree_kind()[i] == 0u8;
        }
    }
    lemma_framed_object_body(tree_kind(), encode_utf8(tree_text(es)));
    encode_utf8_valid_utf8(tree_text(es));
    encode_utf8_decode_utf8(tree_text(es));
    lemma_parse_tree_text(es);
}

impl Tree {
    /// The names and hashes listed by a stored tree object (its bytes, header
    /// included). The header ends at the first NUL byte, which must be there;
    /// a later entry with the same name replaces an earlier one.
    pub fn get_entries_map(data: &[u8]) -> (res: NameMap<crate::domain::hash::Hash>)
        requires
            object_body(data@) is Some,
        ensures
            res@ == entries_map(parse_tree_text(utf8_lossy(object_body(data@).unwrap()))),
            valid_utf8(object_body(data@).unwrap()) ==> res@ == entries_map(
                parse_tree_text(decode_utf8(object_body(data@).unwrap())),
            ),
    {
        let body = match object_content(data) {
            Some(b) => b,
            None => {
                proof {
                    assert(false);
                }
                Vec::new()
            },
        };
        let entries = Tree::parse(body.as_slice());
        let ghost views = entry_views(entries@);
        let ghost pairs = views.map_values(|e: EntryView| (e.name, e.hash));
        let mut map: NameMap<crate::domain::hash::Hash> = NameMap::new();
        let n = entries.len();
        let mut i: usize = 0;
        proof {
            assert(pairs.take(0) =~= Seq::<(Seq<char>, Seq<char>)>::empty());
        }
        while i < n
            invariant
                n == entries@.len(),
                views == entry_views(entries@),
                pairs == views.map_values(|e: EntryView| (e.name, e.hash)),
                i <= n,
                map@ == map_of(pairs.take(i as int)),
            decreases n - i,
        {
            let e = &entries[i];
            map.insert(e.name.clone(), e.hash.duplicate());
            proof {
                assert(views[i as int] == e@);
                assert(pairs.take(i + 1).drop_last() =~= pairs.take(i as int));
                assert(pairs.take(i + 1).last() == (e.name@, e.hash@));
            }
            i = i + 1;
        }
        proof {
            assert(pairs.take(n as int) =~= pairs);
        }
        map
    }

    /// Whether a snapshot of the working directory leaves out an entry of
    /// this name: the repository's own `.rgit` directory and `target`.
    pub fn snapshot_skips(name: &str) -> (res: bool)
        ensures
            res == skipped_by_snapshot(name@),
    {
        proof {
            reveal_strlit(".rgit");
            reveal_strlit("target");
            assert(".rgit"@ =~= seq!['.', 'r', 'g', 'i', 't']);
            assert("target"@ =~= seq!['t', 'a', 'r', 'g', 'e', 't']);
        }
        str_eq(name, ".rgit") || str_eq(name, "target")
    }

    /// The entries of a snapshot of the working directory, from each file's
    /// name and the hash of its stored blob: every entry is a blob of mode
    /// `100644`, and the entries are ordered by name as `sort_entries` orders
    /// them.
    pub fn snapshot_entries(files: &[(String, crate::domain::hash::Hash)]) -> (res: Vec<TreeEntry>)
        ensures
            sorted_by_name(entry_views(res@)),
            forall|n: Seq<char>| #[trigger] with_name(entry_views(res@), n) == with_name(file_entries(files@), n),
            entry_views(res@).to_multiset() == file_entries(files@).to_multiset(),
    {
        let mut entries: Vec<TreeEntry> = Vec::new();
        let n = files.len();
        let mut i: usize = 0;
        proof {
            reveal_strlit("100644");
            assert("100644"@ =~= file_mode());
        }
        while i < n
            invariant
                n == files@.len(),
                i <= n,
                "100644"@ == file_mode(),
                entry_views(entries@) == file_entries(files@.take(i as int)),
            decreases n - i,
        {
            let (name, hash) = &files[i];
            let e = TreeEntry {
                mode: String::from_str("100644"),
                otype: ObjectType::Blob,
                hash: hash.duplicate(),
                name: name.clone(),
            };
            let ghost before = entry_views(entries@);
            entries.push(e);
            proof {
                assert(files@.take(i + 1) =~= files@.take(i as int).push(files@[i as int]));
                assert(entry_views(entries@) =~= before.push(file_entry(name@, hash@)));
                assert(file_entries(files@.take(i + 1)) =~= file_entries(files@.take(i as int)).push(
                    file_entry(name@, hash@),
                ));
            }
            i = i + 1;
        }
        proof {
            assert(files@.take(n as int) =~= files@);
        }
        Tree::sort_entries(entries)
    }

    /// The entries ordered by name, as `str` orders names (byte by byte).
    /// No entry is lost or added, and entries of the same name keep their
    /// order (a stable sort), which fixes the result.
    pub fn sort_entries(entries: Vec<TreeEntry>) -> (res: Vec<TreeEntry>)
        ensures
            sorted_by_name(entry_views(res@)),
            forall|n: Seq<char>| #[trigger] with_name(entry_views(res@), n) == with_name(entry_views(entries@), n),
            entry_views(res@).to_multiset() == entry_views(entries@).to_multiset(),
    {
        let ghost orig = entry_views(entries@);
        let mut input = entries;
        let mut out: Vec<TreeEntry> = Vec::new();
        proof {
            assert(entry_views(out@) =~= Seq::<EntryView>::empty());
            assert forall|n: Seq<char>| #[trigger] with_name(entry_views(out@), n) + with_name(entry_views(input@), n) == with_name(orig, n) by {
                assert(with_name(entry_views(out@), n) + with_name(entry_views(input@), n) =~= with_name(orig, n));
            }
            broadcast use vstd::seq_lib::group_to_multiset_ensures;
        }
        while input.len() > 0
            invariant
                sorted_by_name(entry_views(out@)),
                entry_views(out@).to_multiset().add(entry_views(input@).to_multiset()) == orig.to_multiset(),
                forall|n: Seq<char>| #[trigger] with_name(entry_views(out@), n) + with_name(entry_views(input@), n) == with_name(orig, n),
            decreases input@.len(),
        {
            let ghost in_before = entry_views(input@);
            let ghost out_before = entry_views(out@);
            let e = input.remove(0);
            let n = out.len();
            let mut p: usize = 0;
            while p < n && !str_lt(e.name.as_str(), out[p].name.as_str())
                invariant
                    n == out@.len(),
                    out_before == entry_views(out@),
                    p <= n,
                    forall|k: int| 0 <= k < p ==> !bytes_lt(encode_utf8(e@.name), encode_utf8(#[trigger] out_before[k].name)),
                decreases n - p,
            {
                proof {
                    assert(out_before[p as int] == out@[p as int]@);
                }
                p = p + 1;
            }
            proof {
                if p < n {
                    assert(out_before[p as int] == out@[p as int]@);
                }
            }
            let ghost ev = e@;
            out.insert(p, e);
            proof {
                let head = out_before.take(p as int);
                let tail = out_before.skip(p as int);
                let ins = entry_views(input@);
                assert(out_before =~= head + tail);
                assert(entry_views(out@) =~= head + seq![ev] + tail);
                assert(in_before =~= seq![ev] + ins);
                assert forall|n: Seq<char>| #[trigger] with_name(entry_views(out@), n) + with_name(ins, n) == with_name(orig, n) by {
                    lemma_with_name_concat(head, tail, n);
                    lemma_with_name_concat(head + seq![ev], tail, n);
                    lemma_with_name_concat(head, seq![ev], n);
                    lemma_with_name_concat(seq![ev], ins, n);
                    assert(with_name(out_before, n) + with_name(in_before, n) == with_name(orig, n));
                    let single = with_name(seq![ev], n);
                    assert(seq![ev].drop_first() =~= Seq::<EntryView>::empty());
                    assert(seq![ev][0] == ev);
                    assert(with_name(Seq::<EntryView>::empty(), n) =~= Seq::<EntryView>::empty());
                    assert(with_name(seq![ev].drop_first(), n) =~= Seq::<EntryView>::empty());
                    if ev.name == n {
                        assert forall|i: int| 0 <= i < tail.len() implies (#[trigger] tail[i]).name != n by {
                            assert(tail[i] == out_before[p + i]);
                            let en = encode_utf8(ev.name);
                            let ep = encode_utf8(out_before[p as int].name);
                            let ei = encode_utf8(out_before[p + i].name);
                            if i > 0 {
                                lemma_bytes_lt_total(ep, ei);
                                lemma_bytes_lt_transitive(en, ep, ei);
                            }
                            lemma_bytes_lt_irreflexive(en);
                        }
                        lemma_with_name_none(tail, n);
                        assert(single =~= seq![ev]);
                        assert(with_name(entry_views(out@), n) + with_name(ins, n) =~= with_name(out_before, n) + with_name(in_before, n));
                    } else {
                        assert(single =~= Seq::<EntryView>::empty());
                        assert(with_name(entry_views(out@), n) + with_name(ins, n) =~= with_name(out_before, n) + with_name(in_before, n));
                    }
                }
                assert(entry_views(out@) =~= out_before.insert(p as int, ev));
                assert(in_before =~= seq![ev] + entry_views(input@));
                vstd::seq_lib::to_multiset_insert(out_before, p as int, ev);
                assert(entry_views(input@) =~= in_before.remove(0));
                vstd::seq_lib::to_multiset_remove(in_before, 0);
                vstd::seq_lib::to_multiset_contains(in_before, ev);
                assert(in_before.contains(ev)) by {
                    assert(in_before[0] == ev);
                }
                broadcast use vstd::multiset::group_multiset_axioms;
                assert(entry_views(out@).to_multiset().add(entry_views(input@).to_multiset())
                    =~= out_before.to_multiset().add(in_before.to_multiset()));
                let ov = entry_views(out@);
                assert forall|i: int, j: int| 0 <= i < j < ov.len() implies !bytes_lt(
                    encode_utf8(#[trigger] ov[j].name),
                    encode_utf8(#[trigger] ov[i].name),
                ) by {
                    let en = encode_utf8(ev.name);
                    if j < p {
                        assert(ov[i] == out_before[i] && ov[j] == out_before[j]);
                    } else if j == p {
                        assert(ov[i] == out_before[i]);
                        assert(ov[j] == ev);
                    } else if i == p {
                        assert(ov[j] == out_before[j - 1]);
                        assert(ov[i] == ev);
                        let ep = encode_utf8(out_before[p as int].name);
                        let ej = encode_utf8(out_before[j - 1].name);
                        lemma_bytes_lt_total(ep, ej);
                        lemma_bytes_lt_transitive(en, ep, ej);
                        lemma_bytes_lt_asymmetric(en, ej);
                    } else if i < p {
                        assert(ov[i] == out_before[i] && ov[j] == out_before[j - 1]);
                    } else {
                        assert(ov[i] == out_before[i - 1] && ov[j] == out_before[j - 1]);
                    }
                }
            }
        }
        proof {
            assert(entry_views(input@) =~= Seq::<EntryView>::empty());
        }
        out
    }
}

} // verus!
