//! A snapshot of the working directory against the status of the same
//! files: what a snapshot lists, and that a fresh one reports nothing.
use crate::domain::name_map::{lemma_map_of_keys, lemma_map_of_value, map_of};
use crate::domain::status::{blob_id, changed, differs, ignored, seen, status_of, FileState, WorkingFileView};
use crate::domain::tree::{
    entries_map, entry_well_formed, file_entry, file_mode, lemma_tree_object_roundtrip,
    parse_tree_text, skipped_by_snapshot, tree_text, EntryView,
};
use crate::store::object_store::{blob_kind, object_body, object_bytes, tree_kind};
use crate::text::{no_white_space, plain_line};
use vstd::prelude::*;
use vstd::utf8::{decode_utf8, encode_utf8, valid_utf8};

verus! {

/// The entry that a snapshot makes of a working file: a blob of mode
/// `100644` named by the file's blob, for a file that is not left out.
pub open spec fn snapshot_entry_of(f: WorkingFileView, e: EntryView) -> bool {
    !skipped_by_snapshot(f.name) && e == file_entry(f.name, blob_id(f.content.unwrap()))
}

/// The entries that a snapshot makes of the working files, in the order they
/// are listed: every file but `.rgit` and `target`.
pub open spec fn snapshot_list(fs: Seq<WorkingFileView>) -> Seq<EntryView>
    decreases fs.len(),
{
    if fs.len() == 0 {
        seq![]
    } else if skipped_by_snapshot(fs[0].name) {
        snapshot_list(fs.drop_first())
    } else {
        seq![file_entry(fs[0].name, blob_id(fs[0].content.unwrap()))] + snapshot_list(
            fs.drop_first(),
        )
    }
}

/// Some working file makes this entry in a snapshot.
pub open spec fn made_by_snapshot(fs: Seq<WorkingFileView>, e: EntryView) -> bool {
    exists|i: int| 0 <= i < fs.len() && snapshot_entry_of(#[trigger] fs[i], e)
}

proof fn lemma_snapshot_list_contains(fs: Seq<WorkingFileView>, e: EntryView)
    ensures
        snapshot_list(fs).contains(e) <==> made_by_snapshot(fs, e),
    decreases fs.len(),
{
    if fs.len() > 0 {
        let rest = fs.drop_first();
        lemma_snapshot_list_contains(rest, e);
        if snapshot_list(fs).contains(e) {
            if !skipped_by_snapshot(fs[0].name) && e == file_entry(fs[0].name, blob_id(fs[0].content.unwrap())) {
                assert(snapshot_entry_of(fs[0], e));
            } else {
                let k = choose|k: int| 0 <= k < snapshot_list(fs).len() && snapshot_list(fs)[k] == e;
                if skipped_by_snapshot(fs[0].name) {
                    assert(snapshot_list(rest).contains(e));
                } else {
                    assert(k > 0);
                    assert(snapshot_list(rest)[k - 1] == e);
                    assert(snapshot_list(rest).contains(e));
                }
                let i = choose|i: int| 0 <= i < rest.len() && snapshot_entry_of(#[trigger] rest[i], e);
                assert(fs[i + 1] == rest[i]);
            }
        }
        if exists|i: int| 0 <= i < fs.len() && snapshot_entry_of(#[trigger] fs[i], e) {
            let i = choose|i: int| 0 <= i < fs.len() && snapshot_entry_of(#[trigger] fs[i], e);
            if i == 0 {
                assert(snapshot_list(fs)[0] == e);
            } else {
                assert(rest[i - 1] == fs[i]);
                assert(snapshot_list(rest).contains(e));
                let k = choose|k: int| 0 <= k < snapshot_list(rest).len() && snapshot_list(rest)[k] == e;
                if !skipped_by_snapshot(fs[0].name) {
                    assert(snapshot_list(fs)[k + 1] == e);
                }
            }
        }
    }
}

/// A snapshot just taken reports a clean working tree: when every file of
/// the directory (names distinct, none starting with a dot but `.rgit`) is
/// snapshotted into a tree, that tree's bytes read back, and the status of
/// the same files against the names and hashes the tree lists is empty. A
/// file's blob name has 40 hex digits (as `Hash::from_bytes` gives it), and
/// a name holds no line break and does not end with a carriage return, so
/// that it reads back from the tree's text.
pub proof fn lemma_fresh_snapshot_is_clean(fs: Seq<WorkingFileView>, entries: Seq<EntryView>)
    requires
        forall|i: int, j: int|
            0 <= i < j < fs.len() ==> (#[trigger] fs[i]).name != (#[trigger] fs[j]).name,
        forall|i: int|
            0 <= i < fs.len() && ignored((#[trigger] fs[i]).name) ==> skipped_by_snapshot(fs[i].name),
        forall|i: int|
            0 <= i < fs.len() && !skipped_by_snapshot((#[trigger] fs[i]).name) ==> {
                &&& fs[i].content is Some
                &&& blob_id(fs[i].content.unwrap()).len() == 40
                &&& plain_line(fs[i].name)
            },
        entries.to_multiset() == snapshot_list(fs).to_multiset(),
    ensures
        valid_utf8(encode_utf8(tree_text(entries))),
        object_body(object_bytes(tree_kind(), encode_utf8(tree_text(entries)))) == Some(
            encode_utf8(tree_text(entries)),
        ),
        status_of(fs, entries_map(parse_tree_text(decode_utf8(encode_utf8(tree_text(entries))))))
            == Map::<Seq<char>, FileState>::empty(),
{
    broadcast use vstd::seq_lib::group_to_multiset_ensures;

    // Every entry comes from a file of the directory.
    assert forall|k: int| 0 <= k < entries.len() implies made_by_snapshot(fs, #[trigger] entries[k]) by {
        assert(entries.contains(entries[k]));
        assert(entries.to_multiset().count(entries[k]) > 0);
        lemma_snapshot_list_contains(fs, entries[k]);
    }
    assert forall|k: int| 0 <= k < entries.len() implies entry_well_formed(#[trigger] entries[k]) by {
        let i = choose|i: int| 0 <= i < fs.len() && snapshot_entry_of(#[trigger] fs[i], entries[k]);
        let c = fs[i].content.unwrap();
        crate::domain::hash::lemma_hex_lower(crate::domain::hash::sha1_digest(
            object_bytes(blob_kind(), c),
        ));
        assert(no_white_space(file_mode()));
    }
    lemma_tree_object_roundtrip(entries);
    let pairs = entries.map_values(|e: EntryView| (e.name, e.hash));
    let head = entries_map(entries);
    assert(head == map_of(pairs));
    lemma_map_of_keys(pairs);
    // A file that is not left out is in the tree, under its own blob.
    assert forall|i: int| 0 <= i < fs.len() && !ignored((#[trigger] fs[i]).name) implies head.contains_key(
        fs[i].name,
    ) && head[fs[i].name] == blob_id(fs[i].content.unwrap()) by {
        let n = fs[i].name;
        let e = file_entry(n, blob_id(fs[i].content.unwrap()));
        assert(snapshot_entry_of(fs[i], e));
        lemma_snapshot_list_contains(fs, e);
        assert(snapshot_list(fs).to_multiset().count(e) > 0);
        assert(entries.contains(e));
        let k = choose|k: int| 0 <= k < entries.len() && entries[k] == e;
        assert(pairs[k].0 == n);
        assert forall|j: int| 0 <= j < pairs.len() && (#[trigger] pairs[j]).0 == n implies pairs[j].1
            == blob_id(fs[i].content.unwrap()) by {
            let i2 = choose|i2: int| 0 <= i2 < fs.len() && snapshot_entry_of(#[trigger] fs[i2], entries[j]);
            assert(entries[j].name == n);
            if i2 < i {
                assert(fs[i2].name != fs[i].name);
            } else if i < i2 {
                assert(fs[i].name != fs[i2].name);
            }
        }
        lemma_map_of_value(pairs, n, blob_id(fs[i].content.unwrap()));
    }
    let st = status_of(fs, head);
    assert forall|n: Seq<char>| !#[trigger] st.contains_key(n) by {
        if seen(fs, n) {
            let i = choose|i: int| 0 <= i < fs.len() && (#[trigger] fs[i]).name == n && !ignored(n);
            assert(head.contains_key(n));
            if changed(fs, head, n) {
                let j = choose|j: int|
                    0 <= j < fs.len() && (#[trigger] fs[j]).name == n && !ignored(n) && differs(
                        fs[j],
                        head[n],
                    );
                if j < i {
                    assert(fs[j].name != fs[i].name);
                } else if i < j {
                    assert(fs[i].name != fs[j].name);
                }
            }
        } else if head.contains_key(n) {
            let k = choose|k: int| 0 <= k < pairs.len() && pairs[k].0 == n;
            let i = choose|i: int| 0 <= i < fs.len() && snapshot_entry_of(#[trigger] fs[i], entries[k]);
            assert(fs[i].name == n);
            assert(!ignored(n));
            assert(seen(fs, n));
        }
    }
    assert(st =~= Map::<Seq<char>, FileState>::empty());
}

} // verus!
