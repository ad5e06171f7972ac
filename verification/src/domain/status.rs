//! The state of the working directory against the last commit's tree.
use crate::domain::blob::Blob;
use crate::domain::hash::object_id;
use crate::domain::name_map::NameMap;
use crate::store::object_store::{blob_kind, object_bytes};
use crate::text::{chars_of, str_eq};
use vstd::prelude::*;

verus! {

/// How a file differs from the last commit.
#[derive(Debug, Clone, Copy, PartialEq, Eq, Structural)]
pub enum FileState {
    Modified,
    Untracked,
    Deleted,
}

impl View for FileState {
    type V = FileState;

    open spec fn view(&self) -> FileState {
        *self
    }
}

/// The changes, by file name.
pub struct StatusResult {
    pub changes: NameMap<FileState>,
}

/// A file found in the working directory: its name and, when the last
/// commit tracks that name, its bytes as they are now (`None` when they were
/// not read).
pub struct WorkingFile {
    pub name: String,
    pub content: Option<Vec<u8>>,
}

/// A working file's name and bytes.
pub struct WorkingFileView {
    pub name: Seq<char>,
    pub content: Option<Seq<u8>>,
}

impl View for WorkingFile {
    type V = WorkingFileView;

    open spec fn view(&self) -> WorkingFileView {
        WorkingFileView {
            name: self.name@,
            content: match self.content {
                Some(c) => Some(c@),
                None => None,
            },
        }
    }
}

/// The name of the blob object holding `content`.
pub open spec fn blob_id(content: Seq<u8>) -> Seq<char> {
    object_id(object_bytes(blob_kind(), content))
}

/// The file's bytes do not make the committed blob: their blob has another
/// name, or they were not read.
pub open spec fn differs(f: WorkingFileView, committed: Seq<char>) -> bool {
    match f.content {
        Some(c) => blob_id(c) != committed,
        None => true,
    }
}

/// The views of the working files.
pub open spec fn file_views(fs: Seq<WorkingFile>) -> Seq<WorkingFileView> {
    fs.map_values(|f: WorkingFile| f@)
}

/// Names that the status leaves out: `.rgit`, `target` and every name that
/// starts with a dot.
pub open spec fn ignored(name: Seq<char>) -> bool {
    ||| name == seq!['.', 'r', 'g', 'i', 't']
    ||| name == seq!['t', 'a', 'r', 'g', 'e', 't']
    ||| (name.len() > 0 && name[0] == '.')
}

/// Some file of the working directory has this name and is not left out.
pub open spec fn seen(fs: Seq<WorkingFileView>, name: Seq<char>) -> bool {
    exists|i: int| 0 <= i < fs.len() && (#[trigger] fs[i]).name == name && !ignored(name)
}

/// Some file of that name, not left out, differs from the committed blob.
pub open spec fn changed(fs: Seq<WorkingFileView>, head: Map<Seq<char>, Seq<char>>, name: Seq<char>) -> bool {
    exists|i: int|
        0 <= i < fs.len() && (#[trigger] fs[i]).name == name && !ignored(name) && differs(fs[i], head[name])
}

/// The status: a file on disk and not in the commit is untracked; a file
/// in both whose blob has another name than the committed one is modified; a file of the commit that is not
/// on disk (or is left out) is deleted. Nothing else is listed.
pub open spec fn status_of(fs: Seq<WorkingFileView>, head: Map<Seq<char>, Seq<char>>) -> Map<
    Seq<char>,
    FileState,
> {
    Map::new(
        |n: Seq<char>|
            (seen(fs, n) && (!head.contains_key(n) || changed(fs, head, n))) || (head.contains_key(n)
                && !seen(fs, n)),
        |n: Seq<char>|
            if !head.contains_key(n) {
                FileState::Untracked
            } else if seen(fs, n) {
                FileState::Modified
            } else {
                FileState::Deleted
            },
    )
}

/// Whether the status leaves out a file of this name.
pub fn is_ignored(name: &str) -> (res: bool)
    ensures
        res == ignored(name@),
{
    proof {
        reveal_strlit(".rgit");
        reveal_strlit("target");
        assert(".rgit"@ =~= seq!['.', 'r', 'g', 'i', 't']);
        assert("target"@ =~= seq!['t', 'a', 'r', 'g', 'e', 't']);
    }
    if str_eq(name, ".rgit") || str_eq(name, "target") {
        return true;
    }
    let cs = chars_of(name);
    cs.len() > 0 && cs[0] == '.'
}

/// Whether some working file, not left out, has this name.
fn seen_on_disk(files: &[WorkingFile], name: &String) -> (res: bool)
    ensures
        res == seen(file_views(files@), name@),
{
    let ghost fs = file_views(files@);
    if is_ignored(name.as_str()) {
        return false;
    }
    let n = files.len();
    let mut i: usize = 0;
    while i < n
        invariant
            n == files@.len(),
            fs == file_views(files@),
            i <= n,
            !ignored(name@),
            forall|j: int| 0 <= j < i ==> fs[j].name != name@,
        decreases n - i,
    {
        if files[i].name == *name {
            proof {
                assert(fs[i as int] == files@[i as int]@);
            }
            return true;
        }
        proof {
            assert(fs[i as int] == files@[i as int]@);
        }
        i = i + 1;
    }
    false
}

/// The disk part of the status for the files so far: untracked and modified
/// files.
spec fn disk_status(fs: Seq<WorkingFileView>, head: Map<Seq<char>, Seq<char>>) -> Map<Seq<char>, FileState> {
    Map::new(
        |n: Seq<char>| seen(fs, n) && (!head.contains_key(n) || changed(fs, head, n)),
        |n: Seq<char>|
            if !head.contains_key(n) {
                FileState::Untracked
            } else {
                FileState::Modified
            },
    )
}

/// The status of the working files against the committed names and hashes.
/// A tracked file is compared by the name of the blob its bytes make; one
/// given without its bytes counts as changed.
pub fn calculate_status(
    files: &[WorkingFile],
    head_entries: &NameMap<crate::domain::hash::Hash>,
) -> (res: StatusResult)
    ensures
        res.changes@ == status_of(file_views(files@), head_entries@),
{
    let ghost fs = file_views(files@);
    let ghost head = head_entries@;
    let mut changes: NameMap<FileState> = NameMap::new();
    let n = files.len();
    let mut i: usize = 0;
    proof {
        assert(changes@ =~= disk_status(fs.take(0), head));
    }
    while i < n
        invariant
            n == files@.len(),
            fs == file_views(files@),
            head == head_entries@,
            i <= n,
            changes@ == disk_status(fs.take(i as int), head),
        decreases n - i,
    {
        let f = &files[i];
        let ghost before = fs.take(i as int);
        let ghost after = fs.take(i + 1);
        let ghost fv = f@;
        proof {
            assert(fs[i as int] == fv);
            assert(after =~= before.push(fv));
            assert forall|m: Seq<char>| seen(after, m) == (seen(before, m) || (m == fv.name && !ignored(m))) by {
                if seen(after, m) {
                    let j = choose|j: int| 0 <= j < after.len() && (#[trigger] after[j]).name == m && !ignored(m);
                    if j < before.len() {
                        assert(before[j] == after[j]);
                    }
                }
                if seen(before, m) {
                    let j = choose|j: int| 0 <= j < before.len() && (#[trigger] before[j]).name == m && !ignored(m);
                    assert(after[j] == before[j]);
                }
                if m == fv.name && !ignored(m) {
                    assert(after[i as int] == fv);
                }
            }
            assert forall|m: Seq<char>| changed(after, head, m) == (changed(before, head, m) || (m == fv.name
                && !ignored(m) && differs(fv, head[m]))) by {
                if changed(after, head, m) {
                    let j = choose|j: int| 0 <= j < after.len() && (#[trigger] after[j]).name == m && !ignored(m) && differs(after[j], head[m]);
                    if j < before.len() {
                        assert(before[j] == after[j]);
                    }
                }
                if changed(before, head, m) {
                    let j = choose|j: int| 0 <= j < before.len() && (#[trigger] before[j]).name == m && !ignored(m) && differs(before[j], head[m]);
                    assert(after[j] == before[j]);
                }
                if m == fv.name && !ignored(m) && differs(fv, head[m]) {
                    assert(after[i as int] == fv);
                }
            }
        }
        if !is_ignored(f.name.as_str()) {
            match head_entries.get(f.name.as_str()) {
                Some(last) => {
                    let is_changed = match &f.content {
                        Some(bytes) => {
                            let now = crate::domain::hash::Hash::from_bytes(Blob::prepare(bytes.as_slice()).as_slice());
                            !str_eq(now.as_str(), last.as_str())
                        },
                        None => true,
                    };
                    if is_changed {
                        changes.insert(f.name.clone(), FileState::Modified);
                        proof {
                            assert(changes@ =~= disk_status(after, head));
                        }
                    } else {
                        proof {
                            assert(changes@ =~= disk_status(after, head));
                        }
                    }
                },
                None => {
                    changes.insert(f.name.clone(), FileState::Untracked);
                    proof {
                        assert(changes@ =~= disk_status(after, head));
                    }
                },
            }
        } else {
            proof {
                assert(changes@ =~= disk_status(after, head));
            }
        }
        i = i + 1;
    }
    proof {
        assert(fs.take(n as int) =~= fs);
    }
    let entries = head_entries.entries();
    let m = entries.len();
    let mut j: usize = 0;
    while j < m
        invariant
            n == files@.len(),
            fs == file_views(files@),
            head == head_entries@,
            m == entries@.len(),
            entries@.len() == head.len(),
            forall|a: int| 0 <= a < entries@.len() ==> #[trigger] head.contains_key(entries@[a].0@)
                && head[entries@[a].0@] == entries@[a].1@,
            j <= m,
            changes@ == Map::new(
                |k: Seq<char>|
                    disk_status(fs, head).contains_key(k) || (head.contains_key(k) && !seen(fs, k)
                        && exists|a: int| 0 <= a < j && (#[trigger] entries@[a]).0@ == k),
                |k: Seq<char>|
                    if !head.contains_key(k) {
                        FileState::Untracked
                    } else if seen(fs, k) {
                        FileState::Modified
                    } else {
                        FileState::Deleted
                    },
            ),
        decreases m - j,
    {
        let name = &entries[j].0;
        let ghost before_map = changes@;
        if !seen_on_disk(files, name) {
            changes.insert(name.clone(), FileState::Deleted);
        }
        proof {
            assert(head.contains_key(entries@[j as int].0@));
            let target = Map::new(
                |k: Seq<char>|
                    disk_status(fs, head).contains_key(k) || (head.contains_key(k) && !seen(fs, k)
                        && exists|a: int| 0 <= a < j + 1 && (#[trigger] entries@[a]).0@ == k),
                |k: Seq<char>|
                    if !head.contains_key(k) {
                        FileState::Untracked
                    } else if seen(fs, k) {
                        FileState::Modified
                    } else {
                        FileState::Deleted
                    },
            );
            assert forall|k: Seq<char>| #[trigger] target.contains_key(k) == changes@.contains_key(k) by {
                if exists|a: int| 0 <= a < j + 1 && (#[trigger] entries@[a]).0@ == k {
                    let a = choose|a: int| 0 <= a < j + 1 && (#[trigger] entries@[a]).0@ == k;
                    if a < j {
                        assert(exists|b: int| 0 <= b < j && (#[trigger] entries@[b]).0@ == k);
                    }
                }
                if exists|a: int| 0 <= a < j && (#[trigger] entries@[a]).0@ == k {
                    let a = choose|a: int| 0 <= a < j && (#[trigger] entries@[a]).0@ == k;
                    assert(exists|b: int| 0 <= b < j + 1 && (#[trigger] entries@[b]).0@ == k);
                }
                if k == entries@[j as int].0@ {
                    assert(exists|b: int| 0 <= b < j + 1 && (#[trigger] entries@[b]).0@ == k);
                }
            }
            assert(changes@ =~= target);
        }
        j = j + 1;
    }
    proof {
        let fin = status_of(fs, head);
        assert forall|k: Seq<char>| #[trigger] fin.contains_key(k) == changes@.contains_key(k) by {
            if head.contains_key(k) && !seen(fs, k) {
                let a = choose|a: int| 0 <= a < entries@.len() && entries@[a].0@ == k;
                assert(exists|b: int| 0 <= b < m && (#[trigger] entries@[b]).0@ == k);
            }
        }
        assert(changes@ =~= fin);
    }
    StatusResult { changes }
}

} // verus!
