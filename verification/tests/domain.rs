use rgit::domain::blob::Blob;
use rgit::domain::commit::Commit;
use rgit::domain::name_map::NameMap;
use rgit::domain::status::{calculate_status, is_ignored, FileState, WorkingFile};
use rgit::domain::tree::{ObjectType, Tree, TreeEntry};
use rgit::store::object_store::{decode, encode, object_content};

fn hash(text: &str) -> rgit::domain::hash::Hash {
    rgit::domain::hash::Hash::new(text.to_string())
}

#[test]
fn test_blob_preparation() {
    let data = b"hello";
    let prepared = Blob::prepare(data);
    assert_eq!(prepared, b"blob 5\0hello");
}

#[test]
fn test_hash_fan_out() {
    let hash = rgit::domain::hash::Hash::new("4a2b1c3d".to_string());
    let (prefix, rest) = hash.fan_out();
    assert_eq!(prefix, "4a");
    assert_eq!(rest, "2b1c3d");
}

#[test]
fn test_calculate_status() {
    let content_v1 = b"version 1";
    let blob_hash = rgit::domain::hash::Hash::from_bytes(&Blob::prepare(content_v1));

    let mut head_entries = NameMap::new();
    head_entries.insert("file_a.txt".to_string(), blob_hash);

    let files = vec![
        WorkingFile { name: "file_a.txt".to_string(), content: Some(b"version 2".to_vec()) },
        WorkingFile { name: "file_b.txt".to_string(), content: None },
    ];

    let result = calculate_status(&files, &head_entries);

    assert_eq!(result.changes.get("file_a.txt"), Some(&FileState::Modified));
    assert_eq!(result.changes.get("file_b.txt"), Some(&FileState::Untracked));
}

#[test]
fn status_lists_deleted_and_skips_unchanged_and_hidden() {
    let same = rgit::domain::hash::Hash::from_bytes(&Blob::prepare(b"same"));
    let mut head_entries = NameMap::new();
    head_entries.insert("kept.txt".to_string(), same.duplicate());
    head_entries.insert("gone.txt".to_string(), same.duplicate());
    head_entries.insert(".hidden".to_string(), same.duplicate());
    let files = vec![
        WorkingFile { name: "kept.txt".to_string(), content: Some(b"same".to_vec()) },
        WorkingFile { name: ".hidden".to_string(), content: None },
        WorkingFile { name: "target".to_string(), content: None },
        WorkingFile { name: ".rgit".to_string(), content: None },
    ];
    let result = calculate_status(&files, &head_entries);
    assert_eq!(result.changes.get("kept.txt"), None);
    assert_eq!(result.changes.get("gone.txt"), Some(&FileState::Deleted));
    // A tracked dot-file is left out of the listing of the disk, so it counts as deleted.
    assert_eq!(result.changes.get(".hidden"), Some(&FileState::Deleted));
    assert_eq!(result.changes.get("target"), None);
    assert_eq!(result.changes.len(), 2);
}

#[test]
fn status_of_clean_tree_is_empty() {
    let h = rgit::domain::hash::Hash::from_bytes(&Blob::prepare(b"a"));
    let mut head_entries = NameMap::new();
    head_entries.insert("a.txt".to_string(), h);
    let files = vec![WorkingFile { name: "a.txt".to_string(), content: Some(b"a".to_vec()) }];
    let result = calculate_status(&files, &head_entries);
    assert_eq!(result.changes.len(), 0);
}

#[test]
fn status_counts_unread_tracked_file_as_modified() {
    let h = rgit::domain::hash::Hash::from_bytes(&Blob::prepare(b"a"));
    let mut head_entries = NameMap::new();
    head_entries.insert("a.txt".to_string(), h);
    let files = vec![WorkingFile { name: "a.txt".to_string(), content: None }];
    let result = calculate_status(&files, &head_entries);
    assert_eq!(result.changes.get("a.txt"), Some(&FileState::Modified));
    assert_eq!(result.changes.len(), 1);
}

#[test]
fn ignored_names() {
    assert!(is_ignored(".rgit"));
    assert!(is_ignored("target"));
    assert!(is_ignored(".gitignore"));
    assert!(!is_ignored("targets"));
    assert!(!is_ignored("main.rs"));
    assert!(!is_ignored(""));
}

#[test]
fn blob_hash_matches_git() {
    let h = rgit::domain::hash::Hash::from_bytes(&Blob::prepare(b"hello world"));
    assert_eq!(h.as_str(), "95d09f2b10159347eece71399a7e2e907ea3df4f");
    let empty = rgit::domain::hash::Hash::from_bytes(&Blob::prepare(b""));
    assert_eq!(empty.as_str(), "e69de29bb2d1d6434b8b29ae775ad8c2e48c5391");
}

#[test]
fn blob_content_reads_back() {
    let content = b"a\0b\0c";
    let prepared = Blob::prepare(content);
    assert_eq!(prepared, b"blob 5\0a\0b\0c");
    assert_eq!(object_content(&prepared), Some(content.to_vec()));
    assert_eq!(object_content(b"no header here"), None);
}

#[test]
fn blob_length_is_decimal() {
    let content = vec![7u8; 1234];
    let prepared = Blob::prepare(&content);
    assert!(prepared.starts_with(b"blob 1234\0"));
    assert_eq!(prepared.len(), 10 + 1234);
    assert_eq!(Blob::prepare(b""), b"blob 0\0");
}

#[test]
fn encoded_object_decodes_to_its_bytes() {
    let data = Blob::prepare(b"rust git project");
    let encoded = encode(&data);
    assert_ne!(encoded.compressed, data);
    assert_eq!(decode(&encoded.compressed), Some(data.clone()));
    assert_eq!(encoded.hash.as_str(), rgit::domain::hash::Hash::from_bytes(&data).as_str());
    assert_eq!(decode(b"not zlib"), None);
}

#[test]
fn hash_path_under_root() {
    let h = hash("95d09f2b10159347eece71399a7e2e907ea3df4f");
    assert!(h.can_fan_out());
    assert_eq!(
        h.get_path("/tmp/repo"),
        "/tmp/repo/.rgit/objects/95/d09f2b10159347eece71399a7e2e907ea3df4f"
    );
    assert_eq!(h.get_path(""), ".rgit/objects/95/d09f2b10159347eece71399a7e2e907ea3df4f");
    assert_eq!(
        h.get_path("/tmp/repo/"),
        "/tmp/repo/.rgit/objects/95/d09f2b10159347eece71399a7e2e907ea3df4f"
    );
    assert_eq!(hash("/abc").get_path("/tmp/repo"), "/a/bc");
    assert_eq!(hash("ab/cd").get_path("r"), "/cd");
    assert_eq!(hash("a/cd").get_path("r"), "r/.rgit/objects/a/cd");
    assert_eq!(hash("ab").get_path("r"), "r/.rgit/objects/ab/");
    assert!(!hash("a").can_fan_out());
    assert!(!hash("").can_fan_out());
    assert!(!hash("é").can_fan_out() || hash("é").fan_out().0 == "é");
}

fn entry(mode: &str, otype: ObjectType, h: &str, name: &str) -> TreeEntry {
    TreeEntry { mode: mode.to_string(), otype, hash: hash(h), name: name.to_string() }
}

#[test]
fn tree_prepare_exact_bytes() {
    let entries = vec![
        entry("100644", ObjectType::Blob, "aa", "a.txt"),
        entry("040000", ObjectType::Tree, "bb", "dir"),
    ];
    let data = Tree::prepare(&entries);
    let body = "100644 blob aa\ta.txt\n040000 tree bb\tdir\n";
    let expected = format!("tree {}\0{}", body.len(), body);
    assert_eq!(data, expected.as_bytes());
    assert_eq!(Tree::prepare(&[]), b"tree 0\0");
}

#[test]
fn tree_parse_reads_prepared_entries() {
    let entries = vec![
        entry("100644", ObjectType::Blob, "95d09f2b10159347eece71399a7e2e907ea3df4f", "hello world.txt"),
        entry("040000", ObjectType::Tree, "0123", "sub\tdir"),
    ];
    let data = Tree::prepare(&entries);
    let body = object_content(&data).unwrap();
    let parsed = Tree::parse(&body);
    assert_eq!(parsed.len(), 2);
    for (p, e) in parsed.iter().zip(entries.iter()) {
        assert_eq!(p.mode, e.mode);
        assert_eq!(p.otype, e.otype);
        assert_eq!(p.hash.as_str(), e.hash.as_str());
        assert_eq!(p.name, e.name);
    }
}

#[test]
fn tree_parse_skips_malformed_lines() {
    let text = b"\n100644 blob h1\tok\r\nno tab here\n1 2\tx\n1 2 3 4\ty\n  7   link   h2 \tspaced\nlast weird zz\tend";
    let parsed = Tree::parse(text);
    assert_eq!(parsed.len(), 3);
    assert_eq!(parsed[0].name, "ok");
    assert_eq!(parsed[0].otype, ObjectType::Blob);
    assert_eq!(parsed[1].mode, "7");
    assert_eq!(parsed[1].otype, ObjectType::Tree);
    assert_eq!(parsed[1].hash.as_str(), "h2");
    assert_eq!(parsed[1].name, "spaced");
    assert_eq!(parsed[2].name, "end");
}

#[test]
fn tree_entries_map_later_entry_wins() {
    let text = b"tree 0\0100644 blob h1\ta\n100644 blob h2\tb\n100644 blob h3\ta\n";
    let map = Tree::get_entries_map(text);
    assert_eq!(map.len(), 2);
    assert_eq!(map.get("a").unwrap().as_str(), "h3");
    assert_eq!(map.get("b").unwrap().as_str(), "h2");
    assert!(map.get("c").is_none());
}

#[test]
fn tree_sort_by_name_bytes() {
    let entries = vec![
        entry("1", ObjectType::Blob, "h", "b.txt"),
        entry("1", ObjectType::Blob, "h", "B.txt"),
        entry("1", ObjectType::Blob, "h", "a"),
        entry("1", ObjectType::Blob, "h", "ab"),
        entry("1", ObjectType::Blob, "h", "é"),
    ];
    let sorted = Tree::sort_entries(entries);
    let names: Vec<&str> = sorted.iter().map(|e| e.name.as_str()).collect();
    assert_eq!(names, vec!["B.txt", "a", "ab", "b.txt", "é"]);
}

#[test]
fn tree_snapshot_entries_are_sorted_blob_files() {
    let files = vec![
        ("z.txt".to_string(), hash("h1")),
        ("a.txt".to_string(), hash("h2")),
        ("m.txt".to_string(), hash("h3")),
    ];
    let entries = Tree::snapshot_entries(&files);
    assert_eq!(entries.len(), 3);
    let names: Vec<&str> = entries.iter().map(|e| e.name.as_str()).collect();
    assert_eq!(names, vec!["a.txt", "m.txt", "z.txt"]);
    let hashes: Vec<&str> = entries.iter().map(|e| e.hash.as_str()).collect();
    assert_eq!(hashes, vec!["h2", "h3", "h1"]);
    for e in &entries {
        assert_eq!(e.mode, "100644");
        assert!(e.otype == ObjectType::Blob);
    }
    let data = Tree::prepare(&entries);
    assert_eq!(
        data,
        b"tree 63\0100644 blob h2\ta.txt\n100644 blob h3\tm.txt\n100644 blob h1\tz.txt\n".to_vec()
    );
}

#[test]
fn tree_snapshot_skips() {
    assert!(Tree::snapshot_skips(".rgit"));
    assert!(Tree::snapshot_skips("target"));
    assert!(!Tree::snapshot_skips(".gitignore"));
    assert!(!Tree::snapshot_skips("src"));
}

#[test]
fn object_type_words() {
    assert_eq!(ObjectType::Blob.as_str(), "blob");
    assert_eq!(ObjectType::Tree.as_str(), "tree");
}

fn commit(parent: Option<&str>, author: &str, message: &str) -> Commit {
    Commit {
        tree_hash: hash("95d09f2b10159347eece71399a7e2e907ea3df4f"),
        parent_hash: parent.map(hash),
        author: author.to_string(),
        message: message.to_string(),
    }
}

#[test]
fn commit_prepare_exact_bytes() {
    let c = commit(Some("abcd"), "A <a@b>", "msg");
    let body = "tree 95d09f2b10159347eece71399a7e2e907ea3df4f\nparent abcd\nauthor A <a@b>\n\nmsg\n";
    let expected = format!("commit {}\0{}", body.len(), body);
    assert_eq!(c.prepare(), expected.as_bytes());
}

#[test]
fn commit_parse_reads_prepared_body() {
    for c in [commit(None, "Dev <dev@rgit.com>", "First snapshot"), commit(Some("ff00"), "", "two\nlines\n")] {
        let data = c.prepare();
        let body = object_content(&data).unwrap();
        let parsed = Commit::parse(&body);
        assert_eq!(parsed.tree_hash.as_str(), c.tree_hash.as_str());
        assert_eq!(parsed.parent_hash.as_ref().map(|h| h.as_str()), c.parent_hash.as_ref().map(|h| h.as_str()));
        assert_eq!(parsed.author, c.author);
        assert_eq!(parsed.message, c.message);
    }
}

#[test]
fn commit_parse_of_whole_object_loses_tree() {
    // The header shares the first line with `tree ...`, so that line is not read as a tree line.
    let c = commit(Some("abcd"), "A", "m");
    let parsed = Commit::parse(&c.prepare());
    assert_eq!(parsed.tree_hash.as_str(), "");
    assert_eq!(parsed.parent_hash.unwrap().as_str(), "abcd");
    assert_eq!(parsed.author, "A");
    assert_eq!(parsed.message, "m");
}

#[test]
fn commit_try_parse_rejects_field_without_value() {
    assert!(Commit::try_parse(b"tree\nauthor x\n\nm\n").is_none());
    assert!(Commit::try_parse(b"author\n").is_none());
    let ok = Commit::try_parse(b"treehouse\nauthor x y\nparent p\n\nm1\r\nm2").unwrap();
    assert_eq!(ok.tree_hash.as_str(), "");
    assert_eq!(ok.author, "x y");
    assert_eq!(ok.parent_hash.unwrap().as_str(), "p");
    assert_eq!(ok.message, "m1\nm2");
    // After the blank line nothing is a header any more.
    assert!(Commit::try_parse(b"author a\n\ntree\n").is_some());
}

#[test]
fn name_map_insert_replaces() {
    let mut m = NameMap::new();
    m.insert("x".to_string(), FileState::Modified);
    m.insert("y".to_string(), FileState::Untracked);
    m.insert("x".to_string(), FileState::Deleted);
    assert_eq!(m.len(), 2);
    assert_eq!(m.get("x"), Some(&FileState::Deleted));
    assert!(m.contains_key("y"));
    assert!(!m.contains_key("z"));
    assert_eq!(m.entries()[0].0, "x");
    m.insert("a".to_string(), FileState::Untracked);
    let names: Vec<&str> = m.entries().iter().map(|e| e.0.as_str()).collect();
    assert_eq!(names, vec!["x", "y", "a"]);
    assert_eq!(m.entries()[0].1, FileState::Deleted);
}

#[test]
fn tree_parse_replaces_invalid_utf8() {
    let parsed = Tree::parse(b"100644 blob h\t\xffname\n");
    assert_eq!(parsed.len(), 1);
    assert_eq!(parsed[0].name, "\u{fffd}name");
}

#[test]
fn hashes_compare_by_text() {
    assert!(hash("ab12") == hash("ab12"));
    assert!(hash("ab12") != hash("ab13"));
    let h = hash("ab12");
    assert!(h.duplicate() == h);
}

#[test]
fn hash_path_matches_path_join() {
    let roots = ["", "/", "r", "r/", "/tmp/repo", "/tmp/repo/", "a//"];
    let names = ["95d09f2b10159347eece71399a7e2e907ea3df4f", "/abc", "ab/cd", "a/cd", "ab", "//x", "é/z"];
    for root in roots {
        for name in names {
            let h = hash(name);
            let (prefix, rest) = h.fan_out();
            let expected = std::path::Path::new(root).join(".rgit/objects").join(prefix).join(rest);
            assert_eq!(h.get_path(root), expected.to_str().unwrap(), "root {:?} name {:?}", root, name);
        }
    }
}

#[test]
fn snapshot_ignores_listing_order() {
    let blob = |c: &[u8]| rgit::domain::hash::Hash::from_bytes(&Blob::prepare(c));
    let one = vec![
        ("b.txt".to_string(), blob(b"b")),
        ("a.txt".to_string(), blob(b"a")),
        ("c.txt".to_string(), blob(b"c")),
    ];
    let two = vec![
        ("c.txt".to_string(), blob(b"c")),
        ("b.txt".to_string(), blob(b"b")),
        ("a.txt".to_string(), blob(b"a")),
    ];
    let t1 = Tree::prepare(&Tree::snapshot_entries(&one));
    let t2 = Tree::prepare(&Tree::snapshot_entries(&two));
    assert_eq!(t1, t2);
    assert_eq!(encode(&t1).hash.as_str(), encode(&t2).hash.as_str());
}

#[test]
fn fresh_snapshot_reports_clean_status() {
    let disk: Vec<(&str, &[u8])> = vec![("main.rs", b"fn main() {}"), ("README", b"hi"), ("target", b""), (".rgit", b"")];
    let mut snap = Vec::new();
    for (name, content) in &disk {
        if !Tree::snapshot_skips(name) {
            snap.push((name.to_string(), rgit::domain::hash::Hash::from_bytes(&Blob::prepare(content))));
        }
    }
    let tree = Tree::prepare(&Tree::snapshot_entries(&snap));
    let stored = encode(&tree);
    let read = decode(&stored.compressed).unwrap();
    let head = Tree::get_entries_map(&read);
    assert_eq!(head.len(), 2);
    let files: Vec<WorkingFile> = disk
        .iter()
        .map(|(name, content)| WorkingFile {
            name: name.to_string(),
            content: if head.contains_key(name) { Some(content.to_vec()) } else { None },
        })
        .collect();
    let result = calculate_status(&files, &head);
    assert_eq!(result.changes.len(), 0);
}
