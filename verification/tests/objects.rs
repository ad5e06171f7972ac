use rgit::objects::{get_object_path, hash_blob, hash_data, prepare_commit, prepare_tree, Commit, ObjectType, TreeEntry};
use rgit::store::object_store::{decode, encode, object_content, read_content, ObjectError};
use rgit::store::repo::Repo;

#[test]
fn test_blob_hashing() {
    let content = "hello world";
    let expected_hash = "95d09f2b10159347eece71399a7e2e907ea3df4f";

    let hash = hash_blob(content.as_bytes());
    assert_eq!(hash, expected_hash);
}

#[test]
fn test_object_storage_path() {
    let hash = "95d09f2b10159347eece71399a7e2e907ea3df4f";
    let (dir, file) = get_object_path(hash);

    assert_eq!(dir, "95");
    assert_eq!(file, "d09f2b10159347eece71399a7e2e907ea3df4f")
}

#[test]
fn test_write_and_read_blob() {
    let content = b"hello world";
    let data = rgit::domain::blob::Blob::prepare(content);
    let stored = encode(&data);
    assert_eq!(stored.hash.as_str(), "95d09f2b10159347eece71399a7e2e907ea3df4f");
}

#[test]
fn test_read_blob_content() {
    let original_content = b"rust git project";
    let stored = encode(&rgit::domain::blob::Blob::prepare(original_content));
    let full = decode(&stored.compressed).expect("Failed to read blob");
    let read_result = object_content(&full).expect("Failed to read blob");
    assert_eq!(read_result, original_content);
}

#[test]
fn test_tree_formatting() {
    let entries = vec![TreeEntry {
        mode: "100644".to_string(),
        otype: ObjectType::Blob,
        hash: rgit::objects::Hash::new("95d09f2b10159347eece71399a7e2e907ea3df4f".to_string()),
        name: "hello.txt".to_string(),
    }];

    let tree_data = prepare_tree(&entries);

    assert!(tree_data.starts_with(b"tree"));
    assert!(tree_data.windows(9).any(|w| w == b"hello.txt"));
}

#[test]
fn test_tree_with_multiple_blobs() {
    let hash_a = encode(&rgit::domain::blob::Blob::prepare(b"content of a")).hash;
    let hash_b = encode(&rgit::domain::blob::Blob::prepare(b"content of b")).hash;

    let entries = vec![
        TreeEntry { mode: "100644".to_string(), otype: ObjectType::Blob, hash: hash_a, name: "a.txt".to_string() },
        TreeEntry { mode: "100644".to_string(), otype: ObjectType::Blob, hash: hash_b, name: "b.txt".to_string() },
    ];

    let tree_data = prepare_tree(&entries);
    let tree_hash = encode(&tree_data).hash;

    let (prefix, rest) = tree_hash.fan_out();
    assert_eq!(prefix.len(), 2);
    assert_eq!(rest.len(), 38);
    assert_ne!(tree_hash.as_str(), "95d09f2b10159347eece71399a7e2e907ea3df4f");
}

#[test]
fn test_commit_formatting() {
    let tree_hash = rgit::objects::Hash::new("95d09f2b10159347eece71399a7e2e907ea3df4f".to_string());

    let commit = Commit {
        tree_hash,
        parent_hash: None,
        author: "Giovani <gio@example.com>".to_string(),
        message: "Initial commit".to_string(),
    };

    let commit_data = prepare_commit(&commit);

    assert!(commit_data.starts_with(b"commit"));
    assert!(commit_data.windows(14).any(|w| w == b"Initial commit"));
}

#[test]
fn test_full_git_flow() {
    let blob_hash = encode(&rgit::domain::blob::Blob::prepare(b"hello rust")).hash;

    let entries = vec![TreeEntry {
        mode: "100644".to_string(),
        otype: ObjectType::Blob,
        hash: blob_hash,
        name: "main.rs".to_string(),
    }];
    let tree_data = prepare_tree(&entries);
    let tree_hash = encode(&tree_data).hash;

    let commit = Commit {
        tree_hash,
        parent_hash: None,
        author: "Developer <dev@rgit.com>".to_string(),
        message: "First snapshot".to_string(),
    };
    let commit_data = prepare_commit(&commit);
    let commit_hash = encode(&commit_data).hash;

    assert_eq!(commit_hash.as_str().len(), 40);
    assert_eq!(decode(&encode(&commit_data).compressed), Some(commit_data));
}

#[test]
fn hash_data_of_prepared_blob_is_hash_blob() {
    let data = rgit::domain::blob::Blob::prepare(b"abc");
    assert_eq!(hash_data(&data).as_str(), hash_blob(b"abc"));
}

#[test]
fn object_path_of_short_or_wide_text() {
    let (d, f) = get_object_path("ab");
    assert_eq!((d.as_str(), f.as_str()), ("ab", ""));
    let (d, f) = get_object_path("éx");
    assert_eq!((d.as_str(), f.as_str()), ("é", "x"));
}

#[test]
fn head_reference_round_trip() {
    let h = rgit::objects::Hash::new("95d09f2b10159347eece71399a7e2e907ea3df4f".to_string());
    let contents = Repo::ref_contents(&h);
    assert_eq!(contents, "95d09f2b10159347eece71399a7e2e907ea3df4f\n");
    assert_eq!(Repo::head_from_ref(&contents), h.as_str());
    assert_eq!(Repo::head_from_ref(" \t abc \r\n"), "abc");
    assert_eq!(Repo::head_from_ref("\u{a0}x y\u{3000}"), "x y");
    assert_eq!(Repo::new(".").root, ".");
}

#[test]
fn head_reference_trims_as_str_trim() {
    for u in 0u32..0x3100 {
        if let Some(c) = char::from_u32(u) {
            let text = format!("{c}x{c}");
            assert_eq!(Repo::head_from_ref(&text), text.trim(), "code point {:#x}", u);
        }
    }
}

#[test]
fn stored_object_content_and_its_errors() {
    let stored = encode(&rgit::domain::blob::Blob::prepare(b"rust git project")).compressed;
    assert_eq!(read_content(&stored), Ok(b"rust git project".to_vec()));
    let headerless = encode(b"no terminator here").compressed;
    assert_eq!(read_content(&headerless), Err(ObjectError::MissingNullTerminator));
    assert_eq!(read_content(b"not zlib"), Err(ObjectError::CorruptStream));
}

#[test]
fn prepare_blob_frames_content() {
    assert_eq!(rgit::objects::prepare_blob(b"abc"), b"blob 3\0abc".to_vec());
    assert_eq!(rgit::objects::prepare_blob(b"abc"), rgit::domain::blob::Blob::prepare(b"abc"));
}
