use minigit::error::GitError;
use minigit::mode::{BlobType, Mode};
use minigit::object::{GitObject, ObjectType, TreeEntry};

fn hash_of(hex: &str) -> minigit::hash::Hash {
    minigit::hash::Hash::from_str(hex).unwrap()
}

fn entry(mode: Mode, name: &str, hex: &str) -> TreeEntry {
    TreeEntry { file_type: mode, name: name.to_string(), hash: hash_of(hex) }
}

const H1: &str = "78981922613b2afb6025042ff6bd878ac1994e85";
const H2: &str = "61780798228d17af2d34fce4cfbdf35556832472";

#[test]
fn canonical_form_round_trips() {
    for kind in [ObjectType::Blob, ObjectType::Tree, ObjectType::Commit] {
        let object = GitObject::new(kind, b"some\0body".to_vec());
        let bytes = object.to_canonical();
        let back = GitObject::from_canonical(&bytes).unwrap();
        assert_eq!(back, object);
    }
    let blob = GitObject::new(ObjectType::Blob, b"hello\n".to_vec());
    assert_eq!(blob.to_canonical(), b"blob 6\0hello\n".to_vec());
    assert_eq!(blob.size(), 6);
}

#[test]
fn corrupt_canonical_forms_are_rejected() {
    assert_eq!(GitObject::from_canonical(b"blob 5\0hello\n"), Err(GitError::CorruptObject));
    assert_eq!(GitObject::from_canonical(b"blob 6hello\n"), Err(GitError::CorruptObject));
    assert_eq!(GitObject::from_canonical(b"blub 6\0hello\n"), Err(GitError::CorruptObject));
    assert_eq!(GitObject::from_canonical(b"blob6\0hello\n"), Err(GitError::CorruptObject));
    assert_eq!(GitObject::from_canonical(b"blob x\0hello\n"), Err(GitError::CorruptObject));
}

#[test]
fn blob_hash_is_git_hash() {
    let blob = GitObject::new(ObjectType::Blob, b"hello\n".to_vec());
    assert_eq!(blob.hash().to_string(), "ce013625030ba8dba906f756967f9e9ca394464a");
}

#[test]
fn on_disk_form_round_trips() {
    let blob = GitObject::new(ObjectType::Blob, b"hello\n".to_vec());
    let raw = blob.to_raw().unwrap();
    assert_ne!(raw, blob.to_canonical());
    assert_eq!(minigit::zip::decompress(&raw).unwrap(), blob.to_canonical());
    assert_eq!(GitObject::from_raw(&raw).unwrap(), blob);
    assert_eq!(GitObject::from_raw(b"junk"), Err(GitError::CorruptObject));
}

#[test]
fn cat_file_views_of_a_blob() {
    let content = b"line one\nline two\n".to_vec();
    let blob = GitObject::new(ObjectType::Blob, content.clone());
    let raw = blob.to_raw().unwrap();
    let read = GitObject::from_raw(&raw).unwrap();
    assert_eq!(read.parse_blob_body().unwrap().as_bytes(), content.as_slice());
    assert_eq!(read.type_.to_string(), "blob");
    assert_eq!(read.size(), content.len());
    let tree = GitObject::new(ObjectType::Tree, Vec::new());
    assert_eq!(tree.parse_blob_body(), Err(GitError::WrongObjectKind));
    let binary = GitObject::new(ObjectType::Blob, vec![0xff, 0xfe]);
    assert_eq!(binary.parse_blob_body(), Err(GitError::NotText));
}

#[test]
fn empty_tree_has_the_canonical_hash() {
    let tree = GitObject::new_tree(&[]);
    assert_eq!(tree.hash().to_string(), "4b825dc642cb6eb9a060e54bf8d69288fbee4904");
}

#[test]
fn tree_body_layout_and_order() {
    let sub = GitObject::new_tree(&[entry(Mode::Blob(BlobType::Plain), "b.txt", H2)]);
    let sub_hash = sub.hash();
    assert_eq!(sub_hash.to_string(), "f8f7aefc2900a3d737cea9eee45729fd55761e1a");
    let root = GitObject::new_tree(&[
        TreeEntry { file_type: Mode::Tree, name: "dir".to_string(), hash: sub_hash },
        entry(Mode::Blob(BlobType::Plain), "a.txt", H1),
    ]);
    let mut expected = b"100644 a.txt\0".to_vec();
    expected.extend_from_slice(&hash_of(H1).to_raw());
    expected.extend_from_slice(b"40000 dir\0");
    expected.extend_from_slice(&sub_hash.to_raw());
    assert_eq!(root.body, expected);
    assert_eq!(root.hash().to_string(), "c07af3bcce4a6a54ca4f9b3b97cc8189d0176bfd");
}

#[test]
fn directories_sort_as_if_slash_terminated() {
    let tree = GitObject::new_tree(&[
        TreeEntry { file_type: Mode::Tree, name: "a".to_string(), hash: hash_of(H1) },
        entry(Mode::Blob(BlobType::Plain), "a.txt", H1),
        entry(Mode::Blob(BlobType::Executable), "a-b", H2),
    ]);
    let names: Vec<String> = tree.parse_tree_body().unwrap().into_iter().map(|e| e.name).collect();
    assert_eq!(names, vec!["a-b", "a.txt", "a"]);
}

#[test]
fn tree_body_parses_back() {
    let entries = vec![
        entry(Mode::Blob(BlobType::Plain), "a.txt", H1),
        entry(Mode::Blob(BlobType::Symlink), "link", H2),
        TreeEntry { file_type: Mode::Tree, name: "sub".to_string(), hash: hash_of(H2) },
    ];
    let tree = GitObject::new_tree(&entries);
    assert_eq!(tree.parse_tree_body().unwrap(), entries);
    let lines: Vec<String> = entries.iter().map(|e| e.to_string()).collect();
    assert_eq!(lines[0], format!("100644 blob {}\ta.txt", H1));
    assert_eq!(lines[2], format!("040000 tree {}\tsub", H2));
}

#[test]
fn malformed_tree_bodies_are_rejected() {
    let blob = GitObject::new(ObjectType::Blob, Vec::new());
    assert_eq!(blob.parse_tree_body(), Err(GitError::WrongObjectKind));
    let short = GitObject::new(ObjectType::Tree, b"100644 a\0abc".to_vec());
    assert_eq!(short.parse_tree_body(), Err(GitError::CorruptObject));
    let mut bad_mode = b"100600 a\0".to_vec();
    bad_mode.extend_from_slice(&[0u8; 20]);
    let bad = GitObject::new(ObjectType::Tree, bad_mode);
    assert_eq!(bad.parse_tree_body(), Err(GitError::CorruptObject));
}

#[test]
fn modes_read_and_write() {
    assert_eq!(Mode::from_str("40000"), Ok(Mode::Tree));
    assert_eq!(Mode::from_str("100755"), Ok(Mode::Blob(BlobType::Executable)));
    assert_eq!(Mode::from_str("100600"), Err(GitError::InvalidMode));
    assert_eq!(Mode::from_u32(0o120000), Ok(Mode::Blob(BlobType::Symlink)));
    assert_eq!(Mode::from_u32(0o100600), Err(GitError::InvalidMode));
    assert_eq!(Mode::Blob(BlobType::Plain).to_u32(), 0o100644);
    assert_eq!(Mode::Tree.to_string(), "40000");
    assert_eq!(Mode::Tree.to_format_with_name(), "040000 tree");
    assert_eq!(Mode::Blob(BlobType::Plain).to_format_with_name(), "100644 blob");
    assert_eq!(Mode::from_file_metadata(false, 0o755), Ok(Mode::Blob(BlobType::Executable)));
    assert_eq!(Mode::from_file_metadata(false, 0o644), Ok(Mode::Blob(BlobType::Plain)));
    assert!(Mode::from_file_metadata(true, 0o755).is_err());
    assert_eq!(ObjectType::from_str("commit"), Ok(ObjectType::Commit));
    assert_eq!(ObjectType::from_str("tag"), Err(GitError::InvalidObjectKind));
}

#[test]
fn entry_order_does_not_change_the_tree() {
    let a = entry(Mode::Blob(BlobType::Plain), "a", H1);
    let b = entry(Mode::Blob(BlobType::Plain), "b", H2);
    let c = TreeEntry { file_type: Mode::Tree, name: "c".to_string(), hash: hash_of(H2) };
    let one = GitObject::new_tree(&[a.clone(), b.clone(), c.clone()]);
    let two = GitObject::new_tree(&[c, a, b]);
    assert_eq!(one.hash(), two.hash());
}
