use minigit::index::{Index, IndexEntry};
use minigit::mode::{BlobType, Mode};
use minigit::tree::{write_tree, ObjectStore, TreeNode, TreeNodeInfo};

const H1: &str = "78981922613b2afb6025042ff6bd878ac1994e85";
const H2: &str = "61780798228d17af2d34fce4cfbdf35556832472";

fn staged(name: &str, hex: &str) -> IndexEntry {
    IndexEntry::with_default(
        Mode::Blob(BlobType::Plain),
        minigit::hash::Hash::from_str(hex).unwrap(),
        name,
    )
}

fn two_file_index() -> Index {
    let mut index = Index::new();
    index.insert(&[staged("a.txt", H1), staged("dir/b.txt", H2)]);
    index
}

#[test]
fn empty_index_gives_empty_tree() {
    let mut store = ObjectStore::new();
    let root = write_tree(&Index::new(), &mut store).unwrap();
    assert_eq!(root.to_string(), "4b825dc642cb6eb9a060e54bf8d69288fbee4904");
    assert_eq!(store.objects().len(), 1);
}

#[test]
fn write_tree_builds_nested_trees() {
    let mut store = ObjectStore::new();
    let root = write_tree(&two_file_index(), &mut store).unwrap();
    assert_eq!(root.to_string(), "c07af3bcce4a6a54ca4f9b3b97cc8189d0176bfd");
    assert_eq!(store.objects().len(), 2);
    let sub = minigit::hash::Hash::from_str("f8f7aefc2900a3d737cea9eee45729fd55761e1a").unwrap();
    assert!(store.contains(&sub));
    assert!(store.contains(&root));
}

#[test]
fn write_tree_twice_writes_nothing_new() {
    let mut store = ObjectStore::new();
    let first = write_tree(&two_file_index(), &mut store).unwrap();
    let count = store.objects().len();
    let second = write_tree(&two_file_index(), &mut store).unwrap();
    assert_eq!(first, second);
    assert_eq!(store.objects().len(), count);
}

#[test]
fn identical_subtrees_share_one_object() {
    let mut index = Index::new();
    index.insert(&[staged("x/f", H1), staged("y/f", H1)]);
    let mut store = ObjectStore::new();
    write_tree(&index, &mut store).unwrap();
    // the root and a single tree shared by x and y
    assert_eq!(store.objects().len(), 2);
}

#[test]
fn push_rejects_bad_paths() {
    let hash = minigit::hash::Hash::from_str(H1).unwrap();
    let mut root = TreeNode::new_root();
    assert!(root.push_full_path_blob("/abs", BlobType::Plain, hash).is_err());
    assert!(root.push_full_path_blob("a/../b", BlobType::Plain, hash).is_err());
    assert!(root.push_full_path_blob("a//b", BlobType::Plain, hash).is_err());
    assert!(root.push_full_path_blob("", BlobType::Plain, hash).is_err());
    assert!(root.push_full_path_blob("f", BlobType::Plain, hash).is_ok());
    assert!(root.push_full_path_blob("f/g", BlobType::Plain, hash).is_err());
    let other = minigit::hash::Hash::from_str(H2).unwrap();
    assert!(root.push_full_path_blob("f", BlobType::Executable, other).is_ok());
    assert!(root.push_full_path_blob("d/e", BlobType::Executable, hash).is_ok());
    match &root.tree_info {
        TreeNodeInfo::Tree(children) => {
            assert_eq!(children.len(), 2);
            match &children[0].tree_info {
                TreeNodeInfo::Blob(bt, h) => {
                    assert_eq!(*bt, BlobType::Executable);
                    assert_eq!(*h, other);
                }
                TreeNodeInfo::Tree(_) => panic!("f is a blob"),
            }
        }
        TreeNodeInfo::Blob(_, _) => panic!("root is a directory"),
    }
    assert_eq!(
        root.push_full_path_blob("a/../b", BlobType::Plain, hash),
        Err(minigit::error::GitError::InvalidPath("a/../b".to_string()))
    );
    assert!(root.has_blob_at("d/e"));
    assert!(!root.has_blob_at("d"));
}

#[test]
fn duplicate_index_paths_are_refused() {
    let mut index = Index::new();
    index.entries.push(staged("same", H1));
    index.entries.push(staged("same", H2));
    assert_eq!(
        TreeNode::from_index(&index).err(),
        Some(minigit::error::GitError::InvalidPath("same".to_string()))
    );
}

#[test]
fn put_skips_held_objects() {
    let mut store = ObjectStore::new();
    let blob = minigit::object::GitObject::new(minigit::object::ObjectType::Blob, b"hello\n".to_vec());
    assert!(store.put(blob.clone()));
    assert!(!store.put(blob));
    assert_eq!(store.objects().len(), 1);
}

#[test]
fn index_paths_lead_to_their_blobs() {
    let root = TreeNode::from_index(&two_file_index()).unwrap();
    match &root.tree_info {
        TreeNodeInfo::Tree(children) => {
            assert_eq!(children.len(), 2);
            let dir = children.iter().find(|c| c.name == "dir").unwrap();
            match &dir.tree_info {
                TreeNodeInfo::Tree(inner) => {
                    assert_eq!(inner[0].name, "b.txt");
                    match &inner[0].tree_info {
                        TreeNodeInfo::Blob(bt, h) => {
                            assert_eq!(*bt, BlobType::Plain);
                            assert_eq!(h.to_string(), H2);
                        }
                        TreeNodeInfo::Tree(_) => panic!("b.txt is a blob"),
                    }
                }
                TreeNodeInfo::Blob(_, _) => panic!("dir is a directory"),
            }
        }
        TreeNodeInfo::Blob(_, _) => panic!("root is a directory"),
    }
}

#[test]
fn tree_mode_entries_are_refused() {
    let mut index = Index::new();
    index.insert(&[IndexEntry::with_default(Mode::Tree, minigit::hash::Hash::from_str(H1).unwrap(), "sub")]);
    assert_eq!(TreeNode::from_index(&index).err(), Some(minigit::error::GitError::InvalidMode));
}

#[test]
fn conflicting_paths_are_refused_and_leave_the_tree() {
    let mut index = Index::new();
    index.insert(&[staged("a", H1), staged("a/b", H2)]);
    let mut store = ObjectStore::new();
    assert!(write_tree(&index, &mut store).is_err());
    assert_eq!(store.objects().len(), 0);
    let hash = minigit::hash::Hash::from_str(H1).unwrap();
    let mut root = TreeNode::new_root();
    root.push_full_path_blob("x/y", BlobType::Plain, hash).unwrap();
    assert!(root.push_full_path_blob("x", BlobType::Plain, hash).is_err());
    assert!(root.push_full_path_blob("x/y/z", BlobType::Plain, hash).is_err());
    match &root.tree_info {
        TreeNodeInfo::Tree(children) => assert_eq!(children.len(), 1),
        TreeNodeInfo::Blob(_, _) => panic!("root is a directory"),
    }
}
