use minigit::commit::{Commit, User};
use minigit::index::Index;
use minigit::object::GitObject;
use minigit::refs::{initial_head, Ref, RefState, RefUpdate};
use minigit::tree::{write_tree, ObjectStore};

fn user() -> User {
    User {
        name: "alice".to_string(),
        email: "alice@example.com".to_string(),
        timestamp_micros: 1_700_000_000_000_000,
        offset_seconds: 0,
    }
}

#[test]
fn init_commit_and_branch() {
    // init: HEAD names the unborn main branch
    let state = RefState { head: initial_head(None), branches: Vec::new(), tags: Vec::new() };
    let (target, parent) = state.commit_target().unwrap();
    assert_eq!(target, Ref::Branch("main".to_string()));
    assert_eq!(parent, None);

    // commit -m x with nothing staged: the empty tree and a commit on it
    let mut store = ObjectStore::new();
    let tree = write_tree(&Index::new(), &mut store).unwrap();
    assert_eq!(tree.to_string(), "4b825dc642cb6eb9a060e54bf8d69288fbee4904");
    let commit = Commit::new(tree, Vec::new(), user(), "x".to_string());
    let object = GitObject::from_commit(&commit);
    assert_eq!(object.parse_commit_body().unwrap().tree, tree);
    let commit_hash = object.hash();

    // refs/heads/main now points at the commit
    let state = RefState {
        head: initial_head(None),
        branches: vec![("main".to_string(), commit_hash)],
        tags: Vec::new(),
    };
    assert_eq!(state.commit_target().unwrap().1, Some(commit_hash));

    // branch -c feature, then branch
    assert_eq!(
        state.branch_create("feature").unwrap(),
        vec![RefUpdate::WriteRef(Ref::Branch("feature".to_string()), commit_hash)]
    );
    let state = RefState {
        head: initial_head(None),
        branches: vec![("main".to_string(), commit_hash), ("feature".to_string(), commit_hash)],
        tags: Vec::new(),
    };
    assert_eq!(state.branch_list().join("\n"), "  feature\n* main");
}
