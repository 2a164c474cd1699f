use minigit::error::GitError;
use minigit::refs::{initial_head, Head, Ref, RefState, RefUpdate};

const H1: &str = "ce013625030ba8dba906f756967f9e9ca394464a";
const H2: &str = "4b825dc642cb6eb9a060e54bf8d69288fbee4904";

fn hash(hex: &str) -> minigit::hash::Hash {
    minigit::hash::Hash::from_str(hex).unwrap()
}

fn on_main_with(branches: &[(&str, &str)]) -> RefState {
    RefState {
        head: Head::Ref(Ref::Branch("main".to_string())),
        branches: branches.iter().map(|(n, h)| (n.to_string(), hash(h))).collect(),
        tags: Vec::new(),
    }
}

#[test]
fn branch_listing_marks_current() {
    let state = on_main_with(&[("main", H1), ("feature", H1)]);
    assert_eq!(state.branch_list(), vec!["  feature".to_string(), "* main".to_string()]);
}

#[test]
fn switch_rejects_missing_branch() {
    let state = on_main_with(&[("main", H1)]);
    let result = state.switch("nope");
    assert_eq!(result, Err(GitError::BranchNotFound("nope".to_string())));
    assert_eq!(state.head, Head::Ref(Ref::Branch("main".to_string())));
    assert_eq!(result.unwrap_err().kind(), minigit::error::ErrorKind::NotFound);
}

#[test]
fn switch_moves_head() {
    let state = on_main_with(&[("main", H1), ("dev", H2)]);
    assert_eq!(
        state.switch("dev"),
        Ok(vec![RefUpdate::WriteHead(Head::Ref(Ref::Branch("dev".to_string())))])
    );
    assert_eq!(
        state.switch_create("topic"),
        Ok(vec![
            RefUpdate::WriteRef(Ref::Branch("topic".to_string()), hash(H1)),
            RefUpdate::WriteHead(Head::Ref(Ref::Branch("topic".to_string()))),
        ])
    );
    assert_eq!(state.switch_create("dev"), Err(GitError::BranchExists("dev".to_string())));
    assert_eq!(
        state.switch_orphan("fresh"),
        Ok(vec![RefUpdate::WriteHead(Head::Ref(Ref::Branch("fresh".to_string())))])
    );
    assert_eq!(
        state.switch_detach(H2),
        Ok(vec![RefUpdate::WriteHead(Head::Detached(hash(H2)))])
    );
    assert_eq!(state.switch_detach("xyz"), Err(GitError::InvalidHash));
}

#[test]
fn switch_create_on_unborn_branch_makes_no_ref() {
    let state = on_main_with(&[]);
    assert_eq!(
        state.switch_create("topic"),
        Ok(vec![RefUpdate::WriteHead(Head::Ref(Ref::Branch("topic".to_string())))])
    );
}

#[test]
fn branch_create_and_delete() {
    let state = on_main_with(&[("main", H1), ("old", H2)]);
    assert_eq!(
        state.branch_create("feature"),
        Ok(vec![RefUpdate::WriteRef(Ref::Branch("feature".to_string()), hash(H1))])
    );
    assert_eq!(state.branch_create("old"), Err(GitError::BranchExists("old".to_string())));
    assert_eq!(on_main_with(&[]).branch_create("x"), Err(GitError::NoCommit("x".to_string())));
    assert_eq!(
        state.branch_delete("old"),
        Ok(vec![RefUpdate::DeleteRef(Ref::Branch("old".to_string()))])
    );
    assert_eq!(state.branch_delete("main"), Err(GitError::DeleteCurrentBranch("main".to_string())));
    assert_eq!(state.branch_delete("gone"), Err(GitError::BranchNotFound("gone".to_string())));
    let on_tag = RefState { head: Head::Ref(Ref::Tag("v1".to_string())), ..on_main_with(&[]) };
    assert_eq!(on_tag.branch_create("x"), Err(GitError::TagUnsupported));
}

#[test]
fn commit_target_follows_head() {
    let unborn = on_main_with(&[]);
    assert_eq!(unborn.commit_target(), Ok((Ref::Branch("main".to_string()), None)));
    let born = on_main_with(&[("main", H1)]);
    assert_eq!(born.commit_target(), Ok((Ref::Branch("main".to_string()), Some(hash(H1)))));
    let detached = RefState { head: Head::Detached(hash(H1)), ..on_main_with(&[]) };
    assert_eq!(detached.commit_target(), Err(GitError::DetachedHead));
}

#[test]
fn update_ref_targets() {
    let state = on_main_with(&[("main", H1)]);
    assert_eq!(
        state.update_ref("HEAD", H2),
        Ok(vec![RefUpdate::WriteRef(Ref::Branch("main".to_string()), hash(H2))])
    );
    assert_eq!(
        state.update_ref("refs/tags/v1", H2),
        Ok(vec![RefUpdate::WriteRef(Ref::Tag("v1".to_string()), hash(H2))])
    );
    assert!(state.update_ref("heads/x", H2).is_err());
    assert_eq!(state.update_ref("HEAD", "short"), Err(GitError::InvalidHash));
}

#[test]
fn head_text_round_trips() {
    let head = initial_head(None);
    assert_eq!(head, Head::Ref(Ref::Branch("main".to_string())));
    assert_eq!(String::from_utf8(head.to_text()).unwrap(), "ref: refs/heads/main\n");
    assert_eq!(Head::from_str("ref: refs/heads/main\n"), Ok(head));
    assert_eq!(initial_head(Some("trunk")), Head::Ref(Ref::Branch("trunk".to_string())));
    let detached = Head::Detached(hash(H1));
    assert_eq!(String::from_utf8(detached.to_text()).unwrap(), format!("{}\n", H1));
    assert_eq!(Head::from_str(&format!("  {}  ", H1)), Ok(detached));
    assert!(Head::from_str("ref:refs/heads/main").is_err());
}

#[test]
fn ref_names_and_paths() {
    assert_eq!(Ref::from_str("refs/heads/feature"), Ok(Ref::Branch("feature".to_string())));
    assert_eq!(Ref::from_str("refs/tags/v1"), Ok(Ref::Tag("v1".to_string())));
    assert_eq!(Ref::from_str("HEAD"), Err(GitError::InvalidRef("HEAD".to_string())));
    assert_eq!(Ref::Branch("x".to_string()).to_path(), "refs/heads/x");
    assert_eq!(Ref::Tag("v".to_string()).to_string(), "refs/tags/v");
}
