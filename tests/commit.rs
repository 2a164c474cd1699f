use minigit::commit::{Commit, User};
use minigit::error::GitError;
use minigit::object::{GitObject, ObjectType};

const TREE: &str = "4b825dc642cb6eb9a060e54bf8d69288fbee4904";
const PARENT: &str = "ce013625030ba8dba906f756967f9e9ca394464a";

fn user() -> User {
    User {
        name: "alice".to_string(),
        email: "alice@example.com".to_string(),
        timestamp_micros: 1_700_000_000_000_000,
        offset_seconds: 9 * 3600,
    }
}

#[test]
fn user_line_formats_and_parses() {
    let u = user();
    assert_eq!(u.to_string(), "alice <alice@example.com> 1700000000000000 +0900");
    assert_eq!(User::from_str("alice <alice@example.com> 1700000000000000 +0900"), Ok(u));
    let west = User { offset_seconds: -(5 * 3600 + 30 * 60), timestamp_micros: -5, ..user() };
    assert_eq!(west.to_string(), "alice <alice@example.com> -5 -0530");
    assert_eq!(User::from_str(&west.to_string()), Ok(west));
}

#[test]
fn malformed_user_lines_are_rejected() {
    assert_eq!(User::from_str("alice"), Err(GitError::MalformedUser));
    assert_eq!(User::from_str("alice alice@example.com 1 +0000"), Err(GitError::MalformedUser));
    assert_eq!(User::from_str("alice <a> x +0000"), Err(GitError::MalformedUser));
    assert_eq!(User::from_str("alice <a> 1 +0960"), Err(GitError::MalformedUser));
    assert_eq!(User::from_str("alice <a> 1 +2400"), Err(GitError::MalformedUser));
    assert_eq!(User::from_str("alice <a> 1"), Err(GitError::MalformedUser));
    assert_eq!(User::from_str("alice <a> 1 +0130xyz"), Err(GitError::MalformedUser));
    assert_eq!(User::from_str("alice <a> 1 +01 30"), Err(GitError::MalformedUser));
    assert_eq!(User::from_str("alice <a> 1 +01:30"), Err(GitError::MalformedUser));
}

#[test]
fn commit_round_trips() {
    let c = Commit {
        tree: minigit::hash::Hash::from_str(TREE).unwrap(),
        parent: vec![minigit::hash::Hash::from_str(PARENT).unwrap()],
        author: user(),
        committer: User { name: "bob".to_string(), ..user() },
        rest_of_header: "gpgsig abc\n def".to_string(),
        message: "subject\n\nbody\n".to_string(),
    };
    let text = String::from_utf8(c.to_bytes()).unwrap();
    assert_eq!(
        text,
        format!(
            "tree {}\nparent {}\nauthor {}\ncommitter {}\ngpgsig abc\n def\n\nsubject\n\nbody\n",
            TREE,
            PARENT,
            user().to_string(),
            "bob <alice@example.com> 1700000000000000 +0900"
        )
    );
    assert_eq!(Commit::from_str(&text), Ok(c.clone()));
    let object = GitObject::from_commit(&c);
    assert_eq!(object.type_, ObjectType::Commit);
    assert_eq!(object.parse_commit_body(), Ok(c));
}

#[test]
fn commit_without_extra_headers_has_one_blank_line() {
    let c = Commit::new(minigit::hash::Hash::from_str(TREE).unwrap(), Vec::new(), user(), "x".to_string());
    let text = String::from_utf8(c.to_bytes()).unwrap();
    assert!(text.ends_with("+0900\n\nx"));
    assert_eq!(Commit::from_str(&text), Ok(c));
}

#[test]
fn malformed_commits_are_rejected() {
    assert_eq!(Commit::from_str("tree abc\n\nmsg"), Err(GitError::MalformedCommit));
    assert_eq!(Commit::from_str("no blank line"), Err(GitError::MalformedCommit));
    let no_committer = format!("tree {}\nauthor {}\n\nmsg", TREE, user().to_string());
    assert_eq!(Commit::from_str(&no_committer), Err(GitError::MalformedCommit));
    let blob = GitObject::new(ObjectType::Blob, Vec::new());
    assert_eq!(blob.parse_commit_body(), Err(GitError::WrongObjectKind));
}

#[test]
fn unrepresentable_instants_are_rejected() {
    assert_eq!(
        User::from_str("alice <a> 9223372036854775807 +0000"),
        Err(GitError::MalformedUser)
    );
    assert!(User::from_str("alice <a> 0 +0000").is_ok());
}

#[test]
fn checked_user_constructor() {
    assert!(User::new("a".to_string(), "b".to_string(), 0, 3600).is_ok());
    assert_eq!(User::new("a".to_string(), "b".to_string(), 0, 86400), Err(GitError::MalformedUser));
    assert_eq!(User::new("a".to_string(), "b".to_string(), 0, 30), Err(GitError::MalformedUser));
    assert_eq!(User::new("a".to_string(), "b".to_string(), i64::MAX, 0), Err(GitError::MalformedUser));
}
