use vstd::prelude::*;

verus! {

/// The kinds of failure that the core reports.
#[derive(Debug, Clone, Copy, PartialEq, Eq, Structural)]
pub enum ErrorKind {
    /// Bytes of an object that do not follow the canonical form.
    CorruptObject,
    /// Bytes of an index file that do not follow the index layout.
    CorruptIndex,
    /// A missing object, ref or file.
    NotFound,
    /// A malformed hash, mode, ref name or path.
    InvalidArgument,
    /// A branch that already exists, deleting the current branch, committing on a detached HEAD.
    ConflictingState,
    /// A request this core does not carry out (tags as write targets).
    UnsupportedOperation,
}

/// A failure of the core, with what a message about it needs.
#[derive(Debug, Clone, PartialEq, Eq)]
pub enum GitError {
    /// The bytes of an object are not a canonical object.
    CorruptObject,
    /// The bytes of an index file do not follow the index layout.
    CorruptIndex,
    /// An object was read as another kind than it is.
    WrongObjectKind,
    /// The object's body is not the text it must be.
    NotText,
    /// A hash that is not 40 lowercase hex digits, or not 20 bytes.
    InvalidHash,
    /// A mode that is none of the four accepted ones.
    InvalidMode,
    /// An object kind that is none of blob, tree and commit.
    InvalidObjectKind,
    /// A ref name that names neither a branch nor a tag.
    InvalidRef(String),
    /// A path that cannot stand in a tree.
    InvalidPath(String),
    /// A commit text that does not follow the commit grammar.
    MalformedCommit,
    /// A user line that does not follow the user grammar.
    MalformedUser,
    /// The branch exists already.
    BranchExists(String),
    /// The branch does not exist.
    BranchNotFound(String),
    /// The branch is the one HEAD points at.
    DeleteCurrentBranch(String),
    /// HEAD resolves to no commit, so nothing can be branched from it.
    NoCommit(String),
    /// HEAD is detached where a branch is needed.
    DetachedHead,
    /// A tag where a branch is needed.
    TagUnsupported,
    /// A path that is not in the index.
    NotInIndex(String),
    /// `--add` and `--remove` together.
    ConflictingOptions,
    /// `--remove`, which this core does not carry out.
    RemoveUnsupported,
    /// A write to a ref whose path is a directory.
    RefIsDirectory(String),
}

impl GitError {
    /// The kind of failure this is.
    pub fn kind(&self) -> (r: ErrorKind)
        ensures
            r == error_kind(*self),
    {
        match self {
            GitError::CorruptObject => ErrorKind::CorruptObject,
            GitError::WrongObjectKind => ErrorKind::CorruptObject,
            GitError::NotText => ErrorKind::CorruptObject,
            GitError::CorruptIndex => ErrorKind::CorruptIndex,
            GitError::MalformedCommit => ErrorKind::CorruptObject,
            GitError::MalformedUser => ErrorKind::CorruptObject,
            GitError::InvalidHash => ErrorKind::InvalidArgument,
            GitError::InvalidMode => ErrorKind::InvalidArgument,
            GitError::InvalidObjectKind => ErrorKind::InvalidArgument,
            GitError::InvalidRef(_) => ErrorKind::InvalidArgument,
            GitError::InvalidPath(_) => ErrorKind::InvalidArgument,
            GitError::BranchExists(_) => ErrorKind::ConflictingState,
            GitError::DeleteCurrentBranch(_) => ErrorKind::ConflictingState,
            GitError::DetachedHead => ErrorKind::ConflictingState,
            GitError::ConflictingOptions => ErrorKind::InvalidArgument,
            GitError::BranchNotFound(_) => ErrorKind::NotFound,
            GitError::NoCommit(_) => ErrorKind::NotFound,
            GitError::NotInIndex(_) => ErrorKind::NotFound,
            GitError::TagUnsupported => ErrorKind::UnsupportedOperation,
            GitError::RemoveUnsupported => ErrorKind::UnsupportedOperation,
            GitError::RefIsDirectory(_) => ErrorKind::ConflictingState,
        }
    }
}

/// The name a failure is about, where it carries one.
pub open spec fn error_text(e: GitError) -> Option<Seq<char>> {
    match e {
        GitError::InvalidRef(t) | GitError::InvalidPath(t) | GitError::BranchExists(t)
        | GitError::BranchNotFound(t) | GitError::DeleteCurrentBranch(t) | GitError::NoCommit(t)
        | GitError::NotInIndex(t) | GitError::RefIsDirectory(t) => Some(t@),
        _ => None,
    }
}

/// The kind of each failure.
pub open spec fn error_kind(e: GitError) -> ErrorKind {
    match e {
        GitError::CorruptObject | GitError::WrongObjectKind | GitError::NotText
        | GitError::MalformedCommit | GitError::MalformedUser => ErrorKind::CorruptObject,
        GitError::CorruptIndex => ErrorKind::CorruptIndex,
        GitError::InvalidHash | GitError::InvalidMode | GitError::InvalidObjectKind
        | GitError::InvalidRef(_) | GitError::InvalidPath(_)
        | GitError::ConflictingOptions => ErrorKind::InvalidArgument,
        GitError::BranchExists(_) | GitError::DeleteCurrentBranch(_) | GitError::DetachedHead
        | GitError::RefIsDirectory(_) => ErrorKind::ConflictingState,
        GitError::BranchNotFound(_) | GitError::NoCommit(_) | GitError::NotInIndex(_) => ErrorKind::NotFound,
        GitError::TagUnsupported | GitError::RemoveUnsupported => ErrorKind::UnsupportedOperation,
    }
}

} // verus!
