//! Branches, tags and HEAD, and the decisions of the commands that move them.
use crate::bytes::{ascii_chars, push_all, utf8_text};
use crate::error::GitError;
use crate::hash::{hex_of, is_hash_text};
use vstd::prelude::*;
use vstd::utf8::*;

verus! {

/// A named pointer to a commit.
#[derive(Debug, Clone, PartialEq, Eq)]
pub enum Ref {
    Branch(String),
    Tag(String),
}

/// `refs/heads/`.
pub open spec fn heads_prefix() -> Seq<u8> {
    seq![114u8, 101, 102, 115, 47, 104, 101, 97, 100, 115, 47]
}

/// `refs/tags/`.
pub open spec fn tags_prefix() -> Seq<u8> {
    seq![114u8, 101, 102, 115, 47, 116, 97, 103, 115, 47]
}

/// `ref: `.
pub open spec fn symref_prefix() -> Seq<u8> {
    seq![114u8, 101, 102, 58, 32]
}

/// The ref's full name, which is also its path under the repository directory.
pub open spec fn ref_text(r: Ref) -> Seq<u8> {
    match r {
        Ref::Branch(n) => heads_prefix() + encode_utf8(n@),
        Ref::Tag(n) => tags_prefix() + encode_utf8(n@),
    }
}

/// What a ref's full name names: a branch under `refs/heads/`, a tag under `refs/tags/`.
pub open spec fn parse_ref(t: Seq<u8>) -> Option<(bool, Seq<char>)> {
    if crate::commit::starts_with(t, heads_prefix()) && valid_utf8(t.subrange(11, t.len() as int)) {
        Some((true, decode_utf8(t.subrange(11, t.len() as int))))
    } else if crate::commit::starts_with(t, tags_prefix()) && valid_utf8(
        t.subrange(10, t.len() as int),
    ) {
        Some((false, decode_utf8(t.subrange(10, t.len() as int))))
    } else {
        None
    }
}

/// Whether the ref is a branch, and its short name.
pub open spec fn ref_view(r: Ref) -> (bool, Seq<char>) {
    match r {
        Ref::Branch(n) => (true, n@),
        Ref::Tag(n) => (false, n@),
    }
}

fn heads_bytes() -> (r: Vec<u8>)
    ensures
        r@ == heads_prefix(),
{
    let r = vec![114u8, 101, 102, 115, 47, 104, 101, 97, 100, 115, 47];
    assert(r@ =~= heads_prefix());
    r
}

fn tags_bytes() -> (r: Vec<u8>)
    ensures
        r@ == tags_prefix(),
{
    let r = vec![114u8, 101, 102, 115, 47, 116, 97, 103, 115, 47];
    assert(r@ =~= tags_prefix());
    r
}

/// The text of valid UTF-8 bytes.
fn text_of(b: &[u8]) -> (r: String)
    requires
        valid_utf8(b@),
    ensures
        r@ == decode_utf8(b@),
        encode_utf8(r@) == b@,
{
    match utf8_text(b) {
        Some(s) => s,
        None => String::new(),
    }
}

proof fn lemma_concat_utf8(a: Seq<u8>, c: Seq<char>)
    requires
        crate::bytes::is_ascii_bytes(a),
    ensures
        valid_utf8(a + encode_utf8(c)),
{
    crate::bytes::lemma_ascii_utf8(a);
    encode_utf8_valid_utf8(c);
    valid_utf8_concat(a, encode_utf8(c));
}

impl Ref {
    /// Reads a ref's full name (`refs/heads/<name>` or `refs/tags/<name>`).
    pub fn from_str(s: &str) -> (r: Result<Ref, GitError>)
        ensures
            match r {
                Ok(x) => parse_ref(encode_utf8(s@)) == Some(ref_view(x)),
                Err(e) => parse_ref(encode_utf8(s@)) is None && e is InvalidRef && crate::error::error_text(e) == Some(s@),
            },
    {
        match ref_from_bytes(s.as_bytes()) {
            Some(r) => Ok(r),
            None => Err(GitError::InvalidRef(s.to_owned())),
        }
    }

    /// The ref's full name as bytes.
    pub fn to_text(&self) -> (r: Vec<u8>)
        ensures
            r@ == ref_text(*self),
    {
        let mut out = match self {
            Ref::Branch(_) => heads_bytes(),
            Ref::Tag(_) => tags_bytes(),
        };
        match self {
            Ref::Branch(n) => push_all(&mut out, n.as_str().as_bytes()),
            Ref::Tag(n) => push_all(&mut out, n.as_str().as_bytes()),
        }
        out
    }

    /// The ref's full name (`refs/heads/<name>`, `refs/tags/<name>`).
    pub fn to_string(&self) -> (r: String)
        ensures
            encode_utf8(r@) == ref_text(*self),
    {
        let t = self.to_text();
        proof {
            match self {
                Ref::Branch(n) => lemma_concat_utf8(heads_prefix(), n@),
                Ref::Tag(n) => lemma_concat_utf8(tags_prefix(), n@),
            }
        }
        text_of(t.as_slice())
    }

    /// The ref file's path under the repository directory; it is the ref's full name.
    pub fn to_path(&self) -> (r: String)
        ensures
            encode_utf8(r@) == ref_text(*self),
    {
        self.to_string()
    }

    /// A copy of this ref.
    pub fn duplicate(&self) -> (r: Ref)
        ensures
            r == *self,
    {
        match self {
            Ref::Branch(n) => Ref::Branch(n.clone()),
            Ref::Tag(n) => Ref::Tag(n.clone()),
        }
    }
}

/// Where HEAD points: straight at a commit, or at a ref.
#[derive(Debug, Clone, PartialEq, Eq)]
pub enum Head {
    Detached(crate::hash::Hash),
    Ref(Ref),
}

/// ASCII white space, as `trim` removes it from a ref file.
pub open spec fn is_space(c: u8) -> bool {
    c == 32 || c == 9 || c == 10 || c == 11 || c == 12 || c == 13
}

/// The text of HEAD or a ref file without white space at either end.
pub open spec fn trimmed(t: Seq<u8>) -> Seq<u8>
    decreases t.len(),
{
    if t.len() > 0 && is_space(t[0]) {
        trimmed(t.drop_first())
    } else if t.len() > 0 && is_space(t.last()) {
        trimmed(t.drop_last())
    } else {
        t
    }
}

/// Drops white space at both ends.
pub fn trim(t: &[u8]) -> (r: &[u8])
    ensures
        r@ == trimmed(t@),
{
    let mut a: usize = 0;
    let mut b: usize = t.len();
    assert(t@.subrange(0, t@.len() as int) =~= t@);
    while a < b && (t[a] == 32 || t[a] == 9 || t[a] == 10 || t[a] == 11 || t[a] == 12 || t[a] == 13)
        invariant
            0 <= a <= b == t@.len(),
            trimmed(t@) == trimmed(t@.subrange(a as int, b as int)),
        decreases b - a,
    {
        assert(t@.subrange(a as int, b as int).drop_first() =~= t@.subrange(a as int + 1, b as int));
        a = a + 1;
    }
    while a < b && (t[b - 1] == 32 || t[b - 1] == 9 || t[b - 1] == 10 || t[b - 1] == 11 || t[b - 1]
        == 12 || t[b - 1] == 13)
        invariant
            0 <= a <= b <= t@.len(),
            a < b ==> !is_space(t@[a as int]),
            trimmed(t@) == trimmed(t@.subrange(a as int, b as int)),
        decreases b - a,
    {
        assert(t@.subrange(a as int, b as int).drop_last() =~= t@.subrange(a as int, b as int - 1));
        b = b - 1;
    }
    &t[a..b]
}

/// What HEAD's text says, trimmed: `ref: <full ref name>` or a detached hash.
pub open spec fn parse_head(t: Seq<u8>) -> Option<HeadView> {
    let u = trimmed(t);
    if crate::commit::starts_with(u, seq![114u8, 101, 102, 58]) {
        if crate::commit::starts_with(u, symref_prefix()) && parse_ref(u.subrange(5, u.len() as int)) is Some {
            Some(HeadView::Symbolic(parse_ref(u.subrange(5, u.len() as int)).unwrap()))
        } else {
            None
        }
    } else if is_hash_text(u) {
        Some(HeadView::Detached(crate::hash::unhex(u)))
    } else {
        None
    }
}

/// What HEAD says.
pub enum HeadView {
    Detached(Seq<u8>),
    Symbolic((bool, Seq<char>)),
}

pub open spec fn head_view(h: Head) -> HeadView {
    match h {
        Head::Detached(x) => HeadView::Detached(x@),
        Head::Ref(r) => HeadView::Symbolic(ref_view(r)),
    }
}

/// HEAD's file text: `ref: <full ref name>` or the hash, and a newline.
pub open spec fn head_text(h: Head) -> Seq<u8> {
    match h {
        Head::Detached(x) => hex_of(x@) + seq![10u8],
        Head::Ref(r) => symref_prefix() + ref_text(r) + seq![10u8],
    }
}

impl Head {
    /// Reads HEAD's file text; white space at either end is ignored.
    pub fn from_str(s: &str) -> (r: Result<Head, GitError>)
        ensures
            match r {
                Ok(h) => parse_head(encode_utf8(s@)) == Some(head_view(h)),
                Err(e) => parse_head(encode_utf8(s@)) is None && if crate::commit::starts_with(
                    trimmed(encode_utf8(s@)),
                    seq![114u8, 101, 102, 58],
                ) {
                    e is InvalidRef && crate::error::error_text(e) == Some(s@)
                } else {
                    e == GitError::InvalidHash
                },
            },
    {
        let u = trim(s.as_bytes());
        let n = u.len();
        let refc: [u8; 4] = [114u8, 101, 102, 58];
        assert(refc@ =~= seq![114u8, 101, 102, 58]);
        if n >= 4 && crate::bytes::bytes_eq(&u[0..4], refc.as_slice()) {
            if n < 5 || u[4] != 32 {
                assert(!crate::commit::starts_with(u@, symref_prefix()));
                return Err(GitError::InvalidRef(s.to_owned()));
            }
            assert(u@.subrange(0, 5) =~= symref_prefix());
            let rest = &u[5..n];
            match ref_from_bytes(rest) {
                Some(r) => Ok(Head::Ref(r)),
                None => Err(GitError::InvalidRef(s.to_owned())),
            }
        } else {
            match crate::hash::hash_from_text(u) {
                Some(h) => Ok(Head::Detached(h)),
                None => Err(GitError::InvalidHash),
            }
        }
    }

    /// HEAD's file text.
    pub fn to_text(&self) -> (r: Vec<u8>)
        ensures
            r@ == head_text(*self),
    {
        let mut out: Vec<u8> = Vec::new();
        match self {
            Head::Detached(h) => {
                push_all(&mut out, h.to_raw_hex().as_slice());
            },
            Head::Ref(r) => {
                push_all(&mut out, &[114u8, 101, 102, 58, 32]);
                push_all(&mut out, r.to_text().as_slice());
            },
        }
        out.push(10);
        assert(out@ =~= head_text(*self));
        out
    }
}

/// Reads a ref's full name from bytes.
fn ref_from_bytes(t: &[u8]) -> (r: Option<Ref>)
    ensures
        match r {
            Some(x) => parse_ref(t@) == Some(ref_view(x)),
            None => parse_ref(t@) is None,
        },
{
    let n = t.len();
    let heads = heads_bytes();
    let tags = tags_bytes();
    if n >= 11 && crate::bytes::bytes_eq(&t[0..11], heads.as_slice()) {
        match utf8_text(&t[11..n]) {
            Some(name) => Some(Ref::Branch(name)),
            None => None,
        }
    } else if n >= 10 && crate::bytes::bytes_eq(&t[0..10], tags.as_slice()) {
        match utf8_text(&t[10..n]) {
            Some(name) => Some(Ref::Tag(name)),
            None => None,
        }
    } else {
        None
    }
}

/// A change to make to the refs or to HEAD.
#[derive(Debug, Clone, PartialEq, Eq)]
pub enum RefUpdate {
    /// Rewrite HEAD.
    WriteHead(Head),
    /// Write a ref file holding a hash.
    WriteRef(Ref, crate::hash::Hash),
    /// Remove a ref file.
    DeleteRef(Ref),
}

/// The hash recorded for `name` in `s`, the first such record.
pub open spec fn lookup_ref(s: Seq<(String, crate::hash::Hash)>, name: Seq<char>) -> Option<Seq<u8>>
    decreases s.len(),
{
    if s.len() == 0 {
        None
    } else if s[0].0@ == name {
        Some(s[0].1@)
    } else {
        lookup_ref(s.drop_first(), name)
    }
}

/// The branch and tag refs that exist, and HEAD: what the ref commands decide on.
#[derive(Debug)]
pub struct RefState {
    pub head: Head,
    /// Each existing branch with the hash its file holds.
    pub branches: Vec<(String, crate::hash::Hash)>,
    /// Each existing tag with the hash its file holds.
    pub tags: Vec<(String, crate::hash::Hash)>,
}

/// The commit HEAD stands on: a detached hash, or the hash of the ref it names, if that exists.
pub open spec fn resolved_head(st: RefState) -> Option<Seq<u8>> {
    match st.head {
        Head::Detached(h) => Some(h@),
        Head::Ref(Ref::Branch(b)) => lookup_ref(st.branches@, b@),
        Head::Ref(Ref::Tag(t)) => lookup_ref(st.tags@, t@),
    }
}

/// The branch HEAD names, if it names one.
pub open spec fn current_branch(st: RefState) -> Option<Seq<char>> {
    match st.head {
        Head::Ref(Ref::Branch(b)) => Some(b@),
        _ => None,
    }
}

fn find_ref(s: &Vec<(String, crate::hash::Hash)>, name: &str) -> (r: Option<crate::hash::Hash>)
    ensures
        match r {
            Some(h) => lookup_ref(s@, name@) == Some(h@),
            None => lookup_ref(s@, name@) is None,
        },
{
    let mut i: usize = 0;
    assert(s@.subrange(0, s@.len() as int) =~= s@);
    while i < s.len()
        invariant
            0 <= i <= s@.len(),
            lookup_ref(s@, name@) == lookup_ref(s@.subrange(i as int, s@.len() as int), name@),
        decreases s@.len() - i,
    {
        let same = crate::bytes::bytes_eq(s[i].0.as_str().as_bytes(), name.as_bytes());
        proof {
            encode_utf8_decode_utf8(s@[i as int].0@);
            encode_utf8_decode_utf8(name@);
            assert(same == (s@[i as int].0@ == name@));
            assert(s@.subrange(i as int, s@.len() as int).drop_first() =~= s@.subrange(
                i as int + 1,
                s@.len() as int,
            ));
        }
        if same {
            return Some(s[i].1);
        }
        i = i + 1;
    }
    None
}

/// `u` points HEAD at the branch `name`.
pub open spec fn sets_head_to_branch(u: RefUpdate, name: Seq<char>) -> bool {
    match u {
        RefUpdate::WriteHead(Head::Ref(Ref::Branch(b))) => b@ == name,
        _ => false,
    }
}

/// `u` writes `h` into the branch `name`.
pub open spec fn writes_branch(u: RefUpdate, name: Seq<char>, h: Seq<u8>) -> bool {
    match u {
        RefUpdate::WriteRef(Ref::Branch(b), x) => b@ == name && x@ == h,
        _ => false,
    }
}

/// `u` detaches HEAD at the hash spelled `hex`.
pub open spec fn detaches_head(u: RefUpdate, hex: Seq<u8>) -> bool {
    match u {
        RefUpdate::WriteHead(Head::Detached(h)) => hex_of(h@) == hex,
        _ => false,
    }
}

/// `u` writes into the ref `r` the hash spelled `hex`.
pub open spec fn writes_ref(u: RefUpdate, r: (bool, Seq<char>), hex: Seq<u8>) -> bool {
    match u {
        RefUpdate::WriteRef(x, h) => ref_view(x) == r && hex_of(h@) == hex,
        _ => false,
    }
}

/// What `update-ref HEAD` writes: HEAD itself where it is detached, else the ref it names.
pub open spec fn updates_head_target(st: RefState, u: RefUpdate, hex: Seq<u8>) -> bool {
    match st.head {
        Head::Detached(_) => detaches_head(u, hex),
        Head::Ref(x) => writes_ref(u, ref_view(x), hex),
    }
}

/// `u` removes the branch `name`.
pub open spec fn deletes_branch(u: RefUpdate, name: Seq<char>) -> bool {
    match u {
        RefUpdate::DeleteRef(Ref::Branch(b)) => b@ == name,
        _ => false,
    }
}

/// HEAD names a tag.
pub open spec fn head_is_tag(st: RefState) -> bool {
    match st.head {
        Head::Ref(Ref::Tag(_)) => true,
        _ => false,
    }
}

impl RefState {
    /// The hash HEAD stands on, if any.
    pub fn resolve_head(&self) -> (r: Option<crate::hash::Hash>)
        ensures
            match r {
                Some(h) => resolved_head(*self) == Some(h@),
                None => resolved_head(*self) is None,
            },
    {
        match &self.head {
            Head::Detached(h) => Some(*h),
            Head::Ref(Ref::Branch(b)) => find_ref(&self.branches, b.as_str()),
            Head::Ref(Ref::Tag(t)) => find_ref(&self.tags, t.as_str()),
        }
    }

    /// `switch <branch>`: HEAD comes to name the branch, which must exist.
    pub fn switch(&self, branch: &str) -> (r: Result<Vec<RefUpdate>, GitError>)
        ensures
            match r {
                Ok(u) => lookup_ref(self.branches@, branch@) is Some && u@.len() == 1
                    && sets_head_to_branch(u@[0], branch@),
                Err(e) => lookup_ref(self.branches@, branch@) is None && e is BranchNotFound && crate::error::error_text(e) == Some(
                    branch@,
                ),
            },
    {
        if find_ref(&self.branches, branch).is_none() {
            return Err(GitError::BranchNotFound(branch.to_owned()));
        }
        Ok(vec![RefUpdate::WriteHead(Head::Ref(Ref::Branch(branch.to_owned())))])
    }

    /// `switch -c <branch>`: the branch, which must not exist, is made at HEAD's commit where
    /// HEAD stands on one, and HEAD comes to name it. A HEAD that names a tag is refused.
    pub fn switch_create(&self, branch: &str) -> (r: Result<Vec<RefUpdate>, GitError>)
        ensures
            match r {
                Ok(u) => lookup_ref(self.branches@, branch@) is None && !head_is_tag(*self) && match resolved_head(*self) {
                    Some(h) => u@.len() == 2 && writes_branch(u@[0], branch@, h) && sets_head_to_branch(u@[1], branch@),
                    None => u@.len() == 1 && sets_head_to_branch(u@[0], branch@),
                },
                Err(e) => (lookup_ref(self.branches@, branch@) is Some && e is BranchExists && crate::error::error_text(e) == Some(branch@)) || (
                lookup_ref(self.branches@, branch@) is None && head_is_tag(*self) && e == GitError::TagUnsupported),
            },
    {
        if find_ref(&self.branches, branch).is_some() {
            return Err(GitError::BranchExists(branch.to_owned()));
        }
        if let Head::Ref(Ref::Tag(_)) = &self.head {
            return Err(GitError::TagUnsupported);
        }
        let mut out: Vec<RefUpdate> = Vec::new();
        if let Some(h) = self.resolve_head() {
            out.push(RefUpdate::WriteRef(Ref::Branch(branch.to_owned()), h));
        }
        out.push(RefUpdate::WriteHead(Head::Ref(Ref::Branch(branch.to_owned()))));
        Ok(out)
    }

    /// `switch --orphan <branch>`: HEAD comes to name the branch, which must not exist and is
    /// not made; the first commit on it makes it.
    pub fn switch_orphan(&self, branch: &str) -> (r: Result<Vec<RefUpdate>, GitError>)
        ensures
            match r {
                Ok(u) => lookup_ref(self.branches@, branch@) is None && u@.len() == 1
                    && sets_head_to_branch(u@[0], branch@),
                Err(e) => lookup_ref(self.branches@, branch@) is Some && e is BranchExists && crate::error::error_text(e) == Some(
                    branch@,
                ),
            },
    {
        if find_ref(&self.branches, branch).is_some() {
            return Err(GitError::BranchExists(branch.to_owned()));
        }
        Ok(vec![RefUpdate::WriteHead(Head::Ref(Ref::Branch(branch.to_owned())))])
    }

    /// `switch --detach <hash>`: HEAD comes to hold the hash.
    pub fn switch_detach(&self, hash: &str) -> (r: Result<Vec<RefUpdate>, GitError>)
        ensures
            match r {
                Ok(u) => is_hash_text(encode_utf8(hash@)) && u@.len() == 1 && detaches_head(
                    u@[0],
                    encode_utf8(hash@),
                ),
                Err(e) => !is_hash_text(encode_utf8(hash@)) && e == GitError::InvalidHash,
            },
    {
        let h = crate::hash::Hash::from_str(hash)?;
        Ok(vec![RefUpdate::WriteHead(Head::Detached(h))])
    }

    /// `branch -c <name>`: the branch, which must not exist, is made at HEAD's commit. Fails
    /// where HEAD names a tag or stands on no commit.
    pub fn branch_create(&self, name: &str) -> (r: Result<Vec<RefUpdate>, GitError>)
        ensures
            match r {
                Ok(u) => lookup_ref(self.branches@, name@) is None && !head_is_tag(*self)
                    && resolved_head(*self) is Some && u@.len() == 1 && writes_branch(
                    u@[0],
                    name@,
                    resolved_head(*self).unwrap(),
                ),
                Err(e) => (lookup_ref(self.branches@, name@) is Some && e is BranchExists && crate::error::error_text(e) == Some(name@)) || (
                lookup_ref(self.branches@, name@) is None && head_is_tag(*self) && e
                    == GitError::TagUnsupported) || (lookup_ref(self.branches@, name@) is None
                    && !head_is_tag(*self) && resolved_head(*self) is None && e is NoCommit && crate::error::error_text(e) == Some(name@)),
            },
    {
        if find_ref(&self.branches, name).is_some() {
            return Err(GitError::BranchExists(name.to_owned()));
        }
        if let Head::Ref(Ref::Tag(_)) = &self.head {
            return Err(GitError::TagUnsupported);
        }
        match self.resolve_head() {
            Some(h) => Ok(vec![RefUpdate::WriteRef(Ref::Branch(name.to_owned()), h)]),
            None => Err(GitError::NoCommit(name.to_owned())),
        }
    }

    /// `branch -d <name>`: the branch, which must exist and not be HEAD's, is removed.
    pub fn branch_delete(&self, name: &str) -> (r: Result<Vec<RefUpdate>, GitError>)
        ensures
            match r {
                Ok(u) => current_branch(*self) != Some(name@) && lookup_ref(self.branches@, name@)
                    is Some && u@.len() == 1 && deletes_branch(u@[0], name@),
                Err(e) => (current_branch(*self) == Some(name@) && e is DeleteCurrentBranch && crate::error::error_text(e) == Some(name@)) || (
                current_branch(*self) != Some(name@) && lookup_ref(self.branches@, name@) is None
                    && e is BranchNotFound && crate::error::error_text(e) == Some(name@)),
            },
    {
        if let Head::Ref(Ref::Branch(b)) = &self.head {
            let same = crate::bytes::bytes_eq(b.as_str().as_bytes(), name.as_bytes());
            proof {
                encode_utf8_decode_utf8(b@);
                encode_utf8_decode_utf8(name@);
            }
            if same {
                return Err(GitError::DeleteCurrentBranch(name.to_owned()));
            }
        }
        if find_ref(&self.branches, name).is_none() {
            return Err(GitError::BranchNotFound(name.to_owned()));
        }
        Ok(vec![RefUpdate::DeleteRef(Ref::Branch(name.to_owned()))])
    }

    /// Where a commit goes: the branch HEAD names, and that branch's commit as the parent if
    /// the branch exists (none on an unborn branch). Detached HEAD and tags are refused.
    pub fn commit_target(&self) -> (r: Result<(Ref, Option<crate::hash::Hash>), GitError>)
        ensures
            match r {
                Ok((t, p)) => current_branch(*self) is Some && ref_view(t) == (
                    true,
                    current_branch(*self).unwrap(),
                ) && match p {
                    Some(h) => lookup_ref(self.branches@, current_branch(*self).unwrap()) == Some(h@),
                    None => lookup_ref(self.branches@, current_branch(*self).unwrap()) is None,
                },
                Err(e) => (self.head is Detached && e == GitError::DetachedHead) || (head_is_tag(*self)
                    && e == GitError::TagUnsupported),
            },
    {
        match &self.head {
            Head::Detached(_) => Err(GitError::DetachedHead),
            Head::Ref(Ref::Tag(_)) => Err(GitError::TagUnsupported),
            Head::Ref(Ref::Branch(b)) => {
                let parent = find_ref(&self.branches, b.as_str());
                Ok((Ref::Branch(b.clone()), parent))
            },
        }
    }

    /// `update-ref <target> <hash>`: `HEAD` updates the ref HEAD names, or HEAD itself where
    /// it is detached; any other target must be a full ref name.
    pub fn update_ref(&self, target: &str, new_hash: &str) -> (r: Result<Vec<RefUpdate>, GitError>)
        ensures
            !is_hash_text(encode_utf8(new_hash@)) ==> r == Err::<Vec<RefUpdate>, GitError>(
                GitError::InvalidHash,
            ),
            is_hash_text(encode_utf8(new_hash@)) && target@ == seq!['H', 'E', 'A', 'D'] ==> r is Ok
                && r->Ok_0@.len() == 1 && updates_head_target(*self, r->Ok_0@[0], encode_utf8(new_hash@)),
            is_hash_text(encode_utf8(new_hash@)) && target@ != seq!['H', 'E', 'A', 'D'] && parse_ref(
                encode_utf8(target@),
            ) is Some ==> r is Ok && r->Ok_0@.len() == 1 && writes_ref(
                r->Ok_0@[0],
                parse_ref(encode_utf8(target@)).unwrap(),
                encode_utf8(new_hash@),
            ),
            is_hash_text(encode_utf8(new_hash@)) && target@ != seq!['H', 'E', 'A', 'D'] && parse_ref(
                encode_utf8(target@),
            ) is None ==> r is Err && r->Err_0 is InvalidRef && crate::error::error_text(r->Err_0) == Some(target@),
    {
        let h = crate::hash::Hash::from_str(new_hash)?;
        let head_word: [u8; 4] = [72u8, 69, 65, 68];
        let is_head = crate::bytes::bytes_eq(target.as_bytes(), head_word.as_slice());
        proof {
            let hw = seq!['H', 'E', 'A', 'D'];
            crate::bytes::lemma_ascii_utf8(head_word@);
            assert(crate::bytes::ascii_chars(head_word@) =~= hw);
            encode_utf8_decode_utf8(target@);
            encode_utf8_decode_utf8(hw);
            assert(is_head == (target@ == hw));
        }
        if is_head {
            match &self.head {
                Head::Detached(_) => Ok(vec![RefUpdate::WriteHead(Head::Detached(h))]),
                Head::Ref(r) => Ok(vec![RefUpdate::WriteRef(r.duplicate(), h)]),
            }
        } else {
            let r = Ref::from_str(target)?;
            Ok(vec![RefUpdate::WriteRef(r, h)])
        }
    }
}

/// The order branch names are listed in: their bytes.
pub open spec fn branch_key() -> spec_fn(Seq<char>) -> Seq<u8> {
    |n: Seq<char>| encode_utf8(n)
}

/// A listing line: `* ` before the current branch, two spaces before the others.
pub open spec fn branch_line(name: Seq<char>, current: Option<Seq<char>>) -> Seq<char> {
    if current == Some(name) {
        seq!['*', ' '] + name
    } else {
        seq![' ', ' '] + name
    }
}

impl RefState {
    /// `branch`: the branches in name order, the one HEAD names marked with `* `.
    pub fn branch_list(&self) -> (r: Vec<String>)
        ensures
            r@.len() == self.branches@.len(),
            forall|i: int|
                0 <= i < r@.len() ==> #[trigger] r@[i]@ == branch_line(
                    crate::sort::sort_by(
                        branch_key(),
                        self.branches@.map_values(|b: (String, crate::hash::Hash)| b.0@),
                    )[i],
                    current_branch(*self),
                ),
    {
        let ghost all = self.branches@.map_values(|b: (String, crate::hash::Hash)| b.0@);
        let mut sorted: Vec<String> = Vec::new();
        let mut keys: Vec<Vec<u8>> = Vec::new();
        let mut i: usize = 0;
        while i < self.branches.len()
            invariant
                0 <= i <= self.branches@.len(),
                all == self.branches@.map_values(|b: (String, crate::hash::Hash)| b.0@),
                crate::sort::views(sorted@) == crate::sort::sort_by(branch_key(), all.subrange(0, i as int)),
                keys@.len() == sorted@.len(),
                forall|k: int| 0 <= k < keys@.len() ==> #[trigger] keys@[k]@ == branch_key()(sorted@[k]@),
            decreases self.branches@.len() - i,
        {
            let name = self.branches[i].0.clone();
            let mut key: Vec<u8> = Vec::new();
            push_all(&mut key, name.as_str().as_bytes());
            crate::sort::insert_keyed(&mut sorted, &mut keys, name, key, Ghost(branch_key()));
            i = i + 1;
            proof {
                assert(all.subrange(0, i as int).drop_last() =~= all.subrange(0, i as int - 1));
            }
        }
        assert(all.subrange(0, all.len() as int) =~= all);
        proof {
            crate::sort::lemma_sort_by(branch_key(), all);
        }
        let current: Option<&String> = match &self.head {
            Head::Ref(Ref::Branch(b)) => Some(b),
            _ => None,
        };
        let mut out: Vec<String> = Vec::new();
        let mut j: usize = 0;
        while j < sorted.len()
            invariant
                0 <= j <= sorted@.len(),
                crate::sort::views(sorted@) == crate::sort::sort_by(branch_key(), all),
                all == self.branches@.map_values(|b: (String, crate::hash::Hash)| b.0@),
                current matches Some(c) ==> current_branch(*self) == Some(c@),
                current is None ==> current_branch(*self) is None,
                out@.len() == j,
                forall|k: int| 0 <= k < j ==> #[trigger] out@[k]@ == branch_line(
                    crate::sort::sort_by(branch_key(), all)[k],
                    current_branch(*self),
                ),
            decreases sorted@.len() - j,
        {
            let name = &sorted[j];
            let is_current = match current {
                Some(c) => {
                    let same = crate::bytes::bytes_eq(c.as_str().as_bytes(), name.as_str().as_bytes());
                    proof {
                        encode_utf8_decode_utf8(c@);
                        encode_utf8_decode_utf8(name@);
                    }
                    same
                },
                None => false,
            };
            let mut line: Vec<u8> = Vec::new();
            if is_current {
                line.push(42);
            } else {
                line.push(32);
            }
            line.push(32);
            push_all(&mut line, name.as_str().as_bytes());
            proof {
                let pre: Seq<u8> = if is_current { seq![42u8, 32] } else { seq![32u8, 32] };
                assert(line@ =~= pre + encode_utf8(name@));
                lemma_concat_utf8(pre, name@);
                crate::bytes::lemma_ascii_utf8(pre);
                vstd::utf8::encode_utf8_decode_utf8(name@);
            }
            let text = text_of(line.as_slice());
            proof {
                let pre: Seq<u8> = if is_current { seq![42u8, 32] } else { seq![32u8, 32] };
                let pc: Seq<char> = if is_current { seq!['*', ' '] } else { seq![' ', ' '] };
                assert(crate::bytes::ascii_chars(pre) =~= pc);
                assert(encode_utf8(pc + name@) =~= pre + encode_utf8(name@)) by {
                    lemma_encode_concat(pc, name@);
                    crate::bytes::lemma_ascii_utf8(pre);
                }
                vstd::utf8::encode_utf8_decode_utf8(pc + name@);
                assert(text@ == pc + name@);
                assert(sorted@[j as int]@ == crate::sort::sort_by(branch_key(), all)[j as int]);
            }
            out.push(text);
            j = j + 1;
        }
        out
    }
}

/// Encoding a concatenation is concatenating the encodings.
pub proof fn lemma_encode_concat(a: Seq<char>, b: Seq<char>)
    ensures
        encode_utf8(a + b) == encode_utf8(a) + encode_utf8(b),
    decreases a.len(),
{
    if a.len() > 0 {
        lemma_encode_concat(a.drop_first(), b);
        assert((a + b).drop_first() =~= a.drop_first() + b);
        assert((a + b)[0] == a[0]);
    } else {
        assert(a + b =~= b);
    }
}

/// HEAD of a new repository: naming the given branch, `main` by default.
pub fn initial_head(initial_branch: Option<&str>) -> (r: Head)
    ensures
        match initial_branch {
            Some(b) => r matches Head::Ref(Ref::Branch(n)) && n@ == b@,
            None => r matches Head::Ref(Ref::Branch(n)) && n@ == seq!['m', 'a', 'i', 'n'],
        },
{
    match initial_branch {
        Some(b) => Head::Ref(Ref::Branch(b.to_owned())),
        None => {
            let name = crate::bytes::ascii_string(&[109u8, 97, 105, 110]);
            assert(crate::bytes::ascii_chars(seq![109u8, 97, 105, 110]) =~= seq!['m', 'a', 'i', 'n']);
            Head::Ref(Ref::Branch(name))
        },
    }
}

} // verus!
