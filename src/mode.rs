//! File modes: the four that a tree or an index may hold.
use crate::bytes::{ascii_chars, ascii_string};
use crate::error::GitError;
use vstd::prelude::*;
use vstd::utf8::*;

verus! {

/// The three kinds of blob a tree can point at.
#[derive(Debug, Clone, Copy, PartialEq, Eq, Structural)]
pub enum BlobType {
    Plain,
    Executable,
    Symlink,
}

/// A file mode: a blob of some kind, or a subtree.
#[derive(Debug, Clone, Copy, PartialEq, Eq, Structural)]
pub enum Mode {
    Blob(BlobType),
    Tree,
}

/// The mode's octal spelling without leading zeros, as it stands in a tree.
pub open spec fn mode_text(m: Mode) -> Seq<u8> {
    match m {
        Mode::Tree => seq![52u8, 48, 48, 48, 48],
        Mode::Blob(BlobType::Plain) => seq![49u8, 48, 48, 54, 52, 52],
        Mode::Blob(BlobType::Executable) => seq![49u8, 48, 48, 55, 53, 53],
        Mode::Blob(BlobType::Symlink) => seq![49u8, 50, 48, 48, 48, 48],
    }
}

/// The mode whose spelling is `t`, if any.
pub open spec fn mode_from_text(t: Seq<u8>) -> Option<Mode> {
    if t == mode_text(Mode::Tree) {
        Some(Mode::Tree)
    } else if t == mode_text(Mode::Blob(BlobType::Plain)) {
        Some(Mode::Blob(BlobType::Plain))
    } else if t == mode_text(Mode::Blob(BlobType::Executable)) {
        Some(Mode::Blob(BlobType::Executable))
    } else if t == mode_text(Mode::Blob(BlobType::Symlink)) {
        Some(Mode::Blob(BlobType::Symlink))
    } else {
        None
    }
}

/// The mode's number, as it stands in the index.
pub open spec fn mode_number(m: Mode) -> u32 {
    match m {
        Mode::Tree => 0o40000,
        Mode::Blob(BlobType::Plain) => 0o100644,
        Mode::Blob(BlobType::Executable) => 0o100755,
        Mode::Blob(BlobType::Symlink) => 0o120000,
    }
}

/// The mode whose number is `v`, if any.
pub open spec fn mode_from_number(v: u32) -> Option<Mode> {
    if v == 0o40000 {
        Some(Mode::Tree)
    } else if v == 0o100644 {
        Some(Mode::Blob(BlobType::Plain))
    } else if v == 0o100755 {
        Some(Mode::Blob(BlobType::Executable))
    } else if v == 0o120000 {
        Some(Mode::Blob(BlobType::Symlink))
    } else {
        None
    }
}

pub proof fn lemma_mode_text(m: Mode)
    ensures
        mode_from_text(mode_text(m)) == Some(m),
        mode_from_number(mode_number(m)) == Some(m),
        5 <= mode_text(m).len() <= 6,
        forall|i: int| 0 <= i < mode_text(m).len() ==> 48 <= #[trigger] mode_text(m)[i] <= 57,
{
    assert(mode_text(Mode::Tree) != mode_text(Mode::Blob(BlobType::Plain)));
    assert(mode_text(Mode::Blob(BlobType::Plain))[3] != mode_text(Mode::Blob(BlobType::Executable))[3]);
    assert(mode_text(Mode::Blob(BlobType::Plain))[1] != mode_text(Mode::Blob(BlobType::Symlink))[1]);
    assert(mode_text(Mode::Blob(BlobType::Executable))[1] != mode_text(Mode::Blob(BlobType::Symlink))[1]);
}

impl Mode {
    /// Reads a mode from its octal spelling in bytes.
    pub fn from_text(t: &[u8]) -> (r: Result<Mode, GitError>)
        ensures
            match r {
                Ok(m) => mode_from_text(t@) == Some(m),
                Err(e) => mode_from_text(t@) is None && e == GitError::InvalidMode,
            },
    {
        let tree: [u8; 5] = [52, 48, 48, 48, 48];
        let plain: [u8; 6] = [49, 48, 48, 54, 52, 52];
        let exec: [u8; 6] = [49, 48, 48, 55, 53, 53];
        let link: [u8; 6] = [49, 50, 48, 48, 48, 48];
        assert(tree@ =~= mode_text(Mode::Tree));
        assert(plain@ =~= mode_text(Mode::Blob(BlobType::Plain)));
        assert(exec@ =~= mode_text(Mode::Blob(BlobType::Executable)));
        assert(link@ =~= mode_text(Mode::Blob(BlobType::Symlink)));
        if crate::bytes::bytes_eq(t, tree.as_slice()) {
            Ok(Mode::Tree)
        } else if crate::bytes::bytes_eq(t, plain.as_slice()) {
            Ok(Mode::Blob(BlobType::Plain))
        } else if crate::bytes::bytes_eq(t, exec.as_slice()) {
            Ok(Mode::Blob(BlobType::Executable))
        } else if crate::bytes::bytes_eq(t, link.as_slice()) {
            Ok(Mode::Blob(BlobType::Symlink))
        } else {
            Err(GitError::InvalidMode)
        }
    }

    /// Reads a mode from its octal spelling (`40000`, `100644`, `100755`, `120000`).
    pub fn from_str(s: &str) -> (r: Result<Mode, GitError>)
        ensures
            match r {
                Ok(m) => mode_from_text(encode_utf8(s@)) == Some(m),
                Err(e) => mode_from_text(encode_utf8(s@)) is None && e == GitError::InvalidMode,
            },
    {
        Self::from_text(s.as_bytes())
    }

    /// Reads a mode from its number.
    pub fn from_u32(v: u32) -> (r: Result<Mode, GitError>)
        ensures
            match r {
                Ok(m) => mode_from_number(v) == Some(m),
                Err(e) => mode_from_number(v) is None && e == GitError::InvalidMode,
            },
    {
        if v == 0o40000 {
            Ok(Mode::Tree)
        } else if v == 0o100644 {
            Ok(Mode::Blob(BlobType::Plain))
        } else if v == 0o100755 {
            Ok(Mode::Blob(BlobType::Executable))
        } else if v == 0o120000 {
            Ok(Mode::Blob(BlobType::Symlink))
        } else {
            Err(GitError::InvalidMode)
        }
    }

    /// The mode's number.
    pub fn to_u32(self) -> (r: u32)
        ensures
            r == mode_number(self),
    {
        match self {
            Mode::Tree => 0o40000,
            Mode::Blob(BlobType::Plain) => 0o100644,
            Mode::Blob(BlobType::Executable) => 0o100755,
            Mode::Blob(BlobType::Symlink) => 0o120000,
        }
    }

    /// The mode's octal spelling, as bytes.
    pub fn to_text(self) -> (r: Vec<u8>)
        ensures
            r@ == mode_text(self),
    {
        let r = match self {
            Mode::Tree => vec![52u8, 48, 48, 48, 48],
            Mode::Blob(BlobType::Plain) => vec![49u8, 48, 48, 54, 52, 52],
            Mode::Blob(BlobType::Executable) => vec![49u8, 48, 48, 55, 53, 53],
            Mode::Blob(BlobType::Symlink) => vec![49u8, 50, 48, 48, 48, 48],
        };
        assert(r@ =~= mode_text(self));
        r
    }

    /// The mode's octal spelling.
    pub fn to_string(self) -> (r: String)
        ensures
            r@ == ascii_chars(mode_text(self)),
    {
        proof {
            lemma_mode_text(self);
        }
        let t = self.to_text();
        ascii_string(t.as_slice())
    }

    /// The mode padded to six digits and followed by its object kind, as listings show it
    /// (`100644 blob`, `040000 tree`).
    pub fn to_format_with_name(self) -> (r: String)
        ensures
            r@ == ascii_chars(formatted_mode(self)),
    {
        let mut t: Vec<u8> = Vec::new();
        if self == Mode::Tree {
            t.push(48);
        }
        let digits = self.to_text();
        let mut i: usize = 0;
        let ghost start = t@;
        while i < digits.len()
            invariant
                0 <= i <= digits@.len(),
                digits@ == mode_text(self),
                t@ == start + digits@.subrange(0, i as int),
            decreases digits@.len() - i,
        {
            t.push(digits[i]);
            i = i + 1;
            assert(t@ =~= start + digits@.subrange(0, i as int));
        }
        assert(digits@.subrange(0, digits@.len() as int) =~= digits@);
        t.push(32);
        match self {
            Mode::Tree => {
                t.push(116);
                t.push(114);
                t.push(101);
                t.push(101);
            },
            Mode::Blob(_) => {
                t.push(98);
                t.push(108);
                t.push(111);
                t.push(98);
            },
        }
        assert(t@ =~= formatted_mode(self));
        proof {
            lemma_mode_text(self);
        }
        ascii_string(t.as_slice())
    }

    /// The mode of a regular file: executable when the owner may execute it.
    /// `is_dir` and `permissions` are what the file system reports of the file.
    pub fn from_file_metadata(is_dir: bool, permissions: u32) -> (r: Result<Mode, GitError>)
        ensures
            is_dir ==> r is Err,
            !is_dir && permissions & 0o100 != 0 ==> r == Ok::<Mode, GitError>(Mode::Blob(BlobType::Executable)),
            !is_dir && permissions & 0o100 == 0 ==> r == Ok::<Mode, GitError>(Mode::Blob(BlobType::Plain)),
    {
        if is_dir {
            return Err(GitError::InvalidMode);
        }
        if permissions & 0o100 != 0 {
            Ok(Mode::Blob(BlobType::Executable))
        } else {
            Ok(Mode::Blob(BlobType::Plain))
        }
    }
}

/// A mode as listings show it: six digits, a space, and `blob` or `tree`.
pub open spec fn formatted_mode(m: Mode) -> Seq<u8> {
    match m {
        Mode::Tree => seq![48u8] + mode_text(m) + seq![32u8, 116, 114, 101, 101],
        Mode::Blob(_) => mode_text(m) + seq![32u8, 98, 108, 111, 98],
    }
}

} // verus!
