//! Objects: a kind and a body, their canonical form, identity and typed bodies.
use crate::bytes::{
    all_digits, ascii_chars, ascii_string, decimal, digits_value, find_byte, index_of, is_digit,
    lemma_decimal, lemma_index_of, lemma_index_of_bounds, parse_decimal, push_all, push_decimal,
    utf8_text,
};
use crate::error::GitError;
use crate::hash::sha1_of;
use crate::mode::{lemma_mode_text, mode_from_text, mode_text, Mode};
use crate::sort::{ascending_by, insert_keyed, lemma_sort_by, sort_by, views};
use crate::zip::{compress, decompress, zlib_compressed, zlib_decompressed};
use vstd::prelude::*;
use vstd::utf8::*;

verus! {

/// The three kinds of object.
#[derive(Debug, Clone, Copy, PartialEq, Eq, Structural)]
pub enum ObjectType {
    Blob,
    Tree,
    Commit,
}

/// The kind's name as it stands in an object header.
pub open spec fn kind_text(t: ObjectType) -> Seq<u8> {
    match t {
        ObjectType::Blob => seq![98u8, 108, 111, 98],
        ObjectType::Tree => seq![116u8, 114, 101, 101],
        ObjectType::Commit => seq![99u8, 111, 109, 109, 105, 116],
    }
}

/// The kind whose name is `t`, if any.
pub open spec fn kind_from_text(t: Seq<u8>) -> Option<ObjectType> {
    if t == kind_text(ObjectType::Blob) {
        Some(ObjectType::Blob)
    } else if t == kind_text(ObjectType::Tree) {
        Some(ObjectType::Tree)
    } else if t == kind_text(ObjectType::Commit) {
        Some(ObjectType::Commit)
    } else {
        None
    }
}

pub proof fn lemma_kind_text(t: ObjectType)
    ensures
        kind_from_text(kind_text(t)) == Some(t),
        forall|i: int| 0 <= i < kind_text(t).len() ==> 97 <= #[trigger] kind_text(t)[i] <= 122,
        kind_text(t).len() >= 4,
{
    assert(kind_text(ObjectType::Blob)[0] != kind_text(ObjectType::Tree)[0]);
    assert(kind_text(ObjectType::Blob)[0] != kind_text(ObjectType::Commit)[0]);
    assert(kind_text(ObjectType::Tree)[0] != kind_text(ObjectType::Commit)[0]);
}

fn kind_bytes(t: ObjectType) -> (r: Vec<u8>)
    ensures
        r@ == kind_text(t),
{
    let r = match t {
        ObjectType::Blob => vec![98u8, 108, 111, 98],
        ObjectType::Tree => vec![116u8, 114, 101, 101],
        ObjectType::Commit => vec![99u8, 111, 109, 109, 105, 116],
    };
    assert(r@ =~= kind_text(t));
    r
}

impl ObjectType {
    /// Reads a kind from its name (`blob`, `tree`, `commit`).
    pub fn from_text(t: &[u8]) -> (r: Result<ObjectType, GitError>)
        ensures
            match r {
                Ok(k) => kind_from_text(t@) == Some(k),
                Err(e) => kind_from_text(t@) is None && e == GitError::InvalidObjectKind,
            },
    {
        let blob = kind_bytes(ObjectType::Blob);
        let tree = kind_bytes(ObjectType::Tree);
        let commit = kind_bytes(ObjectType::Commit);
        if crate::bytes::bytes_eq(t, blob.as_slice()) {
            Ok(ObjectType::Blob)
        } else if crate::bytes::bytes_eq(t, tree.as_slice()) {
            Ok(ObjectType::Tree)
        } else if crate::bytes::bytes_eq(t, commit.as_slice()) {
            Ok(ObjectType::Commit)
        } else {
            Err(GitError::InvalidObjectKind)
        }
    }

    /// Reads a kind from its name (`blob`, `tree`, `commit`).
    pub fn from_str(s: &str) -> (r: Result<ObjectType, GitError>)
        ensures
            match r {
                Ok(k) => kind_from_text(encode_utf8(s@)) == Some(k),
                Err(e) => kind_from_text(encode_utf8(s@)) is None && e == GitError::InvalidObjectKind,
            },
    {
        Self::from_text(s.as_bytes())
    }

    /// The kind's name.
    pub fn to_string(&self) -> (r: String)
        ensures
            r@ == ascii_chars(kind_text(*self)),
    {
        proof {
            lemma_kind_text(*self);
        }
        let t = kind_bytes(*self);
        ascii_string(t.as_slice())
    }
}

/// The canonical form of an object: `<kind> <decimal body length>\0<body>`.
pub open spec fn canonical(t: ObjectType, body: Seq<u8>) -> Seq<u8> {
    kind_text(t) + seq![32u8] + decimal(body.len()) + seq![0u8] + body
}

/// What the canonical form `b` holds: the kind and body, where `b` is one.
/// The header runs to the first NUL; the kind runs to the header's first space, and the
/// rest of the header is the body length in decimal digits.
pub open spec fn parse_canonical(b: Seq<u8>) -> Option<(ObjectType, Seq<u8>)> {
    let k = index_of(b, 0) as int;
    let header = b.subrange(0, k);
    let body = b.subrange(k + 1, b.len() as int);
    let p = index_of(header, 32) as int;
    let size = header.subrange(p + 1, header.len() as int);
    if k < b.len() && p < header.len() && kind_from_text(header.subrange(0, p)) is Some
        && size.len() > 0 && all_digits(size) && digits_value(size) == body.len() {
        Some((kind_from_text(header.subrange(0, p)).unwrap(), body))
    } else {
        None
    }
}

/// Reading back a canonical form gives the kind and body it was made of.
#[verifier::rlimit(80)]
#[verifier::spinoff_prover]
pub proof fn lemma_parse_canonical(t: ObjectType, body: Seq<u8>)
    ensures
        parse_canonical(canonical(t, body)) == Some((t, body)),
{
    let b = canonical(t, body);
    let kt = kind_text(t);
    let d = decimal(body.len());
    lemma_kind_text(t);
    lemma_decimal(body.len());
    let k: int = kt.len() as int + 1 + d.len() as int;
    assert forall|j: int| 0 <= j < k implies b[j] != 0 by {
        if j < kt.len() {
            assert(b[j] == kt[j]);
        } else if j == kt.len() {
        } else {
            assert(b[j] == d[j - kt.len() - 1]);
            assert(is_digit(d[j - kt.len() - 1]));
        }
    }
    lemma_index_of(b, 0, k);
    let header = b.subrange(0, k);
    assert forall|j: int| 0 <= j < kt.len() implies header[j] != 32 by {
        assert(header[j] == kt[j]);
    }
    lemma_index_of(header, 32, kt.len() as int);
    assert(header.subrange(0, kt.len() as int) =~= kt);
    assert(header.subrange(kt.len() as int + 1, header.len() as int) =~= d);
    assert(b.subrange(k + 1, b.len() as int) =~= body);
}

/// An object: its kind and its body.
#[derive(Debug, Clone, PartialEq, Eq)]
pub struct GitObject {
    pub type_: ObjectType,
    pub body: Vec<u8>,
}

impl GitObject {
    pub fn new(type_: ObjectType, body: Vec<u8>) -> (r: GitObject)
        ensures
            r.type_ == type_,
            r.body@ == body@,
    {
        GitObject { type_, body }
    }

    /// The body's length in bytes.
    pub fn size(&self) -> (r: usize)
        ensures
            r == self.body@.len(),
    {
        self.body.len()
    }

    /// The canonical form: header, NUL, body.
    pub fn to_canonical(&self) -> (r: Vec<u8>)
        ensures
            r@ == canonical(self.type_, self.body@),
    {
        let mut out = kind_bytes(self.type_);
        out.push(32);
        push_decimal(&mut out, self.body.len() as u64);
        out.push(0);
        push_all(&mut out, self.body.as_slice());
        assert(out@ =~= canonical(self.type_, self.body@));
        out
    }

    /// Reads an object from its canonical form; fails with `CorruptObject` on any other bytes.
    pub fn from_canonical(bytes: &[u8]) -> (r: Result<GitObject, GitError>)
        ensures
            match r {
                Ok(o) => parse_canonical(bytes@) == Some((o.type_, o.body@)),
                Err(e) => parse_canonical(bytes@) is None && e == GitError::CorruptObject,
            },
    {
        proof {
            lemma_index_of_bounds(bytes@, 0);
        }
        let k = match find_byte(bytes, 0, 0) {
            Some(k) => k,
            None => {
                proof {
                    lemma_index_of(bytes@, 0, bytes@.len() as int);
                }
                return Err(GitError::CorruptObject);
            },
        };
        proof {
            lemma_index_of(bytes@, 0, k as int);
        }
        let n = bytes.len();
        let header = &bytes[0..k];
        let body = &bytes[k + 1..n];
        let p = match find_byte(header, 0, 32) {
            Some(p) => p,
            None => {
                proof {
                    lemma_index_of(header@, 32, header@.len() as int);
                }
                return Err(GitError::CorruptObject);
            },
        };
        proof {
            lemma_index_of(header@, 32, p as int);
        }
        let type_ = match ObjectType::from_text(&header[0..p]) {
            Ok(t) => t,
            Err(_) => {
                return Err(GitError::CorruptObject);
            },
        };
        let size = match parse_decimal(&header[p + 1..k]) {
            Some(v) => v,
            None => {
                return Err(GitError::CorruptObject);
            },
        };
        if size != body.len() {
            return Err(GitError::CorruptObject);
        }
        let mut out: Vec<u8> = Vec::new();
        push_all(&mut out, body);
        Ok(GitObject { type_, body: out })
    }

    /// The object's identity: the SHA-1 digest of its canonical form.
    pub fn hash(&self) -> (r: crate::hash::Hash)
        ensures
            r@ == sha1_of(canonical(self.type_, self.body@)),
    {
        let full = self.to_canonical();
        crate::hash::Hash::hash_bytes(full.as_slice())
    }

    /// The body as text, for a blob.
    pub fn parse_blob_body(&self) -> (r: Result<String, GitError>)
        ensures
            match r {
                Ok(s) => self.type_ == ObjectType::Blob && valid_utf8(self.body@) && s@ == decode_utf8(
                    self.body@,
                ),
                Err(e) => (self.type_ != ObjectType::Blob && e == GitError::WrongObjectKind) || (
                self.type_ == ObjectType::Blob && !valid_utf8(self.body@) && e == GitError::NotText),
            },
    {
        if self.type_ != ObjectType::Blob {
            return Err(GitError::WrongObjectKind);
        }
        match utf8_text(self.body.as_slice()) {
            Some(s) => Ok(s),
            None => Err(GitError::NotText),
        }
    }

    /// Reads an object from its on-disk form: a zlib stream of the canonical form.
    pub fn from_raw(bytes: &[u8]) -> (r: Result<GitObject, GitError>)
        ensures
            match r {
                Ok(o) => exists|c: Seq<u8>|
                    zlib_decompressed(bytes@) == Some(c) && #[trigger] parse_canonical(c) == Some(
                        (o.type_, o.body@),
                    ),
                Err(e) => e == GitError::CorruptObject && (zlib_decompressed(bytes@) is None
                    || parse_canonical(zlib_decompressed(bytes@).unwrap()) is None),
            },
    {
        let inflated = decompress(bytes)?;
        let r = Self::from_canonical(inflated.as_slice());
        assert(r matches Ok(o) ==> parse_canonical(inflated@) == Some((o.type_, o.body@)));
        r
    }

    /// The on-disk form: the canonical form deflated. Inflating it gives the canonical form
    /// back, and reading that gives this object.
    pub fn to_raw(&self) -> (r: Result<Vec<u8>, GitError>)
        ensures
            match r {
                Ok(v) => zlib_compressed(canonical(self.type_, self.body@)) == Some(v@)
                    && zlib_decompressed(v@) == Some(canonical(self.type_, self.body@))
                    && parse_canonical(canonical(self.type_, self.body@)) == Some(
                    (self.type_, self.body@),
                ),
                Err(e) => zlib_compressed(canonical(self.type_, self.body@)) is None && e
                    == GitError::CorruptObject,
            },
    {
        let full = self.to_canonical();
        proof {
            lemma_parse_canonical(self.type_, self.body@);
        }
        compress(full.as_slice())
    }
}


/// What a tree entry says: its mode, its name, and the raw bytes of the hash it points at.
pub type EntryView = (Mode, Seq<char>, Seq<u8>);

/// One line of a tree: a mode, a name, and the hash of the object the name stands for.
#[derive(Debug, Clone, PartialEq, Eq)]
pub struct TreeEntry {
    pub file_type: Mode,
    pub name: String,
    pub hash: crate::hash::Hash,
}

impl View for TreeEntry {
    type V = EntryView;

    open spec fn view(&self) -> EntryView {
        (self.file_type, self.name@, self.hash@)
    }
}

pub open spec fn entry_views(s: Seq<TreeEntry>) -> Seq<EntryView> {
    s.map_values(|e: TreeEntry| e@)
}

/// The key trees are ordered by: the name's bytes, with a `/` after a subtree's name.
pub open spec fn sort_key(e: EntryView) -> Seq<u8> {
    match e.0 {
        Mode::Tree => encode_utf8(e.1).push(47u8),
        Mode::Blob(_) => encode_utf8(e.1),
    }
}

/// The tree order as a key function.
pub open spec fn tree_key() -> spec_fn(EntryView) -> Seq<u8> {
    |e: EntryView| sort_key(e)
}

/// The entries ordered by key; entries with equal keys keep their order.
pub open spec fn sort_entries(s: Seq<EntryView>) -> Seq<EntryView> {
    sort_by(tree_key(), s)
}

/// Each entry's key is at most the next one's.
pub open spec fn keys_ascending(s: Seq<EntryView>) -> bool {
    ascending_by(tree_key(), s)
}

/// One entry in a tree body: `<mode> <name>\0<20 hash bytes>`.
pub open spec fn entry_bytes(e: EntryView) -> Seq<u8> {
    mode_text(e.0) + seq![32u8] + encode_utf8(e.1) + seq![0u8] + e.2
}

/// The body of a tree listing `s` in the order given.
pub open spec fn tree_body(s: Seq<EntryView>) -> Seq<u8>
    decreases s.len(),
{
    if s.len() == 0 {
        seq![]
    } else {
        tree_body(s.drop_last()) + entry_bytes(s.last())
    }
}

/// A sorted tree lists every entry it was given, as often as given, in key order.
pub proof fn lemma_sort_entries(s: Seq<EntryView>)
    ensures
        keys_ascending(sort_entries(s)),
        sort_entries(s).to_multiset() == s.to_multiset(),
        sort_entries(s).len() == s.len(),
{
    lemma_sort_by(tree_key(), s);
}

/// Where no two entries share a key, a sorted tree lists them strictly in key order.
pub proof fn lemma_sort_entries_strict(s: Seq<EntryView>)
    requires
        forall|i: int, j: int|
            0 <= i < s.len() && 0 <= j < s.len() && i != j ==> sort_key(#[trigger] s[i]) != sort_key(
                #[trigger] s[j],
            ),
    ensures
        forall|i: int, j: int|
            0 <= i < j < sort_entries(s).len() ==> crate::bytes::lex_lt(
                sort_key(#[trigger] sort_entries(s)[i]),
                sort_key(#[trigger] sort_entries(s)[j]),
            ),
{
    broadcast use vstd::seq_lib::group_to_multiset_ensures;

    lemma_sort_entries(s);
    let r = sort_entries(s);
    assert(s.no_duplicates()) by {
        assert forall|i: int, j: int| 0 <= i < s.len() && 0 <= j < s.len() && i != j implies s[i] != s[j] by {
            assert(sort_key(s[i]) != sort_key(s[j]));
        }
    }
    s.lemma_multiset_has_no_duplicates();
    r.lemma_multiset_has_no_duplicates_conv();
    assert forall|i: int, j: int| 0 <= i < j < r.len() implies crate::bytes::lex_lt(
        sort_key(#[trigger] r[i]),
        sort_key(#[trigger] r[j]),
    ) by {
        assert(r[i] != r[j]);
        assert(r.to_multiset().count(r[i]) > 0 && r.to_multiset().count(r[j]) > 0);
        assert(s.contains(r[i]) && s.contains(r[j]));
        let a = choose|a: int| 0 <= a < s.len() && s[a] == r[i];
        let b = choose|b: int| 0 <= b < s.len() && s[b] == r[j];
        assert(sort_key(s[a]) != sort_key(s[b]));
        assert(!crate::bytes::lex_lt(sort_key(r[j]), sort_key(r[i])));
        crate::bytes::lemma_lex_total(sort_key(r[i]), sort_key(r[j]));
    }
}

impl TreeEntry {
    /// A copy of this entry.
    pub fn duplicate(&self) -> (r: TreeEntry)
        ensures
            r@ == self@,
    {
        TreeEntry { file_type: self.file_type, name: self.name.clone(), hash: self.hash }
    }

    /// The key trees are ordered by.
    pub fn sort_key(&self) -> (r: Vec<u8>)
        ensures
            r@ == sort_key(self@),
    {
        let mut out: Vec<u8> = Vec::new();
        push_all(&mut out, self.name.as_str().as_bytes());
        if self.file_type == Mode::Tree {
            out.push(47);
        }
        assert(out@ =~= sort_key(self@));
        out
    }
}

/// The entries ordered by key, entries with equal keys in their given order.
fn sorted_entries(entries: &[TreeEntry]) -> (r: Vec<TreeEntry>)
    ensures
        entry_views(r@) == sort_entries(entry_views(entries@)),
{
    let mut out: Vec<TreeEntry> = Vec::new();
    let mut keys: Vec<Vec<u8>> = Vec::new();
    let mut i: usize = 0;
    while i < entries.len()
        invariant
            0 <= i <= entries@.len(),
            entry_views(out@) == sort_entries(entry_views(entries@.subrange(0, i as int))),
            keys@.len() == out@.len(),
            forall|k: int| 0 <= k < keys@.len() ==> #[trigger] keys@[k]@ == tree_key()(out@[k]@),
        decreases entries@.len() - i,
    {
        let e = entries[i].duplicate();
        let key = e.sort_key();
        assert(entry_views(out@) =~= views(out@));
        insert_keyed(&mut out, &mut keys, e, key, Ghost(tree_key()));
        i = i + 1;
        proof {
            let p = entry_views(entries@.subrange(0, i as int));
            assert(p.drop_last() =~= entry_views(entries@.subrange(0, i as int - 1)));
            assert(entry_views(out@) =~= views(out@));
        }
    }
    assert(entries@.subrange(0, entries@.len() as int) =~= entries@);
    out
}

impl GitObject {
    /// A tree object listing `entries`, ordered by their keys.
    pub fn new_tree(entries: &[TreeEntry]) -> (r: GitObject)
        ensures
            r.type_ == ObjectType::Tree,
            r.body@ == tree_body(sort_entries(entry_views(entries@))),
    {
        let sorted = sorted_entries(entries);
        let mut body: Vec<u8> = Vec::new();
        let mut i: usize = 0;
        while i < sorted.len()
            invariant
                0 <= i <= sorted@.len(),
                body@ == tree_body(entry_views(sorted@.subrange(0, i as int))),
            decreases sorted@.len() - i,
        {
            let e = &sorted[i];
            let mode = e.file_type.to_text();
            push_all(&mut body, mode.as_slice());
            body.push(32);
            push_all(&mut body, e.name.as_str().as_bytes());
            body.push(0);
            push_all(&mut body, e.hash.value.as_slice());
            i = i + 1;
            proof {
                let p = entry_views(sorted@.subrange(0, i as int));
                assert(p.drop_last() =~= entry_views(sorted@.subrange(0, i as int - 1)));
                assert(p.last() == e@);
                assert(body@ =~= tree_body(p));
            }
        }
        assert(sorted@.subrange(0, sorted@.len() as int) =~= sorted@);
        GitObject { type_: ObjectType::Tree, body }
    }
}

/// The entries of a tree body, read front to back; `None` where the body is malformed.
/// Each entry is a mode up to the first space, a UTF-8 name up to the next NUL, and 20 hash bytes.
pub open spec fn parse_tree(b: Seq<u8>) -> Option<Seq<EntryView>>
    decreases b.len(),
{
    if b.len() == 0 {
        Some(seq![])
    } else {
        let sp = index_of(b, 32) as int;
        let rest = b.subrange(sp + 1, b.len() as int);
        let nul = index_of(rest, 0) as int;
        let name = rest.subrange(0, nul);
        if sp < b.len() && mode_from_text(b.subrange(0, sp)) is Some && nul < rest.len()
            && valid_utf8(name) && rest.len() >= nul + 21 {
            let e = (
                mode_from_text(b.subrange(0, sp)).unwrap(),
                decode_utf8(name),
                rest.subrange(nul + 1, nul + 21),
            );
            match parse_tree(rest.subrange(nul + 21, rest.len() as int)) {
                Some(es) => Some(seq![e] + es),
                None => None,
            }
        } else {
            None
        }
    }
}

impl GitObject {
    /// The entries of a tree, in the order of its body.
    #[verifier::rlimit(80)]
    #[verifier::spinoff_prover]
    pub fn parse_tree_body(&self) -> (r: Result<Vec<TreeEntry>, GitError>)
        ensures
            match r {
                Ok(es) => self.type_ == ObjectType::Tree && parse_tree(self.body@) == Some(
                    entry_views(es@),
                ),
                Err(e) => (self.type_ != ObjectType::Tree && e == GitError::WrongObjectKind) || (
                self.type_ == ObjectType::Tree && parse_tree(self.body@) is None && e
                    == GitError::CorruptObject),
            },
    {
        if self.type_ != ObjectType::Tree {
            return Err(GitError::WrongObjectKind);
        }
        let b = self.body.as_slice();
        let n = b.len();
        let mut entries: Vec<TreeEntry> = Vec::new();
        let mut pos: usize = 0;
        assert(b@.subrange(0, n as int) =~= b@);
        proof {
            if let Some(es) = parse_tree(b@) {
                assert(entry_views(entries@) + es =~= es);
            }
        }
        while pos < n
            invariant
                self.type_ == ObjectType::Tree,
                n == b@.len(),
                b@ == self.body@,
                0 <= pos <= n,
                match parse_tree(b@.subrange(pos as int, n as int)) {
                    Some(es) => parse_tree(b@) == Some(entry_views(entries@) + es),
                    None => parse_tree(b@) is None,
                },
            decreases n - pos,
        {
            let ghost s = b@.subrange(pos as int, n as int);
            proof {
                lemma_index_of_bounds(s, 32);
            }
            let sp_abs = match find_byte(b, pos, 32) {
                Some(k) => k,
                None => {
                    proof {
                        lemma_index_of(s, 32, s.len() as int);
                    }
                    assert(parse_tree(s) is None);
                    return Err(GitError::CorruptObject);
                },
            };
            let ghost sp = sp_abs - pos;
            proof {
                lemma_index_of(s, 32, sp);
            }
            let mode = match Mode::from_text(&b[pos..sp_abs]) {
                Ok(m) => m,
                Err(_) => {
                    assert(b@.subrange(pos as int, sp_abs as int) =~= s.subrange(0, sp));
                    assert(parse_tree(s) is None);
                    return Err(GitError::CorruptObject);
                },
            };
            assert(b@.subrange(pos as int, sp_abs as int) =~= s.subrange(0, sp));
            let ghost rest = s.subrange(sp + 1, s.len() as int);
            assert(rest =~= b@.subrange(sp_abs + 1, n as int));
            let nul_abs = match find_byte(b, sp_abs + 1, 0) {
                Some(k) => k,
                None => {
                    proof {
                        lemma_index_of(rest, 0, rest.len() as int);
                    }
                    assert(parse_tree(s) is None);
                    return Err(GitError::CorruptObject);
                },
            };
            let ghost nul = nul_abs - sp_abs - 1;
            proof {
                lemma_index_of(rest, 0, nul);
            }
            assert(b@.subrange(sp_abs + 1, nul_abs as int) =~= rest.subrange(0, nul));
            let name = match utf8_text(&b[sp_abs + 1..nul_abs]) {
                Some(t) => t,
                None => {
                    assert(parse_tree(s) is None);
                    return Err(GitError::CorruptObject);
                },
            };
            if n - nul_abs < 21 {
                assert(parse_tree(s) is None);
                return Err(GitError::CorruptObject);
            }
            let hash = match crate::hash::Hash::from_raw(&b[nul_abs + 1..nul_abs + 21]) {
                Ok(h) => h,
                Err(_) => {
                    return Err(GitError::CorruptObject);
                },
            };
            assert(b@.subrange(nul_abs + 1, nul_abs + 21) =~= rest.subrange(nul + 1, nul + 21));
            let entry = TreeEntry { file_type: mode, name, hash };
            let ghost before = entry_views(entries@);
            entries.push(entry);
            let ghost old_pos = pos;
            pos = nul_abs + 21;
            proof {
                assert(rest.subrange(nul + 21, rest.len() as int) =~= b@.subrange(pos as int, n as int));
                assert(entry_views(entries@) =~= before.push(entry@));
                match parse_tree(b@.subrange(pos as int, n as int)) {
                    Some(es) => {
                        assert(parse_tree(s) == Some(seq![entry@] + es));
                        assert(before + (seq![entry@] + es) =~= entry_views(entries@) + es);
                    },
                    None => {},
                }
            }
        }
        assert(parse_tree(b@.subrange(pos as int, n as int)) == Some(Seq::<EntryView>::empty()));
        assert(entry_views(entries@) + Seq::<EntryView>::empty() =~= entry_views(entries@));
        Ok(entries)
    }
}

impl GitObject {
    /// The commit that a commit object holds.
    pub fn parse_commit_body(&self) -> (r: Result<crate::commit::Commit, GitError>)
        ensures
            match r {
                Ok(c) => self.type_ == ObjectType::Commit && crate::commit::parse_commit(self.body@)
                    == Some(c@),
                Err(e) => (self.type_ != ObjectType::Commit && e == GitError::WrongObjectKind) || (
                self.type_ == ObjectType::Commit && crate::commit::parse_commit(self.body@) is None
                    && e == GitError::MalformedCommit),
            },
    {
        if self.type_ != ObjectType::Commit {
            return Err(GitError::WrongObjectKind);
        }
        crate::commit::Commit::from_bytes(self.body.as_slice())
    }

    /// The commit object holding `commit`'s text.
    pub fn from_commit(commit: &crate::commit::Commit) -> (r: GitObject)
        requires
            commit.wf(),
        ensures
            r.type_ == ObjectType::Commit,
            r.body@ == crate::commit::commit_bytes(commit@),
    {
        GitObject { type_: ObjectType::Commit, body: commit.to_bytes() }
    }
}

/// A listing line for a tree entry: `<mode padded to six> <kind> <hex hash>\t<name>`.
pub open spec fn entry_line(e: EntryView) -> Seq<u8> {
    crate::mode::formatted_mode(e.0) + seq![32u8] + crate::hash::hex_of(e.2) + seq![9u8] + encode_utf8(e.1)
}

impl TreeEntry {
    /// The entry as `cat-file -p` lists it.
    pub fn to_string(&self) -> (r: String)
        ensures
            encode_utf8(r@) == entry_line(self@),
    {
        let mode = self.file_type.to_format_with_name();
        let mut out: Vec<u8> = Vec::new();
        push_all(&mut out, mode.as_str().as_bytes());
        out.push(32);
        push_all(&mut out, self.hash.to_raw_hex().as_slice());
        out.push(9);
        push_all(&mut out, self.name.as_str().as_bytes());
        proof {
            lemma_mode_text(self.file_type);
            crate::hash::lemma_hex_of(self.hash@);
            let head = crate::mode::formatted_mode(self.file_type) + seq![32u8] + crate::hash::hex_of(self.hash@) + seq![9u8];
            crate::bytes::lemma_ascii_utf8(crate::mode::formatted_mode(self.file_type));
            assert(crate::bytes::is_ascii_bytes(head)) by {
                assert forall|i: int| 0 <= i < head.len() implies #[trigger] head[i] < 128 by {
                    let f = crate::mode::formatted_mode(self.file_type);
                    if i >= f.len() + 1 && i < f.len() + 41 {
                        assert(head[i] == crate::hash::hex_of(self.hash@)[i - f.len() - 1]);
                    } else if i < f.len() {
                        assert(head[i] == f[i]);
                    }
                }
            }
            crate::bytes::lemma_ascii_utf8(head);
            vstd::utf8::encode_utf8_valid_utf8(self.name@);
            vstd::utf8::valid_utf8_concat(head, encode_utf8(self.name@));
            assert(out@ =~= head + encode_utf8(self.name@));
        }
        match utf8_text(out.as_slice()) {
            Some(t) => t,
            None => String::new(),
        }
    }
}

/// An entry a tree body can carry and give back: a 20-byte hash and a name without NUL.
pub open spec fn entry_encodable(e: EntryView) -> bool {
    e.2.len() == 20 && !encode_utf8(e.1).contains(0u8)
}

proof fn lemma_tree_body_front(e: EntryView, t: Seq<EntryView>)
    ensures
        tree_body(seq![e] + t) == entry_bytes(e) + tree_body(t),
    decreases t.len(),
{
    let u = seq![e] + t;
    if t.len() == 0 {
        assert(u.drop_last() =~= Seq::<EntryView>::empty());
        assert(u.last() == e);
        assert(tree_body(u.drop_last()) == Seq::<u8>::empty());
        assert(tree_body(u) == tree_body(u.drop_last()) + entry_bytes(u.last()));
        assert(tree_body(u) =~= entry_bytes(e) + tree_body(t));
    } else {
        lemma_tree_body_front(e, t.drop_last());
        assert(u.drop_last() =~= seq![e] + t.drop_last());
        assert(u.last() == t.last());
        assert(tree_body(u) =~= entry_bytes(e) + tree_body(t));
    }
}

#[verifier::rlimit(80)]
#[verifier::spinoff_prover]
proof fn lemma_parse_entry_front(e: EntryView, rest: Seq<u8>)
    requires
        entry_encodable(e),
    ensures
        parse_tree(entry_bytes(e) + rest) == match parse_tree(rest) {
            Some(es) => Some(seq![e] + es),
            None => None::<Seq<EntryView>>,
        },
{
    let mt = mode_text(e.0);
    let nb = encode_utf8(e.1);
    let b = entry_bytes(e) + rest;
    lemma_mode_text(e.0);
    assert(b =~= mt + seq![32u8] + nb + seq![0u8] + e.2 + rest);
    assert forall|j: int| 0 <= j < mt.len() implies b[j] != 32 by {
        assert(b[j] == mt[j]);
    }
    lemma_index_of(b, 32, mt.len() as int);
    let r1 = b.subrange(mt.len() as int + 1, b.len() as int);
    assert(r1 =~= nb + seq![0u8] + e.2 + rest);
    assert forall|j: int| 0 <= j < nb.len() implies r1[j] != 0 by {
        assert(r1[j] == nb[j]);
        if nb[j] == 0 {
            assert(nb.contains(0u8));
        }
    }
    lemma_index_of(r1, 0, nb.len() as int);
    assert(b.subrange(0, mt.len() as int) =~= mt);
    assert(r1.subrange(0, nb.len() as int) =~= nb);
    assert(r1.subrange(nb.len() as int + 1, nb.len() as int + 21) =~= e.2);
    assert(r1.subrange(nb.len() as int + 21, r1.len() as int) =~= rest);
    encode_utf8_valid_utf8(e.1);
    encode_utf8_decode_utf8(e.1);
}

/// A tree body reads back as the entries it lists, in its order.
#[verifier::rlimit(80)]
#[verifier::spinoff_prover]
pub proof fn lemma_tree_round_trip(s: Seq<EntryView>)
    requires
        forall|i: int| 0 <= i < s.len() ==> entry_encodable(#[trigger] s[i]),
    ensures
        parse_tree(tree_body(s)) == Some(s),
    decreases s.len(),
{
    if s.len() == 0 {
        assert(parse_tree(tree_body(s)) == Some(Seq::<EntryView>::empty()));
        assert(s =~= Seq::<EntryView>::empty());
    } else {
        let e = s[0];
        let t = s.drop_first();
        assert(s =~= seq![e] + t);
        lemma_tree_body_front(e, t);
        assert forall|i: int| 0 <= i < t.len() implies entry_encodable(#[trigger] t[i]) by {
            assert(t[i] == s[i + 1]);
        }
        lemma_tree_round_trip(t);
        lemma_parse_entry_front(e, tree_body(t));
    }
}

} // verus!
