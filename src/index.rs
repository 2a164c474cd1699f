//! The staging index: its binary layout, and upserting entries into it.
use crate::bytes::{
    be_u16, be_u32, lemma_u16_bytes, lemma_u32_bytes, push_all, push_u16, push_u32, read_u16,
    read_u32, u16_bytes, u32_bytes, utf8_text,
};
use crate::error::GitError;
use crate::mode::{mode_from_number, mode_number, Mode};
use crate::sort::views;
use vstd::prelude::*;
use vstd::utf8::*;

verus! {

/// What an index entry says: the nine metadata numbers (ctime, ctime ns, mtime, mtime ns,
/// device, inode, uid, gid, size), the mode, the raw hash bytes and the path.
pub type IndexEntryView = (Seq<u32>, Mode, Seq<u8>, Seq<char>);

/// One staged file.
#[derive(Debug, Clone, PartialEq, Eq)]
pub struct IndexEntry {
    pub created_at: u32,
    pub created_at_nsec: u32,
    pub updated_at: u32,
    pub updated_at_nsec: u32,
    pub device_id: u32,
    pub inode: u32,
    pub mode: Mode,
    pub user_id: u32,
    pub group_id: u32,
    pub size: u32,
    pub hash: crate::hash::Hash,
    pub file_name: String,
}

impl View for IndexEntry {
    type V = IndexEntryView;

    open spec fn view(&self) -> IndexEntryView {
        (
            seq![
                self.created_at,
                self.created_at_nsec,
                self.updated_at,
                self.updated_at_nsec,
                self.device_id,
                self.inode,
                self.user_id,
                self.group_id,
                self.size,
            ],
            self.mode,
            self.hash@,
            self.file_name@,
        )
    }
}

/// The bytes of an entry's path.
pub open spec fn name_bytes(e: IndexEntryView) -> Seq<u8> {
    encode_utf8(e.3)
}

/// The fixed part of an entry: ten big-endian numbers, the hash, and the path's length.
pub open spec fn entry_head(e: IndexEntryView) -> Seq<u8> {
    u32_bytes(e.0[0]) + u32_bytes(e.0[1]) + u32_bytes(e.0[2]) + u32_bytes(e.0[3]) + u32_bytes(e.0[4])
        + u32_bytes(e.0[5]) + u32_bytes(mode_number(e.1)) + u32_bytes(e.0[6]) + u32_bytes(e.0[7])
        + u32_bytes(e.0[8]) + e.2 + u16_bytes((name_bytes(e).len() % 65536) as u16)
}

/// The NUL bytes after an entry of `len` bytes: from one to eight, to the next multiple of 8.
pub open spec fn padding(len: nat) -> nat {
    (8 - len % 8) as nat
}

/// An entry as the index file holds it.
#[verifier::opaque]
pub open spec fn entry_raw(e: IndexEntryView) -> Seq<u8> {
    entry_head(e) + name_bytes(e) + Seq::new(padding(62 + name_bytes(e).len()), |i: int| 0u8)
}

/// The entries one after another.
pub open spec fn entries_raw(s: Seq<IndexEntryView>) -> Seq<u8>
    decreases s.len(),
{
    if s.len() == 0 {
        Seq::<u8>::empty()
    } else {
        entries_raw(s.drop_last()) + entry_raw(s.last())
    }
}

/// `DIRC`.
pub open spec fn index_magic() -> Seq<u8> {
    seq![68u8, 73, 82, 67]
}

/// An index file: magic, version, entry count, entries.
pub open spec fn index_raw(version: u32, s: Seq<IndexEntryView>) -> Seq<u8> {
    index_magic() + u32_bytes(version) + u32_bytes((s.len() % 0x1_0000_0000) as u32) + entries_raw(s)
}

/// The entry at `pos` and the position after it, where one is there.
pub open spec fn parse_entry(b: Seq<u8>, pos: int) -> Option<(IndexEntryView, int)> {
    let f = |k: int| be_u32(b.subrange(pos + 4 * k, pos + 4 * k + 4)) as u32;
    let nl = be_u16(b.subrange(pos + 60, pos + 62));
    let name = b.subrange(pos + 62, pos + 62 + nl);
    let next = pos + 62 + nl + padding((62 + nl) as nat);
    if 0 <= pos && next <= b.len() && mode_from_number(f(6)) is Some && valid_utf8(name) {
        Some(
            (
                (
                    seq![f(0), f(1), f(2), f(3), f(4), f(5), f(7), f(8), f(9)],
                    mode_from_number(f(6)).unwrap(),
                    b.subrange(pos + 40, pos + 60),
                    decode_utf8(name),
                ),
                next,
            ),
        )
    } else {
        None
    }
}

/// `count` entries from `pos` on.
pub open spec fn parse_entries(b: Seq<u8>, pos: int, count: nat) -> Option<Seq<IndexEntryView>>
    decreases count,
{
    if count == 0 {
        Some(Seq::<IndexEntryView>::empty())
    } else {
        match parse_entry(b, pos) {
            Some((e, next)) => match parse_entries(b, next, (count - 1) as nat) {
                Some(es) => Some(seq![e] + es),
                None => None,
            },
            None => None,
        }
    }
}

/// The version and entries of an index file, where it is one of version 2.
pub open spec fn parse_index(b: Seq<u8>) -> Option<(u32, Seq<IndexEntryView>)> {
    if b.len() >= 12 && b.subrange(0, 4) == index_magic() && be_u32(b.subrange(4, 8)) == 2 {
        match parse_entries(b, 12, be_u32(b.subrange(8, 12)) as nat) {
            Some(es) => Some((2u32, es)),
            None => None,
        }
    } else {
        None
    }
}

/// The staging area: a version and the staged entries.
#[derive(Debug, Clone, PartialEq, Eq)]
pub struct Index {
    pub version: u32,
    pub entries: Vec<IndexEntry>,
}

/// The key entries are ordered by: the path's bytes.
pub open spec fn name_key() -> spec_fn(IndexEntryView) -> Seq<u8> {
    |e: IndexEntryView| name_bytes(e)
}

/// Paths strictly ascending, hence unique.
pub open spec fn names_strictly_ascending(s: Seq<IndexEntryView>) -> bool {
    forall|i: int, j: int|
        0 <= i < j < s.len() ==> crate::bytes::lex_lt(name_bytes(s[i]), name_bytes(s[j]))
}

impl IndexEntry {
    /// An entry with all metadata zero.
    pub fn with_default(mode: Mode, hash: crate::hash::Hash, file_name: &str) -> (r: IndexEntry)
        ensures
            r@ == (seq![0u32, 0, 0, 0, 0, 0, 0, 0, 0], mode, hash@, file_name@),
    {
        let r = IndexEntry {
            created_at: 0,
            created_at_nsec: 0,
            updated_at: 0,
            updated_at_nsec: 0,
            device_id: 0,
            inode: 0,
            mode,
            user_id: 0,
            group_id: 0,
            size: 0,
            hash,
            file_name: file_name.to_owned(),
        };
        assert(r@.0 =~= seq![0u32, 0, 0, 0, 0, 0, 0, 0, 0]);
        r
    }

    /// A copy of this entry.
    pub fn duplicate(&self) -> (r: IndexEntry)
        ensures
            r@ == self@,
    {
        IndexEntry {
            created_at: self.created_at,
            created_at_nsec: self.created_at_nsec,
            updated_at: self.updated_at,
            updated_at_nsec: self.updated_at_nsec,
            device_id: self.device_id,
            inode: self.inode,
            mode: self.mode,
            user_id: self.user_id,
            group_id: self.group_id,
            size: self.size,
            hash: self.hash,
            file_name: self.file_name.clone(),
        }
    }

    /// The entry as the index file holds it.
    pub fn to_raw(&self) -> (r: Vec<u8>)
        ensures
            r@ == entry_raw(self@),
    {
        let mut out: Vec<u8> = Vec::new();
        push_u32(&mut out, self.created_at);
        push_u32(&mut out, self.created_at_nsec);
        push_u32(&mut out, self.updated_at);
        push_u32(&mut out, self.updated_at_nsec);
        push_u32(&mut out, self.device_id);
        push_u32(&mut out, self.inode);
        push_u32(&mut out, self.mode.to_u32());
        push_u32(&mut out, self.user_id);
        push_u32(&mut out, self.group_id);
        push_u32(&mut out, self.size);
        push_all(&mut out, self.hash.value.as_slice());
        let name = self.file_name.as_str().as_bytes();
        push_u16(&mut out, (name.len() % 65536) as u16);
        assert(out@ =~= entry_head(self@));
        push_all(&mut out, name);
        let pad = 8 - out.len() % 8;
        let ghost before = out@;
        let mut i: usize = 0;
        while i < pad
            invariant
                0 <= i <= pad,
                out@ == before + Seq::new(i as nat, |k: int| 0u8),
            decreases pad - i,
        {
            out.push(0);
            i = i + 1;
            assert(out@ =~= before + Seq::new(i as nat, |k: int| 0u8));
        }
        reveal(entry_raw);
        assert(out@ =~= entry_raw(self@));
        out
    }

    /// Reads the entry at `*shown_index` and moves `*shown_index` past it.
    pub fn from_raw(bytes: &[u8], shown_index: &mut usize) -> (r: Result<IndexEntry, GitError>)
        ensures
            match r {
                Ok(e) => parse_entry(bytes@, *old(shown_index) as int) == Some(
                    (e@, *final(shown_index) as int),
                ),
                Err(err) => parse_entry(bytes@, *old(shown_index) as int) is None && err
                    == GitError::CorruptIndex && *final(shown_index) == *old(shown_index),
            },
    {
        let pos = *shown_index;
        let n = bytes.len();
        if pos > n || n - pos < 62 {
            return Err(GitError::CorruptIndex);
        }
        let mut f: Vec<u32> = Vec::new();
        let mut k: usize = 0;
        while k < 10
            invariant
                0 <= k <= 10,
                pos + 62 <= n,
                n == bytes@.len(),
                f@.len() == k,
                forall|j: int| 0 <= j < k ==> #[trigger] f@[j] as int == be_u32(
                    bytes@.subrange(pos + 4 * j, pos + 4 * j + 4),
                ),
            decreases 10 - k,
        {
            let v = read_u32(&bytes[pos + 4 * k..pos + 4 * k + 4]);
            f.push(v);
            k = k + 1;
        }
        let nl = read_u16(&bytes[pos + 60..pos + 62]) as usize;
        if n - pos - 62 < nl {
            return Err(GitError::CorruptIndex);
        }
        let len = 62 + nl;
        let pad = 8 - len % 8;
        if n - pos - len < pad {
            return Err(GitError::CorruptIndex);
        }
        let mode = match Mode::from_u32(f[6]) {
            Ok(m) => m,
            Err(_) => {
                return Err(GitError::CorruptIndex);
            },
        };
        let file_name = match utf8_text(&bytes[pos + 62..pos + len]) {
            Some(t) => t,
            None => {
                return Err(GitError::CorruptIndex);
            },
        };
        let hash = match crate::hash::Hash::from_raw(&bytes[pos + 40..pos + 60]) {
            Ok(h) => h,
            Err(_) => {
                return Err(GitError::CorruptIndex);
            },
        };
        let e = IndexEntry {
            created_at: f[0],
            created_at_nsec: f[1],
            updated_at: f[2],
            updated_at_nsec: f[3],
            device_id: f[4],
            inode: f[5],
            mode,
            user_id: f[7],
            group_id: f[8],
            size: f[9],
            hash,
            file_name,
        };
        *shown_index = pos + len + pad;
        assert(e@.0 =~= parse_entry(bytes@, pos as int).unwrap().0.0);
        Ok(e)
    }
}

impl Index {
    /// An empty index of version 2.
    pub fn new() -> (r: Index)
        ensures
            r.version == 2,
            r.entries@.len() == 0,
    {
        Index { version: 2, entries: Vec::new() }
    }

    /// The index file's bytes.
    pub fn to_raw(&self) -> (r: Vec<u8>)
        ensures
            r@ == index_raw(self.version, views(self.entries@)),
    {
        let mut out: Vec<u8> = vec![68u8, 73, 82, 67];
        push_u32(&mut out, self.version);
        push_u32(&mut out, (self.entries.len() as u64 % 0x1_0000_0000u64) as u32);
        let ghost head = out@;
        let mut i: usize = 0;
        while i < self.entries.len()
            invariant
                0 <= i <= self.entries@.len(),
                out@ == head + entries_raw(views(self.entries@).subrange(0, i as int)),
            decreases self.entries@.len() - i,
        {
            let raw = self.entries[i].to_raw();
            push_all(&mut out, raw.as_slice());
            i = i + 1;
            proof {
                let p = views(self.entries@).subrange(0, i as int);
                assert(p.drop_last() =~= views(self.entries@).subrange(0, i as int - 1));
                assert(out@ =~= head + entries_raw(p));
            }
        }
        assert(views(self.entries@).subrange(0, self.entries@.len() as int) =~= views(self.entries@));
        assert(out@ =~= index_raw(self.version, views(self.entries@)));
        out
    }

    /// Reads an index file of version 2.
    pub fn from_raw(bytes: &[u8]) -> (r: Result<Index, GitError>)
        ensures
            match r {
                Ok(idx) => parse_index(bytes@) == Some((idx.version, views(idx.entries@))),
                Err(e) => parse_index(bytes@) is None && e == GitError::CorruptIndex,
            },
    {
        if bytes.len() < 12 {
            return Err(GitError::CorruptIndex);
        }
        let magic: [u8; 4] = [68u8, 73, 82, 67];
        assert(magic@ =~= index_magic());
        if !crate::bytes::bytes_eq(&bytes[0..4], magic.as_slice()) {
            return Err(GitError::CorruptIndex);
        }
        let version = read_u32(&bytes[4..8]);
        if version != 2 {
            return Err(GitError::CorruptIndex);
        }
        let count = read_u32(&bytes[8..12]);
        let mut entries: Vec<IndexEntry> = Vec::new();
        let mut pos: usize = 12;
        let mut i: u32 = 0;
        while i < count
            invariant
                0 <= i <= count,
                count as int == be_u32(bytes@.subrange(8, 12)),
                match parse_entries(bytes@, pos as int, (count - i) as nat) {
                    Some(es) => parse_entries(bytes@, 12, count as nat) == Some(views(entries@) + es),
                    None => parse_entries(bytes@, 12, count as nat) is None,
                },
            decreases count - i,
        {
            let ghost old_pos = pos;
            let e = match IndexEntry::from_raw(bytes, &mut pos) {
                Ok(e) => e,
                Err(_) => {
                    return Err(GitError::CorruptIndex);
                },
            };
            let ghost before = views(entries@);
            entries.push(e);
            i = i + 1;
            proof {
                assert(views(entries@) =~= before.push(e@));
                match parse_entries(bytes@, pos as int, (count - i) as nat) {
                    Some(es) => {
                        assert(before + (seq![e@] + es) =~= views(entries@) + es);
                    },
                    None => {},
                }
            }
        }
        assert(views(entries@) + Seq::<IndexEntryView>::empty() =~= views(entries@));
        Ok(Index { version, entries })
    }
}

/// Puts `e` into the path-ordered `s`: in place of the entry with its path, or before the
/// first entry with a greater path.
pub open spec fn sorted_upsert(s: Seq<IndexEntryView>, e: IndexEntryView) -> Seq<IndexEntryView>
    decreases s.len(),
{
    if s.len() == 0 {
        seq![e]
    } else if name_bytes(s[0]) == name_bytes(e) {
        seq![e] + s.drop_first()
    } else if crate::bytes::lex_lt(name_bytes(e), name_bytes(s[0])) {
        seq![e] + s
    } else {
        seq![s[0]] + sorted_upsert(s.drop_first(), e)
    }
}

/// Upserts each of `new`, in order, into `s`.
pub open spec fn upsert_all(s: Seq<IndexEntryView>, new: Seq<IndexEntryView>) -> Seq<IndexEntryView>
    decreases new.len(),
{
    if new.len() == 0 {
        s
    } else {
        sorted_upsert(upsert_all(s, new.drop_last()), new.last())
    }
}

/// Every entry after an upsert is the new one or was there before.
#[verifier::rlimit(80)]
#[verifier::spinoff_prover]
proof fn lemma_upsert_members(s: Seq<IndexEntryView>, e: IndexEntryView)
    ensures
        forall|x: IndexEntryView| #[trigger] sorted_upsert(s, e).contains(x) ==> x == e || s.contains(x),
    decreases s.len(),
{
    if s.len() > 0 {
        let t = s.drop_first();
        lemma_upsert_members(t, e);
        assert forall|x: IndexEntryView| #[trigger] sorted_upsert(s, e).contains(x) implies x == e
            || s.contains(x) by {
            let r = sorted_upsert(s, e);
            let k = choose|k: int| 0 <= k < r.len() && r[k] == x;
            if name_bytes(s[0]) == name_bytes(e) {
                if k > 0 {
                    assert(s[k] == x);
                }
            } else if crate::bytes::lex_lt(name_bytes(e), name_bytes(s[0])) {
                if k > 0 {
                    assert(s[k - 1] == x);
                }
            } else {
                if k > 0 {
                    assert(sorted_upsert(t, e)[k - 1] == x);
                    assert(sorted_upsert(t, e).contains(x));
                    if x != e {
                        let m = choose|m: int| 0 <= m < t.len() && t[m] == x;
                        assert(s[m + 1] == x);
                    }
                }
            }
        }
    }
}

/// An upsert keeps the paths strictly ascending.
#[verifier::rlimit(80)]
#[verifier::spinoff_prover]
pub proof fn lemma_upsert_ascending(s: Seq<IndexEntryView>, e: IndexEntryView)
    requires
        names_strictly_ascending(s),
    ensures
        names_strictly_ascending(sorted_upsert(s, e)),
    decreases s.len(),
{
    if s.len() > 0 {
        let t = s.drop_first();
        let r = sorted_upsert(s, e);
        assert(names_strictly_ascending(t)) by {
            assert forall|i: int, j: int| 0 <= i < j < t.len() implies crate::bytes::lex_lt(
                name_bytes(t[i]),
                name_bytes(t[j]),
            ) by {
                assert(t[i] == s[i + 1] && t[j] == s[j + 1]);
            }
        }
        if name_bytes(s[0]) == name_bytes(e) {
            assert forall|i: int, j: int| 0 <= i < j < r.len() implies crate::bytes::lex_lt(
                name_bytes(r[i]),
                name_bytes(r[j]),
            ) by {
                assert(r[j] == s[j]);
                if i > 0 {
                    assert(r[i] == s[i]);
                }
            }
        } else if crate::bytes::lex_lt(name_bytes(e), name_bytes(s[0])) {
            assert forall|i: int, j: int| 0 <= i < j < r.len() implies crate::bytes::lex_lt(
                name_bytes(r[i]),
                name_bytes(r[j]),
            ) by {
                assert(r[j] == s[j - 1]);
                if i > 0 {
                    assert(r[i] == s[i - 1]);
                } else if j > 1 {
                    crate::bytes::lemma_lex_transitive(name_bytes(e), name_bytes(s[0]), name_bytes(s[j - 1]));
                }
            }
        } else {
            lemma_upsert_ascending(t, e);
            lemma_upsert_members(t, e);
            crate::bytes::lemma_lex_total(name_bytes(e), name_bytes(s[0]));
            let rt = sorted_upsert(t, e);
            assert forall|i: int, j: int| 0 <= i < j < r.len() implies crate::bytes::lex_lt(
                name_bytes(r[i]),
                name_bytes(r[j]),
            ) by {
                assert(r[j] == rt[j - 1]);
                if i > 0 {
                    assert(r[i] == rt[i - 1]);
                } else {
                    let x = rt[j - 1];
                    assert(rt.contains(x));
                    if x != e {
                        let m = choose|m: int| 0 <= m < t.len() && t[m] == x;
                        assert(s[m + 1] == x);
                    }
                }
            }
        }
    }
}

/// Upserting any entries into an empty index leaves the paths strictly ascending.
pub proof fn lemma_upsert_all_ascending(s: Seq<IndexEntryView>, new: Seq<IndexEntryView>)
    requires
        names_strictly_ascending(s),
    ensures
        names_strictly_ascending(upsert_all(s, new)),
    decreases new.len(),
{
    if new.len() > 0 {
        lemma_upsert_all_ascending(s, new.drop_last());
        lemma_upsert_ascending(upsert_all(s, new.drop_last()), new.last());
    }
}

/// Upserting at the first position whose path is not below `e`'s is `sorted_upsert`.
#[verifier::rlimit(80)]
#[verifier::spinoff_prover]
proof fn lemma_upsert_at(s: Seq<IndexEntryView>, e: IndexEntryView, j: int)
    requires
        0 <= j <= s.len(),
        forall|k: int| 0 <= k < j ==> crate::bytes::lex_lt(#[trigger] name_bytes(s[k]), name_bytes(e)),
        j < s.len() ==> !crate::bytes::lex_lt(name_bytes(s[j]), name_bytes(e)),
    ensures
        sorted_upsert(s, e) == if j < s.len() && name_bytes(s[j]) == name_bytes(e) {
            s.update(j, e)
        } else {
            s.insert(j, e)
        },
    decreases s.len(),
{
    if s.len() == 0 {
        assert(s.insert(j, e) =~= seq![e]);
    } else if j == 0 {
        if name_bytes(s[0]) == name_bytes(e) {
            assert(s.update(0, e) =~= seq![e] + s.drop_first());
        } else {
            crate::bytes::lemma_lex_total(name_bytes(e), name_bytes(s[0]));
            assert(s.insert(0, e) =~= seq![e] + s);
        }
    } else {
        let t = s.drop_first();
        crate::bytes::lemma_lex_irreflexive(name_bytes(e));
        crate::bytes::lemma_lex_asymmetric(name_bytes(s[0]), name_bytes(e));
        assert forall|k: int| 0 <= k < j - 1 implies crate::bytes::lex_lt(
            #[trigger] name_bytes(t[k]),
            name_bytes(e),
        ) by {
            assert(t[k] == s[k + 1]);
        }
        lemma_upsert_at(t, e, j - 1);
        if j < s.len() && name_bytes(s[j]) == name_bytes(e) {
            assert(seq![s[0]] + t.update(j - 1, e) =~= s.update(j, e));
        } else {
            assert(seq![s[0]] + t.insert(j - 1, e) =~= s.insert(j, e));
        }
    }
}

impl Index {
    /// Upserts `entries` by path: each replaces the entry with its path, or is added. The
    /// result is ordered by path, each path once.
    pub fn insert(&mut self, entries: &[IndexEntry])
        ensures
            final(self).version == old(self).version,
            views(final(self).entries@) == upsert_all(
                Seq::<IndexEntryView>::empty(),
                views(old(self).entries@) + views(entries@),
            ),
            names_strictly_ascending(views(final(self).entries@)),
    {
        let ghost all = views(self.entries@) + views(entries@);
        let mut out: Vec<IndexEntry> = Vec::new();
        let old_len = self.entries.len();
        let mut i: usize = 0;
        while i < old_len
            invariant
                old_len == old(self).entries@.len(),
                self.entries@ == old(self).entries@,
                all == views(old(self).entries@) + views(entries@),
                0 <= i <= old_len,
                views(out@) == upsert_all(Seq::<IndexEntryView>::empty(), all.subrange(0, i as int)),
                names_strictly_ascending(views(out@)),
            decreases old_len - i,
        {
            let e = self.entries[i].duplicate();
            assert(e@ == all[i as int]);
            upsert_one(&mut out, e);
            i = i + 1;
            assert(all.subrange(0, i as int).drop_last() =~= all.subrange(0, i as int - 1));
        }
        let mut j: usize = 0;
        while j < entries.len()
            invariant
                old_len == old(self).entries@.len(),
                all == views(old(self).entries@) + views(entries@),
                0 <= j <= entries@.len(),
                views(out@) == upsert_all(
                    Seq::<IndexEntryView>::empty(),
                    all.subrange(0, old_len + j as int),
                ),
                names_strictly_ascending(views(out@)),
            decreases entries@.len() - j,
        {
            let e = entries[j].duplicate();
            assert(e@ == all[old_len + j as int]);
            upsert_one(&mut out, e);
            j = j + 1;
            assert(all.subrange(0, old_len + j as int).drop_last() =~= all.subrange(
                0,
                old_len + j as int - 1,
            ));
        }
        assert(all.subrange(0, old_len + entries@.len()) =~= all);
        self.entries = out;
    }

    /// The position of the entry for `name`, if there is one.
    pub fn position(&self, name: &str) -> (r: Option<usize>)
        ensures
            match r {
                Some(i) => i < self.entries@.len() && self.entries@[i as int].file_name@ == name@,
                None => forall|i: int| 0 <= i < self.entries@.len() ==> #[trigger] self.entries@[i].file_name@ != name@,
            },
    {
        let mut i: usize = 0;
        while i < self.entries.len()
            invariant
                0 <= i <= self.entries@.len(),
                forall|j: int| 0 <= j < i ==> #[trigger] self.entries@[j].file_name@ != name@,
            decreases self.entries@.len() - i,
        {
            if crate::bytes::bytes_eq(self.entries[i].file_name.as_str().as_bytes(), name.as_bytes()) {
                proof {
                    encode_utf8_decode_utf8(self.entries@[i as int].file_name@);
                    encode_utf8_decode_utf8(name@);
                }
                return Some(i);
            }
            proof {
                if self.entries@[i as int].file_name@ == name@ {
                    assert(encode_utf8(self.entries@[i as int].file_name@) == encode_utf8(name@));
                }
            }
            i = i + 1;
        }
        None
    }
}

/// Upserts `e` into the path-ordered `out`.
fn upsert_one(out: &mut Vec<IndexEntry>, e: IndexEntry)
    requires
        names_strictly_ascending(views(old(out)@)),
    ensures
        views(final(out)@) == sorted_upsert(views(old(out)@), e@),
        names_strictly_ascending(views(final(out)@)),
{
    let key = e.file_name.as_str().as_bytes();
    let mut j: usize = 0;
    while j < out.len() && crate::bytes::bytes_lt(out[j].file_name.as_str().as_bytes(), key)
        invariant
            0 <= j <= out@.len(),
            out@ == old(out)@,
            key@ == name_bytes(e@),
            forall|k: int| 0 <= k < j ==> crate::bytes::lex_lt(#[trigger] name_bytes(views(out@)[k]), name_bytes(e@)),
        decreases out@.len() - j,
    {
        j = j + 1;
    }
    let ghost before = views(out@);
    proof {
        lemma_upsert_at(before, e@, j as int);
        lemma_upsert_ascending(before, e@);
    }
    let ghost ev = e@;
    if j < out.len() && crate::bytes::bytes_eq(out[j].file_name.as_str().as_bytes(), key) {
        out.set(j, e);
        assert(views(out@) =~= before.update(j as int, ev));
    } else {
        out.insert(j, e);
        assert(views(out@) =~= before.insert(j as int, ev));
    }
}

/// Some entry of `s` has the path `name`.
pub open spec fn is_staged(s: Seq<IndexEntry>, name: Seq<char>) -> bool {
    exists|j: int| 0 <= j < s.len() && (#[trigger] s[j]).file_name@ == name
}

/// `ls-files -s` line: `<mode> <hex hash> 0\t<path>`.
pub open spec fn stage_line(e: IndexEntryView) -> Seq<u8> {
    crate::mode::mode_text(e.1) + seq![32u8] + crate::hash::hex_of(e.2) + seq![32u8, 48, 9] + name_bytes(e)
}

impl IndexEntry {
    /// The entry as `ls-files -s` lists it.
    pub fn stage_line(&self) -> (r: Vec<u8>)
        ensures
            r@ == stage_line(self@),
    {
        let mut out = self.mode.to_text();
        out.push(32);
        push_all(&mut out, self.hash.to_raw_hex().as_slice());
        out.push(32);
        out.push(48);
        out.push(9);
        push_all(&mut out, self.file_name.as_str().as_bytes());
        assert(out@ =~= stage_line(self@));
        out
    }
}

impl Index {
    /// What `update-index` decides before it writes: `--add` and `--remove` exclude each
    /// other, `--remove` is not carried out, and without `--add` every path must be staged.
    pub fn check_update(&self, entries: &[IndexEntry], add: bool, remove: bool) -> (r: Result<(), GitError>)
        ensures
            add && remove ==> r == Err::<(), GitError>(GitError::ConflictingOptions),
            !add && remove ==> r == Err::<(), GitError>(GitError::RemoveUnsupported),
            !add && !remove ==> (r is Ok <==> forall|i: int|
                0 <= i < entries@.len() ==> is_staged(self.entries@, (#[trigger] entries@[i]).file_name@)),
            !add && !remove && r is Err ==> r->Err_0 is NotInIndex && exists|k: int|
                0 <= k < entries@.len() && !is_staged(self.entries@, (#[trigger] entries@[k]).file_name@)
                    && crate::error::error_text(r->Err_0) == Some(entries@[k].file_name@),
            add && !remove ==> r is Ok,
    {
        if add && remove {
            return Err(GitError::ConflictingOptions);
        }
        if remove {
            return Err(GitError::RemoveUnsupported);
        }
        if add {
            return Ok(());
        }
        let mut i: usize = 0;
        while i < entries.len()
            invariant
                !add && !remove,
                0 <= i <= entries@.len(),
                forall|k: int| 0 <= k < i ==> is_staged(self.entries@, (#[trigger] entries@[k]).file_name@),
            decreases entries@.len() - i,
        {
            match self.position(entries[i].file_name.as_str()) {
                Some(j) => {
                    assert(self.entries@[j as int].file_name@ == entries@[i as int].file_name@);
                },
                None => {
                    assert(!is_staged(self.entries@, entries@[i as int].file_name@));
                    return Err(GitError::NotInIndex(entries[i].file_name.clone()));
                },
            }
            i = i + 1;
        }
        Ok(())
    }
}

/// What the index encoding can carry: nine numbers, a 20-byte hash, and a path shorter
/// than 65536 bytes, whose length the entry stores in 16 bits.
pub open spec fn encodable(e: IndexEntryView) -> bool {
    e.0.len() == 9 && e.2.len() == 20 && name_bytes(e).len() < 65536
}

proof fn lemma_window(b: Seq<u8>, pos: int, r: Seq<u8>, a: int, c: int)
    requires
        0 <= pos,
        pos + r.len() <= b.len(),
        b.subrange(pos, pos + r.len()) == r,
        0 <= a <= c <= r.len(),
    ensures
        b.subrange(pos + a, pos + c) == r.subrange(a, c),
{
    assert forall|i: int| 0 <= i < c - a implies b.subrange(pos + a, pos + c)[i] == r.subrange(a, c)[i] by {
        assert(b.subrange(pos, pos + r.len())[a + i] == r[a + i]);
    }
    assert(b.subrange(pos + a, pos + c) =~= r.subrange(a, c));
}

proof fn lemma_entries_raw_front(e: IndexEntryView, t: Seq<IndexEntryView>)
    ensures
        entries_raw(seq![e] + t) == entry_raw(e) + entries_raw(t),
    decreases t.len(),
{
    if t.len() == 0 {
        let u = seq![e] + t;
        assert(u.drop_last() =~= Seq::<IndexEntryView>::empty());
        assert(u.last() == e);
        assert(entries_raw(u.drop_last()) == Seq::<u8>::empty());
        assert(entries_raw(u) == entries_raw(u.drop_last()) + entry_raw(u.last()));
        assert(entries_raw(u) =~= entry_raw(e) + entries_raw(t));
    } else {
        lemma_entries_raw_front(e, t.drop_last());
        assert((seq![e] + t).drop_last() =~= seq![e] + t.drop_last());
        assert(entries_raw(seq![e] + t) =~= entry_raw(e) + entries_raw(t));
    }
}

/// An encoded entry reads back as itself, followed by the position after its padding.
#[verifier::rlimit(80)]
#[verifier::spinoff_prover]
proof fn lemma_parse_entry_at(b: Seq<u8>, pos: int, e: IndexEntryView)
    requires
        encodable(e),
        0 <= pos,
        pos + entry_raw(e).len() <= b.len(),
        b.subrange(pos, pos + entry_raw(e).len()) == entry_raw(e),
    ensures
        parse_entry(b, pos) == Some((e, pos + entry_raw(e).len())),
{
    reveal(entry_raw);
    let r = entry_raw(e);
    let h = entry_head(e);
    let nb = name_bytes(e);
    let len16 = (nb.len() % 65536) as u16;
    assert(h.len() == 62);
    assert(h =~= u32_bytes(e.0[0]) + u32_bytes(e.0[1]) + u32_bytes(e.0[2]) + u32_bytes(e.0[3])
        + u32_bytes(e.0[4]) + u32_bytes(e.0[5]) + u32_bytes(mode_number(e.1)) + u32_bytes(e.0[6])
        + u32_bytes(e.0[7]) + u32_bytes(e.0[8]) + e.2 + u16_bytes(len16));
    let fields = seq![e.0[0], e.0[1], e.0[2], e.0[3], e.0[4], e.0[5], mode_number(e.1), e.0[6], e.0[7], e.0[8]];
    assert forall|k: int| 0 <= k < 10 implies #[trigger] r.subrange(4 * k, 4 * k + 4) == u32_bytes(fields[k]) by {
        assert(r.subrange(4 * k, 4 * k + 4) =~= u32_bytes(fields[k]));
    }
    assert forall|k: int| 0 <= k < 10 implies be_u32(#[trigger] b.subrange(pos + 4 * k, pos + 4 * k + 4)) == fields[k] by {
        lemma_window(b, pos, r, 4 * k, 4 * k + 4);
        assert(r.subrange(4 * k, 4 * k + 4) == u32_bytes(fields[k]));
        lemma_u32_bytes(fields[k]);
    }
    lemma_window(b, pos, r, 60, 62);
    assert(r.subrange(60, 62) =~= u16_bytes(len16));
    lemma_u16_bytes(len16);
    let nl = be_u16(b.subrange(pos + 60, pos + 62));
    assert(nl == nb.len());
    lemma_window(b, pos, r, 62, 62 + nl);
    assert(r.subrange(62, 62 + nl) =~= nb);
    lemma_window(b, pos, r, 40, 60);
    assert(r.subrange(40, 60) =~= e.2);
    encode_utf8_valid_utf8(e.3);
    encode_utf8_decode_utf8(e.3);
    crate::mode::lemma_mode_text(e.1);
    let f = |k: int| be_u32(b.subrange(pos + 4 * k, pos + 4 * k + 4)) as u32;
    assert(f(6) == mode_number(e.1));
    assert(seq![f(0), f(1), f(2), f(3), f(4), f(5), f(7), f(8), f(9)] =~= e.0) by {
        assert(f(0) == e.0[0]);
        assert(f(1) == e.0[1]);
        assert(f(2) == e.0[2]);
        assert(f(3) == e.0[3]);
        assert(f(4) == e.0[4]);
        assert(f(5) == e.0[5]);
        assert(f(7) == e.0[6]);
        assert(f(8) == e.0[7]);
        assert(f(9) == e.0[8]);
    }
}

#[verifier::rlimit(80)]
#[verifier::spinoff_prover]
proof fn lemma_parse_entries_at(b: Seq<u8>, pos: int, s: Seq<IndexEntryView>)
    requires
        forall|i: int| 0 <= i < s.len() ==> encodable(#[trigger] s[i]),
        0 <= pos,
        pos + entries_raw(s).len() <= b.len(),
        b.subrange(pos, pos + entries_raw(s).len()) == entries_raw(s),
    ensures
        parse_entries(b, pos, s.len()) == Some(s),
    decreases s.len(),
{
    if s.len() > 0 {
        let e = s[0];
        let t = s.drop_first();
        assert(s =~= seq![e] + t);
        lemma_entries_raw_front(e, t);
        let r = entries_raw(s);
        let le = entry_raw(e).len() as int;
        lemma_window(b, pos, r, 0, le);
        assert(r.subrange(0, le) =~= entry_raw(e));
        lemma_parse_entry_at(b, pos, e);
        lemma_window(b, pos, r, le, r.len() as int);
        assert(r.subrange(le, r.len() as int) =~= entries_raw(t));
        assert forall|i: int| 0 <= i < t.len() implies encodable(#[trigger] t[i]) by {
            assert(t[i] == s[i + 1]);
        }
        lemma_parse_entries_at(b, pos + le, t);
        assert(seq![e] + t =~= s);
    }
}

/// Decoding an encoded index of version 2 gives back its entries, where each path is shorter
/// than 65536 bytes and there are fewer than 2^32 entries.
#[verifier::rlimit(80)]
#[verifier::spinoff_prover]
pub proof fn lemma_index_round_trip(s: Seq<IndexEntryView>)
    requires
        s.len() < 0x1_0000_0000,
        forall|i: int| 0 <= i < s.len() ==> encodable(#[trigger] s[i]),
    ensures
        parse_index(index_raw(2, s)) == Some((2u32, s)),
{
    let b = index_raw(2, s);
    let count = (s.len() % 0x1_0000_0000) as u32;
    assert(b.subrange(0, 4) =~= index_magic());
    assert(b.subrange(4, 8) =~= u32_bytes(2));
    assert(b.subrange(8, 12) =~= u32_bytes(count));
    lemma_u32_bytes(2);
    lemma_u32_bytes(count);
    assert(b.subrange(12, 12 + entries_raw(s).len() as int) =~= entries_raw(s));
    lemma_parse_entries_at(b, 12, s);
}

/// What the file system reports of a file, as an index entry keeps it.
#[derive(Debug, Clone, Copy, PartialEq, Eq)]
pub struct FileStat {
    pub ctime: i64,
    pub ctime_nsec: i64,
    pub mtime: i64,
    pub mtime_nsec: i64,
    pub dev: u64,
    pub ino: u64,
    pub uid: u32,
    pub gid: u32,
    pub size: u64,
}

/// The low 32 bits of a number.
pub open spec fn low32(x: int) -> u32 {
    (x % 0x1_0000_0000) as u32
}

fn low32_of_i64(x: i64) -> (r: u32)
    ensures
        r == low32(x as int),
{
    let m: i128 = (x as i128) % 0x1_0000_0000i128;
    let m = if m < 0 { m + 0x1_0000_0000i128 } else { m };
    m as u32
}

fn low32_of_u64(x: u64) -> (r: u32)
    ensures
        r == low32(x as int),
{
    (x % 0x1_0000_0000u64) as u32
}

impl IndexEntry {
    /// An entry for a file with the given metadata; each number keeps its low 32 bits.
    pub fn with_file_metadata(mode: Mode, hash: crate::hash::Hash, file_name: &str, stat: &FileStat) -> (r: IndexEntry)
        ensures
            r@ == (
                seq![
                    low32(stat.ctime as int),
                    low32(stat.ctime_nsec as int),
                    low32(stat.mtime as int),
                    low32(stat.mtime_nsec as int),
                    low32(stat.dev as int),
                    low32(stat.ino as int),
                    stat.uid,
                    stat.gid,
                    low32(stat.size as int),
                ],
                mode,
                hash@,
                file_name@,
            ),
    {
        let r = IndexEntry {
            created_at: low32_of_i64(stat.ctime),
            created_at_nsec: low32_of_i64(stat.ctime_nsec),
            updated_at: low32_of_i64(stat.mtime),
            updated_at_nsec: low32_of_i64(stat.mtime_nsec),
            device_id: low32_of_u64(stat.dev),
            inode: low32_of_u64(stat.ino),
            mode,
            user_id: stat.uid,
            group_id: stat.gid,
            size: low32_of_u64(stat.size),
            hash,
            file_name: file_name.to_owned(),
        };
        assert(r@.0 =~= seq![
            low32(stat.ctime as int),
            low32(stat.ctime_nsec as int),
            low32(stat.mtime as int),
            low32(stat.mtime_nsec as int),
            low32(stat.dev as int),
            low32(stat.ino as int),
            stat.uid,
            stat.gid,
            low32(stat.size as int),
        ]);
        r
    }
}

} // verus!
