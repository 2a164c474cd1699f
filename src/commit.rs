//! Commits and the author / committer lines inside them.
use crate::bytes::{
    ascii_chars, ascii_string, find_byte, index_of, lemma_index_of, lemma_index_of_bounds,
    parse_i64, push_all, push_i64, signed_decimal, signed_value, utf8_text,
};
use crate::error::GitError;
use crate::hash::{hex_of, is_hash_text, unhex};
use crate::bytes::bytes_eq;
use crate::hash::hash_from_text;
use vstd::prelude::*;
use vstd::utf8::*;

verus! {

/// The name of the offset, in seconds east of UTC, that chrono reads from a text.
pub uninterp spec fn fixed_offset_of(text: Seq<char>) -> Option<i32>;

/// The name of whether chrono can represent an instant given in microseconds since the epoch.
pub uninterp spec fn micros_in_range(micros: i64) -> bool;

/// `±HH:MM` with the minutes below 60.
pub open spec fn is_colon_offset(t: Seq<char>) -> bool {
    &&& t.len() == 6
    &&& (t[0] == '+' || t[0] == '-')
    &&& '0' <= t[1] <= '9' && '0' <= t[2] <= '9'
    &&& t[3] == ':'
    &&& '0' <= t[4] <= '5' && '0' <= t[5] <= '9'
}

/// What chrono makes of `±HH:MM`: that many seconds east of UTC where it lies strictly within
/// a day, and no offset otherwise.
pub open spec fn colon_offset_value(t: Seq<char>) -> Option<i32> {
    let h = (t[1] as int - 48) * 10 + (t[2] as int - 48);
    let m = (t[4] as int - 48) * 10 + (t[5] as int - 48);
    let v = if t[0] == '-' { -(h * 3600 + m * 60) } else { h * 3600 + m * 60 };
    if -86400 < v < 86400 {
        Some(v as i32)
    } else {
        None
    }
}

/// The offset chrono reads from `t`: spelled out where `t` is `±HH:MM`, named otherwise.
pub open spec fn offset_of_text(t: Seq<char>) -> Option<i32> {
    if is_colon_offset(t) {
        colon_offset_value(t)
    } else {
        fixed_offset_of(t)
    }
}

/// Relies on chrono's `FixedOffset::from_str` and `local_minus_utc`: the result depends on the
/// text alone; on `±HH:MM` it is the offset that the text spells, where that is within a day.
#[verifier::external_body]
fn parse_fixed_offset(text: &str) -> (r: Option<i32>)
    ensures
        r == fixed_offset_of(text@),
        is_colon_offset(text@) ==> r == colon_offset_value(text@),
{
    text.parse::<chrono::FixedOffset>().ok().map(|o| o.local_minus_utc())
}

/// Relies on chrono's `DateTime::from_timestamp_micros`: whether the instant is representable
/// depends on the number alone.
#[verifier::external_body]
fn micros_representable(micros: i64) -> (r: bool)
    ensures
        r == micros_in_range(micros),
{
    chrono::DateTime::from_timestamp_micros(micros).is_some()
}

/// An offset token as the user line spells it: a sign, two digits of hours, and two digits of
/// minutes below 60.
pub open spec fn is_offset_token(t: Seq<u8>) -> bool {
    &&& t.len() == 5
    &&& (t[0] == 43 || t[0] == 45)
    &&& 48 <= t[1] <= 57 && 48 <= t[2] <= 57
    &&& 48 <= t[3] <= 53 && 48 <= t[4] <= 57
}

/// Whether `s` begins with `p`.
pub open spec fn starts_with(s: Seq<u8>, p: Seq<u8>) -> bool {
    s.len() >= p.len() && s.subrange(0, p.len() as int) == p
}

fn has_prefix(s: &[u8], p: &[u8]) -> (r: bool)
    ensures
        r == starts_with(s@, p@),
{
    if s.len() < p.len() {
        return false;
    }
    bytes_eq(&s[0..p.len()], p)
}

/// What a user line says: name, email, microseconds since the epoch, offset in seconds.
pub type UserView = (Seq<char>, Seq<char>, int, int);

/// An author or committer: who, and when in which time zone.
#[derive(Debug, Clone, PartialEq, Eq)]
pub struct User {
    pub name: String,
    pub email: String,
    /// Microseconds since the Unix epoch.
    pub timestamp_micros: i64,
    /// Seconds east of UTC.
    pub offset_seconds: i32,
}

impl View for User {
    type V = UserView;

    open spec fn view(&self) -> UserView {
        (self.name@, self.email@, self.timestamp_micros as int, self.offset_seconds as int)
    }
}

/// An offset that lies strictly within a day, as every time zone's does.
pub open spec fn offset_in_day(o: int) -> bool {
    -86400 < o < 86400
}

/// Two decimal digits of `n < 100`.
pub open spec fn two_digits(n: int) -> Seq<u8> {
    seq![(48 + n / 10) as u8, (48 + n % 10) as u8]
}

/// An offset as the user line spells it: sign, hours and minutes, and seconds where there are any.
pub open spec fn offset_bytes(o: int) -> Seq<u8> {
    let a = if o < 0 { -o } else { o };
    let sign: u8 = if o < 0 { 45 } else { 43 };
    let secs = a % 60;
    seq![sign] + two_digits(a / 3600) + two_digits(a / 60 % 60) + if secs != 0 {
        two_digits(secs)
    } else {
        Seq::<u8>::empty()
    }
}

/// A user line: `<name> <<email>> <microseconds> <offset>`.
#[verifier::opaque]
pub open spec fn user_bytes(u: UserView) -> Seq<u8> {
    encode_utf8(u.0) + seq![32u8, 60] + encode_utf8(u.1) + seq![62u8, 32] + signed_decimal(u.2)
        + seq![32u8] + offset_bytes(u.3)
}

/// What a user line holds, where it is one: it splits at its first three spaces into the name,
/// the email in angle brackets, the microseconds, and the offset `±HHMM` (minutes below 60),
/// which chrono reads after a colon is put after its third byte.
#[verifier::opaque]
pub open spec fn parse_user(u: Seq<u8>) -> Option<UserView> {
    let a = index_of(u, 32) as int;
    let r1 = u.subrange(a + 1, u.len() as int);
    let b = index_of(r1, 32) as int;
    let tok = r1.subrange(0, b);
    let r2 = r1.subrange(b + 1, r1.len() as int);
    let c = index_of(r2, 32) as int;
    let ts = r2.subrange(0, c);
    let off = r2.subrange(c + 1, r2.len() as int);
    let name = u.subrange(0, a);
    let email = tok.subrange(1, tok.len() - 1);
    let colon = off.subrange(0, 3) + seq![58u8] + off.subrange(3, off.len() as int);
    if a < u.len() && b < r1.len() && c < r2.len() && tok.len() >= 2 && tok[0] == 60 && tok.last()
        == 62 && is_offset_token(off) && valid_utf8(name) && valid_utf8(email) && valid_utf8(colon)
        && signed_value(ts) is Some && micros_in_range(signed_value(ts).unwrap() as i64)
        && offset_of_text(decode_utf8(colon)) is Some {
        Some(
            (
                decode_utf8(name),
                decode_utf8(email),
                signed_value(ts).unwrap(),
                offset_of_text(decode_utf8(colon)).unwrap() as int,
            ),
        )
    } else {
        None
    }
}

/// The parts of `s` before and after its first occurrence of `x` (the whole and nothing when
/// there is none).
fn split_at_byte<'a>(s: &'a [u8], x: u8) -> (r: (&'a [u8], &'a [u8], bool))
    ensures
        r.2 == (index_of(s@, x) < s@.len()),
        r.0@ == s@.subrange(0, index_of(s@, x) as int),
        r.2 ==> r.1@ == s@.subrange(index_of(s@, x) as int + 1, s@.len() as int),
        !r.2 ==> r.1@.len() == 0,
{
    proof {
        lemma_index_of_bounds(s@, x);
    }
    let n = s.len();
    match find_byte(s, 0, x) {
        Some(k) => {
            proof {
                lemma_index_of(s@, x, k as int);
            }
            (&s[0..k], &s[k + 1..n], true)
        },
        None => {
            proof {
                lemma_index_of(s@, x, n as int);
            }
            assert(s@.subrange(0, n as int) =~= s@);
            (s, &s[n..n], false)
        },
    }
}

impl User {
    /// Reads a user line from its bytes.
    pub fn from_bytes(u: &[u8]) -> (r: Result<User, GitError>)
        ensures
            match r {
                Ok(user) => parse_user(u@) == Some(user@),
                Err(e) => parse_user(u@) is None && e == GitError::MalformedUser,
            },
    {
        reveal(parse_user);
        let (name, r1, found1) = split_at_byte(u, 32);
        let (tok, r2, found2) = split_at_byte(r1, 32);
        let (ts, off, found3) = split_at_byte(r2, 32);
        if !found1 || !found2 || !found3 {
            return Err(GitError::MalformedUser);
        }
        let tn = tok.len();
        if tn < 2 || tok[0] != 60 || tok[tn - 1] != 62 {
            return Err(GitError::MalformedUser);
        }
        let email_bytes = &tok[1..tn - 1];
        let on = off.len();
        if on != 5 || !(off[0] == 43 || off[0] == 45) || off[1] < 48 || off[1] > 57 || off[2] < 48
            || off[2] > 57 || off[3] < 48 || off[3] > 53 || off[4] < 48 || off[4] > 57 {
            return Err(GitError::MalformedUser);
        }
        let mut colon: Vec<u8> = Vec::new();
        push_all(&mut colon, &off[0..3]);
        colon.push(58);
        push_all(&mut colon, &off[3..on]);
        assert(colon@ =~= off@.subrange(0, 3) + seq![58u8] + off@.subrange(3, off@.len() as int));
        let name = match utf8_text(name) {
            Some(t) => t,
            None => {
                return Err(GitError::MalformedUser);
            },
        };
        let email = match utf8_text(email_bytes) {
            Some(t) => t,
            None => {
                return Err(GitError::MalformedUser);
            },
        };
        let colon_text = match utf8_text(colon.as_slice()) {
            Some(t) => t,
            None => {
                return Err(GitError::MalformedUser);
            },
        };
        let micros = match parse_i64(ts) {
            Some(v) => v,
            None => {
                return Err(GitError::MalformedUser);
            },
        };
        if !micros_representable(micros) {
            return Err(GitError::MalformedUser);
        }
        let offset = match parse_fixed_offset(colon_text.as_str()) {
            Some(o) => o,
            None => {
                return Err(GitError::MalformedUser);
            },
        };
        Ok(User { name, email, timestamp_micros: micros, offset_seconds: offset })
    }

    /// Reads a user line.
    pub fn from_str(s: &str) -> (r: Result<User, GitError>)
        ensures
            match r {
                Ok(user) => parse_user(encode_utf8(s@)) == Some(user@),
                Err(e) => parse_user(encode_utf8(s@)) is None && e == GitError::MalformedUser,
            },
    {
        Self::from_bytes(s.as_bytes())
    }

    /// The user line's bytes.
    pub fn to_bytes(&self) -> (r: Vec<u8>)
        requires
            offset_in_day(self.offset_seconds as int),
        ensures
            r@ == user_bytes(self@),
    {
        let mut out: Vec<u8> = Vec::new();
        push_all(&mut out, self.name.as_str().as_bytes());
        out.push(32);
        out.push(60);
        push_all(&mut out, self.email.as_str().as_bytes());
        out.push(62);
        out.push(32);
        push_i64(&mut out, self.timestamp_micros);
        out.push(32);
        push_offset(&mut out, self.offset_seconds);
        reveal(user_bytes);
        assert(out@ =~= user_bytes(self@));
        out
    }

    /// The user line.
    pub fn to_string(&self) -> (r: String)
        requires
            offset_in_day(self.offset_seconds as int),
        ensures
            encode_utf8(r@) == user_bytes(self@),
    {
        let b = self.to_bytes();
        match utf8_text(b.as_slice()) {
            Some(s) => s,
            None => {
                proof {
                    lemma_user_bytes_utf8(self@);
                }
                String::new()
            },
        }
    }
}

fn push_two_digits(out: &mut Vec<u8>, n: i32)
    requires
        0 <= n < 100,
    ensures
        final(out)@ == old(out)@ + two_digits(n as int),
{
    out.push((48 + n / 10) as u8);
    out.push((48 + n % 10) as u8);
    assert(final(out)@ =~= old(out)@ + two_digits(n as int));
}

fn push_offset(out: &mut Vec<u8>, o: i32)
    requires
        offset_in_day(o as int),
    ensures
        final(out)@ == old(out)@ + offset_bytes(o as int),
{
    let a: i32 = if o < 0 { -o } else { o };
    out.push(if o < 0 { 45u8 } else { 43u8 });
    push_two_digits(out, a / 3600);
    push_two_digits(out, a / 60 % 60);
    let secs = a % 60;
    if secs != 0 {
        push_two_digits(out, secs);
    }
    assert(final(out)@ =~= old(out)@ + offset_bytes(o as int));
}

/// A user line is valid UTF-8.
#[verifier::rlimit(80)]
#[verifier::spinoff_prover]
pub proof fn lemma_user_bytes_utf8(u: UserView)
    requires
        offset_in_day(u.3),
        i64::MIN <= u.2 <= i64::MAX,
    ensures
        valid_utf8(user_bytes(u)),
{
    reveal(user_bytes);
    crate::bytes::lemma_signed_decimal(u.2);
    let tail = seq![62u8, 32] + signed_decimal(u.2) + seq![32u8] + offset_bytes(u.3);
    assert(crate::bytes::is_ascii_bytes(tail));
    crate::bytes::lemma_ascii_utf8(tail);
    crate::bytes::lemma_ascii_utf8(seq![32u8, 60]);
    let e0 = encode_utf8(u.0);
    let e1 = encode_utf8(u.1);
    encode_utf8_valid_utf8(u.0);
    encode_utf8_valid_utf8(u.1);
    valid_utf8_concat(e0, seq![32u8, 60]);
    valid_utf8_concat(e0 + seq![32u8, 60], e1);
    valid_utf8_concat(e0 + seq![32u8, 60] + e1, tail);
    assert(user_bytes(u) =~= e0 + seq![32u8, 60] + e1 + tail);
}

pub open spec fn tree_prefix() -> Seq<u8> {
    seq![116u8, 114, 101, 101, 32]
}

pub open spec fn parent_prefix() -> Seq<u8> {
    seq![112u8, 97, 114, 101, 110, 116, 32]
}

pub open spec fn author_prefix() -> Seq<u8> {
    seq![97u8, 117, 116, 104, 111, 114, 32]
}

pub open spec fn committer_prefix() -> Seq<u8> {
    seq![99u8, 111, 109, 109, 105, 116, 116, 101, 114, 32]
}

/// The position of the first blank line separator `\n\n`, or `b.len()` where there is none.
pub open spec fn index_of_blank(b: Seq<u8>) -> nat
    decreases b.len(),
{
    if b.len() < 2 {
        b.len()
    } else if b[0] == 10 && b[1] == 10 {
        0
    } else {
        1 + index_of_blank(b.drop_first())
    }
}

/// The first line of `r` and what follows its newline (nothing, where it has none).
pub open spec fn split_line(r: Seq<u8>) -> (Seq<u8>, Seq<u8>) {
    let k = index_of(r, 10) as int;
    if k < r.len() {
        (r.subrange(0, k), r.subrange(k + 1, r.len() as int))
    } else {
        (r, Seq::<u8>::empty())
    }
}

/// The hash texts of the `parent ` lines at the front of `r`, and the lines after them.
pub open spec fn parent_lines(r: Seq<u8>) -> (Seq<Seq<u8>>, Seq<u8>)
    decreases r.len(),
{
    if r.len() > 0 && starts_with(split_line(r).0, parent_prefix()) {
        let line = split_line(r).0;
        let rest = split_line(r).1;
        let ps = parent_lines(rest);
        (seq![line.subrange(7, line.len() as int)] + ps.0, ps.1)
    } else {
        (Seq::<Seq<u8>>::empty(), r)
    }
}

/// What a commit says: tree, parents (raw hash bytes), author, committer, the header lines it
/// does not interpret, and the message.
pub type CommitView = (Seq<u8>, Seq<Seq<u8>>, UserView, UserView, Seq<char>, Seq<char>);

/// What the commit text `b` holds, where it is one. The header runs to the first blank line
/// and the message follows it. The header holds a `tree` line, any number of `parent` lines,
/// an `author` and a `committer` line, and then lines kept as they are.
pub open spec fn parse_commit(b: Seq<u8>) -> Option<CommitView> {
    let k = index_of_blank(b) as int;
    let h = b.subrange(0, k);
    let msg = b.subrange(k + 2, b.len() as int);
    let l0 = split_line(h).0;
    let ps = parent_lines(split_line(h).1);
    let la = split_line(ps.1).0;
    let lc = split_line(split_line(ps.1).1).0;
    let rest = split_line(split_line(ps.1).1).1;
    let tree = l0.subrange(5, l0.len() as int);
    let author = parse_user(la.subrange(7, la.len() as int));
    let committer = parse_user(lc.subrange(10, lc.len() as int));
    if valid_utf8(b) && k < b.len() && starts_with(l0, tree_prefix()) && is_hash_text(tree)
        && (forall|i: int| 0 <= i < ps.0.len() ==> is_hash_text(#[trigger] ps.0[i])) && starts_with(
        la,
        author_prefix(),
    ) && author is Some && starts_with(lc, committer_prefix()) && committer is Some && valid_utf8(
        rest,
    ) && valid_utf8(msg) {
        Some(
            (
                unhex(tree),
                ps.0.map_values(|t: Seq<u8>| unhex(t)),
                author.unwrap(),
                committer.unwrap(),
                decode_utf8(rest),
                decode_utf8(msg),
            ),
        )
    } else {
        None
    }
}

/// The `parent` lines for the given hashes.
pub open spec fn parents_bytes(ps: Seq<Seq<u8>>) -> Seq<u8>
    decreases ps.len(),
{
    if ps.len() == 0 {
        Seq::<u8>::empty()
    } else {
        parents_bytes(ps.drop_last()) + parent_prefix() + hex_of(ps.last()) + seq![10u8]
    }
}

/// A commit's text: header lines, a blank line, the message. The uninterpreted header lines
/// come last in the header, where there are any.
pub open spec fn commit_bytes(c: CommitView) -> Seq<u8> {
    tree_prefix() + hex_of(c.0) + seq![10u8] + parents_bytes(c.1) + author_prefix() + user_bytes(
        c.2,
    ) + seq![10u8] + committer_prefix() + user_bytes(c.3) + seq![10u8] + if c.4.len() > 0 {
        encode_utf8(c.4) + seq![10u8]
    } else {
        Seq::<u8>::empty()
    } + seq![10u8] + encode_utf8(c.5)
}

/// A commit: the tree it records, its parents, who wrote and committed it, header lines kept
/// verbatim, and its message.
#[derive(Debug, Clone, PartialEq, Eq)]
pub struct Commit {
    pub tree: crate::hash::Hash,
    pub parent: Vec<crate::hash::Hash>,
    pub author: User,
    pub committer: User,
    pub rest_of_header: String,
    pub message: String,
}

pub open spec fn hash_views(s: Seq<crate::hash::Hash>) -> Seq<Seq<u8>> {
    s.map_values(|h: crate::hash::Hash| h@)
}

impl View for Commit {
    type V = CommitView;

    open spec fn view(&self) -> CommitView {
        (
            self.tree@,
            hash_views(self.parent@),
            self.author@,
            self.committer@,
            self.rest_of_header@,
            self.message@,
        )
    }
}

/// The first line of `r` and what follows it.
fn next_line<'a>(r: &'a [u8]) -> (res: (&'a [u8], &'a [u8]))
    ensures
        (res.0@, res.1@) == split_line(r@),
{
    proof {
        lemma_index_of_bounds(r@, 10);
    }
    let (line, rest, found) = split_at_byte(r, 10);
    if found {
        (line, rest)
    } else {
        assert(line@ =~= r@);
        (line, rest)
    }
}

/// The position of the first `\n\n`.
fn find_blank(b: &[u8]) -> (r: usize)
    ensures
        r == index_of_blank(b@),
        r < b@.len() ==> r + 2 <= b@.len(),
{
    let n = b.len();
    let mut i: usize = 0;
    assert(b@.subrange(0, n as int) =~= b@);
    while n - i >= 2 && !(b[i] == 10 && b[i + 1] == 10)
        invariant
            0 <= i <= n,
            n == b@.len(),
            index_of_blank(b@) == i + index_of_blank(b@.subrange(i as int, n as int)),
        decreases n - i,
    {
        assert(b@.subrange(i as int, n as int).drop_first() =~= b@.subrange(i as int + 1, n as int));
        i = i + 1;
    }
    if n - i >= 2 {
        i
    } else {
        n
    }
}

impl Commit {
    /// Reads a commit from its text's bytes.
    pub fn from_bytes(b: &[u8]) -> (r: Result<Commit, GitError>)
        ensures
            match r {
                Ok(c) => parse_commit(b@) == Some(c@),
                Err(e) => parse_commit(b@) is None && e == GitError::MalformedCommit,
            },
    {
        if utf8_text(b).is_none() {
            return Err(GitError::MalformedCommit);
        }
        let n = b.len();
        let k = find_blank(b);
        if k >= n {
            return Err(GitError::MalformedCommit);
        }
        let h = &b[0..k];
        let msg = &b[k + 2..n];
        let (l0, r0) = next_line(h);
        if !has_prefix(l0, &[116u8, 114, 101, 101, 32]) {
            assert(seq![116u8, 114, 101, 101, 32] =~= tree_prefix());
            return Err(GitError::MalformedCommit);
        }
        assert(seq![116u8, 114, 101, 101, 32] =~= tree_prefix());
        let tree = match hash_from_text(&l0[5..l0.len()]) {
            Some(t) => t,
            None => {
                return Err(GitError::MalformedCommit);
            },
        };
        let (parent, r1) = match parse_parents(r0) {
            Some(p) => p,
            None => {
                return Err(GitError::MalformedCommit);
            },
        };
        let (la, r2) = next_line(r1);
        let (lc, rest) = next_line(r2);
        assert(seq![97u8, 117, 116, 104, 111, 114, 32] =~= author_prefix());
        assert(seq![99u8, 111, 109, 109, 105, 116, 116, 101, 114, 32] =~= committer_prefix());
        if !has_prefix(la, &[97u8, 117, 116, 104, 111, 114, 32]) || !has_prefix(
            lc,
            &[99u8, 111, 109, 109, 105, 116, 116, 101, 114, 32],
        ) {
            return Err(GitError::MalformedCommit);
        }
        let author = match User::from_bytes(&la[7..la.len()]) {
            Ok(u) => u,
            Err(_) => {
                return Err(GitError::MalformedCommit);
            },
        };
        let committer = match User::from_bytes(&lc[10..lc.len()]) {
            Ok(u) => u,
            Err(_) => {
                return Err(GitError::MalformedCommit);
            },
        };
        let rest_of_header = match utf8_text(rest) {
            Some(t) => t,
            None => {
                return Err(GitError::MalformedCommit);
            },
        };
        let message = match utf8_text(msg) {
            Some(t) => t,
            None => {
                return Err(GitError::MalformedCommit);
            },
        };
        let c = Commit { tree, parent, author, committer, rest_of_header, message };
        assert(c@.1 =~= parent_lines(r0@).0.map_values(|t: Seq<u8>| unhex(t)));
        Ok(c)
    }

    /// Reads a commit from its text.
    pub fn from_str(s: &str) -> (r: Result<Commit, GitError>)
        ensures
            match r {
                Ok(c) => parse_commit(encode_utf8(s@)) == Some(c@),
                Err(e) => parse_commit(encode_utf8(s@)) is None && e == GitError::MalformedCommit,
            },
    {
        Self::from_bytes(s.as_bytes())
    }

    /// Whether both users' offsets lie within a day, as a commit's must to be written.
    pub open spec fn wf(&self) -> bool {
        offset_in_day(self.author.offset_seconds as int) && offset_in_day(
            self.committer.offset_seconds as int,
        )
    }

    /// The commit's text, as bytes.
    pub fn to_bytes(&self) -> (r: Vec<u8>)
        requires
            self.wf(),
        ensures
            r@ == commit_bytes(self@),
    {
        let mut out: Vec<u8> = Vec::new();
        push_all(&mut out, &[116u8, 114, 101, 101, 32]);
        push_all(&mut out, self.tree.to_raw_hex().as_slice());
        out.push(10);
        let ghost head = out@;
        let mut i: usize = 0;
        while i < self.parent.len()
            invariant
                0 <= i <= self.parent@.len(),
                out@ == head + parents_bytes(hash_views(self.parent@).subrange(0, i as int)),
            decreases self.parent@.len() - i,
        {
            push_all(&mut out, &[112u8, 97, 114, 101, 110, 116, 32]);
            push_all(&mut out, self.parent[i].to_raw_hex().as_slice());
            out.push(10);
            i = i + 1;
            proof {
                let p = hash_views(self.parent@).subrange(0, i as int);
                assert(p.drop_last() =~= hash_views(self.parent@).subrange(0, i as int - 1));
                assert(out@ =~= head + parents_bytes(p));
            }
        }
        assert(hash_views(self.parent@).subrange(0, self.parent@.len() as int) =~= hash_views(
            self.parent@,
        ));
        push_all(&mut out, &[97u8, 117, 116, 104, 111, 114, 32]);
        push_all(&mut out, self.author.to_bytes().as_slice());
        out.push(10);
        push_all(&mut out, &[99u8, 111, 109, 109, 105, 116, 116, 101, 114, 32]);
        push_all(&mut out, self.committer.to_bytes().as_slice());
        out.push(10);
        let rest = self.rest_of_header.as_str().as_bytes();
        if rest.len() > 0 {
            push_all(&mut out, rest);
            out.push(10);
        }
        out.push(10);
        push_all(&mut out, self.message.as_str().as_bytes());
        assert(out@ =~= commit_bytes(self@));
        out
    }
}

/// Reads the `parent` lines at the front of `r`.
fn parse_parents<'a>(r: &'a [u8]) -> (res: Option<(Vec<crate::hash::Hash>, &'a [u8])>)
    ensures
        match res {
            Some((ps, rest)) => (forall|i: int|
                0 <= i < parent_lines(r@).0.len() ==> is_hash_text(#[trigger] parent_lines(r@).0[i]))
                && hash_views(ps@) == parent_lines(r@).0.map_values(|t: Seq<u8>| unhex(t)) && rest@
                == parent_lines(r@).1,
            None => exists|i: int|
                0 <= i < parent_lines(r@).0.len() && !is_hash_text(#[trigger] parent_lines(r@).0[i]),
        },
{
    let mut ps: Vec<crate::hash::Hash> = Vec::new();
    let mut cur = r;
    let ghost texts: Seq<Seq<u8>> = Seq::empty();
    let pre: [u8; 7] = [112u8, 97, 114, 101, 110, 116, 32];
    assert(pre@ =~= parent_prefix());
    loop
        invariant
            pre@ == parent_prefix(),
            parent_lines(r@).0 == texts + parent_lines(cur@).0,
            parent_lines(r@).1 == parent_lines(cur@).1,
            forall|i: int| 0 <= i < texts.len() ==> is_hash_text(#[trigger] texts[i]),
            hash_views(ps@) == texts.map_values(|t: Seq<u8>| unhex(t)),
        ensures
            parent_lines(cur@).0.len() == 0,
            parent_lines(r@).0 == texts + parent_lines(cur@).0,
            parent_lines(r@).1 == parent_lines(cur@).1,
            parent_lines(cur@).1 == cur@,
            forall|i: int| 0 <= i < texts.len() ==> is_hash_text(#[trigger] texts[i]),
            hash_views(ps@) == texts.map_values(|t: Seq<u8>| unhex(t)),
        decreases cur@.len(),
    {
        if cur.len() == 0 {
            break;
        }
        let (line, rest) = next_line(cur);
        if !has_prefix(line, pre.as_slice()) {
            break;
        }
        let h = match hash_from_text(&line[7..line.len()]) {
            Some(h) => h,
            None => {
                assert(parent_lines(r@).0[texts.len() as int] == line@.subrange(7, line@.len() as int));
                return None;
            },
        };
        let ghost old_texts = texts;
        let ghost t = line@.subrange(7, line@.len() as int);
        proof {
            assert(parent_lines(cur@).0 == seq![t] + parent_lines(rest@).0);
            assert(texts + parent_lines(cur@).0 =~= texts.push(t) + parent_lines(rest@).0);
            texts = texts.push(t);
        }
        let ghost before = ps@;
        ps.push(h);
        assert(hash_views(ps@) =~= hash_views(before).push(h@));
        assert(texts.map_values(|t: Seq<u8>| unhex(t)) =~= old_texts.map_values(|t: Seq<u8>| unhex(t)).push(unhex(t)));
        cur = rest;
    }
    assert(parent_lines(cur@).0 =~= Seq::<Seq<u8>>::empty());
    assert(texts + Seq::<Seq<u8>>::empty() =~= texts);
    Some((ps, cur))
}

impl User {
    /// A user whose line the grammar can carry: an offset of whole minutes within a day, at an
    /// instant chrono can represent.
    pub fn new(name: String, email: String, timestamp_micros: i64, offset_seconds: i32) -> (r: Result<User, GitError>)
        ensures
            match r {
                Ok(u) => u@ == (name@, email@, timestamp_micros as int, offset_seconds as int)
                    && offset_in_day(offset_seconds as int) && offset_seconds % 60 == 0
                    && micros_in_range(timestamp_micros),
                Err(e) => e == GitError::MalformedUser && !(offset_in_day(offset_seconds as int)
                    && offset_seconds % 60 == 0 && micros_in_range(timestamp_micros)),
            },
    {
        if offset_seconds <= -86400 || offset_seconds >= 86400 || offset_seconds % 60 != 0
            || !micros_representable(timestamp_micros) {
            return Err(GitError::MalformedUser);
        }
        Ok(User { name, email, timestamp_micros, offset_seconds })
    }

    /// A copy of this user.
    pub fn duplicate(&self) -> (r: User)
        ensures
            r@ == self@,
    {
        User {
            name: self.name.clone(),
            email: self.email.clone(),
            timestamp_micros: self.timestamp_micros,
            offset_seconds: self.offset_seconds,
        }
    }
}

impl Commit {
    /// A commit of `tree` by `user` as author and committer, on top of `parents`, with no
    /// header lines beyond the interpreted ones.
    pub fn new(tree: crate::hash::Hash, parents: Vec<crate::hash::Hash>, user: User, message: String) -> (r: Commit)
        ensures
            r@ == (tree@, hash_views(parents@), user@, user@, Seq::<char>::empty(), message@),
    {
        let author = user.duplicate();
        Commit { tree, parent: parents, author, committer: user, rest_of_header: String::new(), message }
    }
}

/// A user the user line can carry and give back: name and email without spaces or
/// newlines, an instant chrono can represent, and an offset of whole minutes within a day.
pub open spec fn user_encodable(u: UserView) -> bool {
    &&& !encode_utf8(u.0).contains(32u8) && !encode_utf8(u.0).contains(10u8)
    &&& !encode_utf8(u.1).contains(32u8) && !encode_utf8(u.1).contains(10u8)
    &&& i64::MIN <= u.2 <= i64::MAX && micros_in_range(u.2 as i64)
    &&& offset_in_day(u.3) && u.3 % 60 == 0
}

#[verifier::rlimit(80)]
#[verifier::spinoff_prover]
proof fn lemma_offset_round_trip(o: int)
    requires
        offset_in_day(o),
        o % 60 == 0,
    ensures
        offset_bytes(o).len() == 5,
        forall|i: int| 0 <= i < 5 ==> #[trigger] offset_bytes(o)[i] != 32 && offset_bytes(o)[i] != 10
            && offset_bytes(o)[i] < 128,
        ({
            let t = offset_bytes(o);
            let colon = t.subrange(0, 3) + seq![58u8] + t.subrange(3, 5);
            crate::bytes::is_ascii_bytes(colon) && offset_of_text(ascii_chars(colon)) == Some(o as i32)
        }),
        is_offset_token(offset_bytes(o)),
{
    let a = if o < 0 { -o } else { o };
    let h = a / 3600;
    let m = a / 60 % 60;
    assert(a % 60 == 0);
    assert(a == h * 3600 + m * 60) by (nonlinear_arith)
        requires
            a >= 0,
            a % 60 == 0,
            h == a / 3600,
            m == a / 60 % 60,
    ;
    assert(0 <= h < 24);
    assert(0 <= m < 60);
    let t = offset_bytes(o);
    assert(t =~= seq![if o < 0 { 45u8 } else { 43u8 }] + two_digits(h) + two_digits(m));
    let colon = t.subrange(0, 3) + seq![58u8] + t.subrange(3, 5);
    let c = ascii_chars(colon);
    assert(c.len() == 6);
    assert(c[1] as int == 48 + h / 10);
    assert(c[2] as int == 48 + h % 10);
    assert(c[3] == ':');
    assert(c[4] as int == 48 + m / 10);
    assert(c[5] as int == 48 + m % 10);
    assert(is_colon_offset(c));
    assert((h / 10) * 10 + h % 10 == h);
    assert((m / 10) * 10 + m % 10 == m);
}

/// A user line reads back as the user it was written from.
#[verifier::rlimit(80)]
#[verifier::spinoff_prover]
pub proof fn lemma_user_round_trip(u: UserView)
    requires
        user_encodable(u),
    ensures
        parse_user(user_bytes(u)) == Some(u),
{
    let n = encode_utf8(u.0);
    let e = encode_utf8(u.1);
    let d = signed_decimal(u.2);
    let o = offset_bytes(u.3);
    crate::bytes::lemma_signed_decimal(u.2);
    lemma_offset_round_trip(u.3);
    reveal(user_bytes);
    reveal(parse_user);
    let ub = user_bytes(u);
    assert(ub == n + seq![32u8, 60] + e + seq![62u8, 32] + d + seq![32u8] + o);
    assert forall|j: int| 0 <= j < n.len() implies ub[j] != 32 by {
        assert(ub[j] == n[j]);
        assert(!n.contains(32u8));
    }
    lemma_index_of(ub, 32, n.len() as int);
    let r1 = ub.subrange(n.len() as int + 1, ub.len() as int);
    assert(r1 =~= seq![60u8] + e + seq![62u8, 32] + d + seq![32u8] + o);
    assert forall|j: int| 0 <= j < e.len() as int + 2 implies r1[j] != 32 by {
        if 1 <= j < e.len() + 1 {
            assert(r1[j] == e[j - 1]);
            assert(!e.contains(32u8));
        }
    }
    lemma_index_of(r1, 32, e.len() as int + 2);
    let tok = r1.subrange(0, e.len() as int + 2);
    assert(tok =~= seq![60u8] + e + seq![62u8]);
    assert(tok.subrange(1, tok.len() - 1) =~= e);
    let r2 = r1.subrange(e.len() as int + 3, r1.len() as int);
    assert(r2 =~= d + seq![32u8] + o);
    assert forall|j: int| 0 <= j < d.len() implies r2[j] != 32 by {
        assert(r2[j] == d[j]);
    }
    lemma_index_of(r2, 32, d.len() as int);
    assert(r2.subrange(0, d.len() as int) =~= d);
    assert(r2.subrange(d.len() as int + 1, r2.len() as int) =~= o);
    assert(ub.subrange(0, n.len() as int) =~= n);
    encode_utf8_valid_utf8(u.0);
    encode_utf8_valid_utf8(u.1);
    encode_utf8_decode_utf8(u.0);
    encode_utf8_decode_utf8(u.1);
    let colon = o.subrange(0, 3) + seq![58u8] + o.subrange(3, 5);
    crate::bytes::lemma_ascii_utf8(colon);
    assert(o.subrange(3, o.len() as int) =~= o.subrange(3, 5));
}

/// No newline in `s`.
pub open spec fn one_line(s: Seq<u8>) -> bool {
    !s.contains(10u8)
}

/// No two newlines in a row.
pub open spec fn no_blank(s: Seq<u8>) -> bool {
    forall|j: int| 0 <= j < s.len() - 1 ==> !(#[trigger] s[j] == 10 && s[j + 1] == 10)
}

/// Lines joined by single newlines: not empty, no blank line, no newline at either end.
#[verifier::opaque]
pub open spec fn joined_lines(s: Seq<u8>) -> bool {
    s.len() > 0 && no_blank(s) && s[0] != 10 && s.last() != 10
}

proof fn lemma_one_line_joined(s: Seq<u8>)
    requires
        s.len() > 0,
        one_line(s),
    ensures
        joined_lines(s),
{
    reveal(joined_lines);
    assert(s[0] != 10 && s.last() != 10) by {
        if s[0] == 10 {
            assert(s.contains(10u8));
        }
        if s.last() == 10 {
            assert(s[s.len() - 1] == 10);
            assert(s.contains(10u8));
        }
    }
    assert forall|j: int| 0 <= j < s.len() - 1 implies !(#[trigger] s[j] == 10 && s[j + 1] == 10) by {
        if s[j] == 10 {
            assert(s.contains(10u8));
        }
    }
}

proof fn lemma_join(x: Seq<u8>, y: Seq<u8>)
    requires
        joined_lines(x),
        joined_lines(y),
    ensures
        joined_lines(x + seq![10u8] + y),
{
    reveal(joined_lines);
    let z = x + seq![10u8] + y;
    assert forall|j: int| 0 <= j < z.len() - 1 implies !(#[trigger] z[j] == 10 && z[j + 1] == 10) by {
        if j < x.len() - 1 {
            assert(z[j] == x[j] && z[j + 1] == x[j + 1]);
        } else if j == x.len() - 1 {
            assert(z[j] == x.last());
        } else if j == x.len() {
            assert(z[j + 1] == y[0]);
        } else {
            assert(z[j] == y[j - x.len() - 1] && z[j + 1] == y[j - x.len()]);
        }
    }
    assert(z.last() == y.last());
}

/// The position of the first blank line is `k` where the first `\n\n` stands at `k`.
proof fn lemma_index_of_blank(b: Seq<u8>, k: int)
    requires
        0 <= k,
        k + 1 < b.len(),
        b[k] == 10 && b[k + 1] == 10,
        forall|j: int| 0 <= j < k ==> !(#[trigger] b[j] == 10 && b[j + 1] == 10),
    ensures
        index_of_blank(b) == k,
    decreases k,
{
    if k > 0 {
        let t = b.drop_first();
        assert forall|j: int| 0 <= j < k - 1 implies !(#[trigger] t[j] == 10 && t[j + 1] == 10) by {
            assert(t[j] == b[j + 1] && t[j + 1] == b[j + 2]);
        }
        assert(!(b[0] == 10 && b[1] == 10));
        lemma_index_of_blank(t, k - 1);
    }
}

/// The line of a `parent`.
#[verifier::opaque]
pub open spec fn parent_line(p: Seq<u8>) -> Seq<u8> {
    parent_prefix() + hex_of(p)
}

proof fn lemma_parents_front(p: Seq<u8>, ps: Seq<Seq<u8>>)
    ensures
        parents_bytes(seq![p] + ps) == parent_line(p) + seq![10u8] + parents_bytes(ps),
    decreases ps.len(),
{
    reveal(parent_line);
    let u = seq![p] + ps;
    if ps.len() == 0 {
        assert(u.drop_last() =~= Seq::<Seq<u8>>::empty());
        assert(u.last() == p);
        assert(parents_bytes(u) == parents_bytes(u.drop_last()) + parent_prefix() + hex_of(u.last())
            + seq![10u8]);
        assert(parents_bytes(u.drop_last()) == Seq::<u8>::empty());
        assert(parents_bytes(ps) == Seq::<u8>::empty());
        assert(parents_bytes(u) =~= parent_line(p) + seq![10u8] + parents_bytes(ps));
    } else {
        lemma_parents_front(p, ps.drop_last());
        assert(u.drop_last() =~= seq![p] + ps.drop_last());
        assert(u.last() == ps.last());
        assert(parents_bytes(u) =~= parent_line(p) + seq![10u8] + parents_bytes(ps));
    }
}

proof fn lemma_hash_line(prefix: Seq<u8>, p: Seq<u8>)
    requires
        p.len() == 20,
        crate::bytes::is_ascii_bytes(prefix),
        one_line(prefix),
    ensures
        one_line(prefix + hex_of(p)),
        crate::bytes::is_ascii_bytes(prefix + hex_of(p)),
        (prefix + hex_of(p)).subrange(prefix.len() as int, prefix.len() as int + 40) == hex_of(p),
        is_hash_text(hex_of(p)),
        unhex(hex_of(p)) == p,
{
    crate::hash::lemma_hex_of(p);
    let l = prefix + hex_of(p);
    assert forall|j: int| 0 <= j < l.len() implies #[trigger] l[j] != 10 && l[j] < 128 by {
        if j < prefix.len() {
            assert(l[j] == prefix[j]);
            if l[j] == 10 {
                assert(prefix.contains(10u8));
            }
        } else {
            assert(l[j] == hex_of(p)[j - prefix.len()]);
        }
    }
    assert(l.subrange(prefix.len() as int, prefix.len() as int + 40) =~= hex_of(p));
}

/// A line with no newline in it, a newline, and the rest: the first line is that line.
proof fn lemma_split_first_line(x: Seq<u8>, rest: Seq<u8>)
    requires
        one_line(x),
    ensures
        split_line(x + seq![10u8] + rest) == (x, rest),
{
    let r = x + seq![10u8] + rest;
    assert forall|j: int| 0 <= j < x.len() implies r[j] != 10 by {
        assert(r[j] == x[j]);
        if x[j] == 10 {
            assert(x.contains(10u8));
        }
    }
    lemma_index_of(r, 10, x.len() as int);
    assert(r.subrange(0, x.len() as int) =~= x);
    assert(r.subrange(x.len() as int + 1, r.len() as int) =~= rest);
}

#[verifier::rlimit(80)]
#[verifier::spinoff_prover]
proof fn lemma_parent_line(p: Seq<u8>)
    requires
        p.len() == 20,
    ensures
        one_line(parent_line(p)),
        crate::bytes::is_ascii_bytes(parent_line(p)),
        starts_with(parent_line(p), parent_prefix()),
        parent_line(p).subrange(7, parent_line(p).len() as int) == hex_of(p),
        is_hash_text(hex_of(p)),
        unhex(hex_of(p)) == p,
{
    reveal(parent_line);
    let pre = parent_prefix();
    assert(crate::bytes::is_ascii_bytes(pre));
    assert(one_line(pre)) by {
        if pre.contains(10u8) {
            let j = choose|j: int| 0 <= j < pre.len() && pre[j] == 10u8;
        }
    }
    lemma_hash_line(pre, p);
    let l = parent_line(p);
    assert(l.subrange(0, 7) =~= pre);
    assert(l.subrange(7, l.len() as int) =~= hex_of(p));
}

/// `parent` lines in front of a line that is not one are read as those parents.
#[verifier::rlimit(80)]
#[verifier::spinoff_prover]
proof fn lemma_parent_lines(ps: Seq<Seq<u8>>, y: Seq<u8>)
    requires
        forall|i: int| 0 <= i < ps.len() ==> (#[trigger] ps[i]).len() == 20,
        y.len() > 0,
        y[0] != 112,
    ensures
        parent_lines(parents_bytes(ps) + y) == (ps.map_values(|p: Seq<u8>| hex_of(p)), y),
    decreases ps.len(),
{
    if ps.len() == 0 {
        assert(parents_bytes(ps) + y =~= y);
        let l = split_line(y).0;
        if l.len() > 0 {
            assert(l[0] == y[0]);
        }
        assert(!starts_with(l, parent_prefix()));
        assert(ps.map_values(|p: Seq<u8>| hex_of(p)) =~= Seq::<Seq<u8>>::empty());
    } else {
        let p = ps[0];
        let rest = ps.drop_first();
        assert(ps =~= seq![p] + rest);
        lemma_parents_front(p, rest);
        assert forall|i: int| 0 <= i < rest.len() implies (#[trigger] rest[i]).len() == 20 by {
            assert(rest[i] == ps[i + 1]);
        }
        lemma_parent_lines(rest, y);
        let lp = parent_line(p);
        lemma_parent_line(p);
        let tail = parents_bytes(rest) + y;
        assert(parents_bytes(ps) + y =~= lp + seq![10u8] + tail);
        lemma_split_first_line(lp, tail);
        assert(ps.map_values(|p: Seq<u8>| hex_of(p)) =~= seq![hex_of(p)] + rest.map_values(
            |p: Seq<u8>| hex_of(p),
        ));
    }
}

/// A commit its text can carry and give back: 20-byte hashes, users the user line can carry,
/// and extra header lines with no blank line and no newline at either end.
pub open spec fn commit_encodable(c: CommitView) -> bool {
    &&& c.0.len() == 20
    &&& forall|i: int| 0 <= i < c.1.len() ==> (#[trigger] c.1[i]).len() == 20
    &&& user_encodable(c.2)
    &&& user_encodable(c.3)
    &&& encode_utf8(c.4).len() > 0 ==> joined_lines(encode_utf8(c.4))
}

#[verifier::rlimit(80)]
#[verifier::spinoff_prover]
proof fn lemma_user_line(prefix: Seq<u8>, u: UserView)
    requires
        user_encodable(u),
        crate::bytes::is_ascii_bytes(prefix),
        one_line(prefix),
        prefix.len() > 0,
    ensures
        one_line(prefix + user_bytes(u)),
        valid_utf8(prefix + user_bytes(u)),
        (prefix + user_bytes(u)).subrange(0, prefix.len() as int) == prefix,
        (prefix + user_bytes(u)).subrange(prefix.len() as int, (prefix + user_bytes(u)).len() as int)
            == user_bytes(u),
{
    let n = encode_utf8(u.0);
    let e = encode_utf8(u.1);
    let d = signed_decimal(u.2);
    let o = offset_bytes(u.3);
    crate::bytes::lemma_signed_decimal(u.2);
    lemma_offset_round_trip(u.3);
    reveal(user_bytes);
    let ub = user_bytes(u);
    assert(ub == n + seq![32u8, 60] + e + seq![62u8, 32] + d + seq![32u8] + o);
    let l = prefix + ub;
    assert forall|j: int| 0 <= j < l.len() implies l[j] != 10 by {
        if j < prefix.len() {
            assert(l[j] == prefix[j]);
            if prefix[j] == 10 {
                assert(prefix.contains(10u8));
            }
        } else {
            let k = j - prefix.len();
            assert(l[j] == ub[k]);
            if k < n.len() {
                assert(ub[k] == n[k]);
                if n[k] == 10 {
                    assert(n.contains(10u8));
                }
            } else if k < n.len() + 2 {
            } else if k < n.len() + 2 + e.len() {
                assert(ub[k] == e[k - n.len() - 2]);
                if e[k - n.len() - 2] == 10 {
                    assert(e.contains(10u8));
                }
            } else if k < n.len() + 4 + e.len() {
            } else if k < n.len() + 4 + e.len() + d.len() {
                assert(ub[k] == d[k - n.len() - 4 - e.len()]);
            } else if k == n.len() + 4 + e.len() + d.len() {
            } else {
                assert(ub[k] == o[k - n.len() - 5 - e.len() - d.len()]);
            }
        }
    }
    if l.contains(10u8) {
        let j = choose|j: int| 0 <= j < l.len() && l[j] == 10u8;
        assert(l[j] != 10);
    }
    lemma_user_bytes_utf8(u);
    crate::bytes::lemma_ascii_utf8(prefix);
    valid_utf8_concat(prefix, ub);
    assert(l.subrange(0, prefix.len() as int) =~= prefix);
    assert(l.subrange(prefix.len() as int, l.len() as int) =~= ub);
}

#[verifier::rlimit(80)]
#[verifier::spinoff_prover]
proof fn lemma_parents_joined(ps: Seq<Seq<u8>>, x: Seq<u8>)
    requires
        forall|i: int| 0 <= i < ps.len() ==> (#[trigger] ps[i]).len() == 20,
        joined_lines(x),
    ensures
        joined_lines(parents_bytes(ps) + x),
    decreases ps.len(),
{
    if ps.len() == 0 {
        assert(parents_bytes(ps) + x =~= x);
    } else {
        let p = ps[0];
        let rest = ps.drop_first();
        assert(ps =~= seq![p] + rest);
        lemma_parents_front(p, rest);
        assert forall|i: int| 0 <= i < rest.len() implies (#[trigger] rest[i]).len() == 20 by {
            assert(rest[i] == ps[i + 1]);
        }
        lemma_parents_joined(rest, x);
        lemma_parent_line(p);
        lemma_one_line_joined(parent_line(p));
        lemma_join(parent_line(p), parents_bytes(rest) + x);
        assert(parents_bytes(ps) + x =~= parent_line(p) + seq![10u8] + (parents_bytes(rest) + x));
    }
}

proof fn lemma_parents_utf8(ps: Seq<Seq<u8>>)
    requires
        forall|i: int| 0 <= i < ps.len() ==> (#[trigger] ps[i]).len() == 20,
    ensures
        valid_utf8(parents_bytes(ps)),
    decreases ps.len(),
{
    if ps.len() > 0 {
        let q = ps.drop_last();
        assert forall|i: int| 0 <= i < q.len() implies (#[trigger] q[i]).len() == 20 by {
            assert(q[i] == ps[i]);
        }
        lemma_parents_utf8(q);
        lemma_parent_line(ps.last());
        let tail = parent_line(ps.last()) + seq![10u8];
        reveal(parent_line);
        assert(crate::bytes::is_ascii_bytes(tail));
        crate::bytes::lemma_ascii_utf8(tail);
        valid_utf8_concat(parents_bytes(q), tail);
        assert(parents_bytes(ps) =~= parents_bytes(q) + tail);
    }
}

proof fn lemma_one_line_split(x: Seq<u8>)
    requires
        one_line(x),
    ensures
        split_line(x) == (x, Seq::<u8>::empty()),
{
    assert forall|j: int| 0 <= j < x.len() implies x[j] != 10 by {
        if x[j] == 10 {
            assert(x.contains(10u8));
        }
    }
    lemma_index_of(x, 10, x.len() as int);
}

proof fn lemma_encode_empty(c: Seq<char>)
    ensures
        encode_utf8(c).len() == 0 ==> c.len() == 0,
{
    if c.len() > 0 {
        assert(encode_utf8(c) == encode_scalar(c[0] as u32) + encode_utf8(c.drop_first()));
    }
}

/// After lines joined by single newlines, the first blank line is the one that follows them.
proof fn lemma_blank_after(hd: Seq<u8>, m: Seq<u8>)
    requires
        joined_lines(hd),
    ensures
        index_of_blank(hd + seq![10u8, 10] + m) == hd.len(),
{
    reveal(joined_lines);
    let b = hd + seq![10u8, 10] + m;
    assert forall|j: int| 0 <= j < hd.len() implies !(#[trigger] b[j] == 10 && b[j + 1] == 10) by {
        if j < hd.len() - 1 {
            assert(b[j] == hd[j] && b[j + 1] == hd[j + 1]);
        } else {
            assert(b[j] == hd.last());
        }
    }
    lemma_index_of_blank(b, hd.len() as int);
}

/// The author line.
pub open spec fn author_line(c: CommitView) -> Seq<u8> {
    author_prefix() + user_bytes(c.2)
}

/// The committer line.
pub open spec fn committer_line(c: CommitView) -> Seq<u8> {
    committer_prefix() + user_bytes(c.3)
}

/// The committer line and the extra header lines after it.
pub open spec fn commit_tail(c: CommitView) -> Seq<u8> {
    if encode_utf8(c.4).len() > 0 {
        committer_line(c) + seq![10u8] + encode_utf8(c.4)
    } else {
        committer_line(c)
    }
}

/// The header of a commit's text, up to the blank line.
pub open spec fn commit_header(c: CommitView) -> Seq<u8> {
    (tree_prefix() + hex_of(c.0)) + seq![10u8] + (parents_bytes(c.1) + (author_line(c) + seq![10u8]
        + commit_tail(c)))
}

proof fn lemma_prefixes()
    ensures
        crate::bytes::is_ascii_bytes(tree_prefix()),
        crate::bytes::is_ascii_bytes(author_prefix()),
        crate::bytes::is_ascii_bytes(committer_prefix()),
        one_line(tree_prefix()),
        one_line(author_prefix()),
        one_line(committer_prefix()),
{
    let tp = tree_prefix();
    let ap = author_prefix();
    let cp = committer_prefix();
    if tp.contains(10u8) {
        let j = choose|j: int| 0 <= j < tp.len() && tp[j] == 10u8;
    }
    if ap.contains(10u8) {
        let j = choose|j: int| 0 <= j < ap.len() && ap[j] == 10u8;
    }
    if cp.contains(10u8) {
        let j = choose|j: int| 0 <= j < cp.len() && cp[j] == 10u8;
    }
}

#[verifier::rlimit(80)]
#[verifier::spinoff_prover]
proof fn lemma_commit_header(c: CommitView)
    requires
        commit_encodable(c),
    ensures
        commit_bytes(c) == commit_header(c) + seq![10u8, 10] + encode_utf8(c.5),
        joined_lines(commit_header(c)),
        valid_utf8(commit_header(c)),
{
    lemma_prefixes();
    let t = tree_prefix() + hex_of(c.0);
    lemma_hash_line(tree_prefix(), c.0);
    let a = author_line(c);
    lemma_user_line(author_prefix(), c.2);
    let cl = committer_line(c);
    lemma_user_line(committer_prefix(), c.3);
    let r = encode_utf8(c.4);
    let tail = commit_tail(c);
    let y = a + seq![10u8] + tail;
    let p = parents_bytes(c.1);
    assert(commit_bytes(c) =~= commit_header(c) + seq![10u8, 10] + encode_utf8(c.5));
    lemma_one_line_joined(t);
    lemma_one_line_joined(a);
    lemma_one_line_joined(cl);
    if r.len() > 0 {
        lemma_join(cl, r);
    }
    lemma_join(a, tail);
    lemma_parents_joined(c.1, y);
    lemma_join(t, p + y);
    crate::bytes::lemma_ascii_utf8(seq![10u8]);
    crate::bytes::lemma_ascii_utf8(t);
    lemma_parents_utf8(c.1);
    encode_utf8_valid_utf8(c.4);
    if r.len() > 0 {
        valid_utf8_concat(cl, seq![10u8]);
        valid_utf8_concat(cl + seq![10u8], r);
    }
    valid_utf8_concat(a, seq![10u8]);
    valid_utf8_concat(a + seq![10u8], tail);
    valid_utf8_concat(p, y);
    valid_utf8_concat(t, seq![10u8]);
    valid_utf8_concat(t + seq![10u8], p + y);
}

/// A commit's text reads back as that commit, extra header lines included.
#[verifier::rlimit(80)]
#[verifier::spinoff_prover]
pub proof fn lemma_commit_round_trip(c: CommitView)
    requires
        commit_encodable(c),
    ensures
        parse_commit(commit_bytes(c)) == Some(c),
{
    lemma_prefixes();
    lemma_commit_header(c);
    let hd = commit_header(c);
    let m = encode_utf8(c.5);
    let b = commit_bytes(c);
    lemma_blank_after(hd, m);
    assert(b.subrange(0, hd.len() as int) =~= hd);
    assert(b.subrange(hd.len() as int + 2, b.len() as int) =~= m);
    crate::bytes::lemma_ascii_utf8(seq![10u8, 10]);
    encode_utf8_valid_utf8(c.5);
    valid_utf8_concat(hd, seq![10u8, 10]);
    valid_utf8_concat(hd + seq![10u8, 10], m);
    let t = tree_prefix() + hex_of(c.0);
    lemma_hash_line(tree_prefix(), c.0);
    let a = author_line(c);
    lemma_user_line(author_prefix(), c.2);
    let cl = committer_line(c);
    lemma_user_line(committer_prefix(), c.3);
    let r = encode_utf8(c.4);
    let tail = commit_tail(c);
    let y = a + seq![10u8] + tail;
    let p = parents_bytes(c.1);
    lemma_split_first_line(t, p + y);
    assert(y[0] == a[0]);
    lemma_parent_lines(c.1, y);
    lemma_split_first_line(a, tail);
    if r.len() > 0 {
        lemma_split_first_line(cl, r);
    } else {
        lemma_one_line_split(cl);
    }
    lemma_user_round_trip(c.2);
    lemma_user_round_trip(c.3);
    let hexes = c.1.map_values(|q: Seq<u8>| hex_of(q));
    assert forall|i: int| 0 <= i < hexes.len() implies is_hash_text(#[trigger] hexes[i]) by {
        lemma_parent_line(c.1[i]);
    }
    let unhexed = hexes.map_values(|t: Seq<u8>| unhex(t));
    assert forall|i: int| 0 <= i < c.1.len() implies #[trigger] unhexed[i] == c.1[i] by {
        lemma_parent_line(c.1[i]);
    }
    assert(unhexed =~= c.1);
    assert(t.subrange(0, 5) =~= tree_prefix());
    encode_utf8_valid_utf8(c.4);
    encode_utf8_decode_utf8(c.4);
    encode_utf8_decode_utf8(c.5);
    lemma_encode_empty(c.4);
}

} // verus!
