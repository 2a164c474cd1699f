//! Object identities: 20-byte SHA-1 digests and their hex spellings.
use crate::bytes::{ascii_chars, ascii_string, is_ascii_bytes, push_all};
use crate::error::GitError;
use vstd::prelude::*;
use vstd::utf8::*;

verus! {

/// The value of an ASCII hex digit of either case.
pub open spec fn hex_value(c: u8) -> Option<u8> {
    if 48 <= c <= 57 {
        Some((c - 48) as u8)
    } else if 97 <= c <= 102 {
        Some((c - 87) as u8)
    } else if 65 <= c <= 70 {
        Some((c - 55) as u8)
    } else {
        None
    }
}

pub open spec fn is_lower_hex_digit(c: u8) -> bool {
    48 <= c <= 57 || 97 <= c <= 102
}

/// The lowercase ASCII hex digit for `n < 16`.
pub open spec fn hex_digit(n: u8) -> u8 {
    if n < 10 {
        (48 + n) as u8
    } else {
        (87 + n) as u8
    }
}

/// Two lowercase hex digits for each byte, high half first.
pub open spec fn hex_of(b: Seq<u8>) -> Seq<u8> {
    Seq::new(
        2 * b.len(),
        |i: int|
            if i % 2 == 0 {
                hex_digit(b[i / 2] / 16)
            } else {
                hex_digit(b[i / 2] % 16)
            },
    )
}

/// The bytes that a run of hex digit pairs spells.
pub open spec fn unhex(t: Seq<u8>) -> Seq<u8> {
    Seq::new(
        t.len() / 2,
        |i: int| (hex_value(t[2 * i]).unwrap() * 16 + hex_value(t[2 * i + 1]).unwrap()) as u8,
    )
}

/// An even number of hex digits, of either case.
pub open spec fn is_hex_text(t: Seq<u8>) -> bool {
    t.len() % 2 == 0 && forall|i: int| 0 <= i < t.len() ==> #[trigger] hex_value(t[i]) is Some
}

/// The spelling of a hash: forty lowercase hex digits.
pub open spec fn is_hash_text(t: Seq<u8>) -> bool {
    t.len() == 40 && forall|i: int| 0 <= i < t.len() ==> is_lower_hex_digit(#[trigger] t[i])
}

pub proof fn lemma_hex_of(b: Seq<u8>)
    ensures
        hex_of(b).len() == 2 * b.len(),
        is_ascii_bytes(hex_of(b)),
        forall|i: int| 0 <= i < hex_of(b).len() ==> is_lower_hex_digit(#[trigger] hex_of(b)[i]),
        is_hex_text(hex_of(b)),
        unhex(hex_of(b)) == b,
{
    let h = hex_of(b);
    assert forall|i: int| 0 <= i < h.len() implies is_lower_hex_digit(#[trigger] h[i]) && h[i] < 128
        && hex_value(h[i]) is Some by {
        if i % 2 == 0 {
            assert(b[i / 2] / 16 < 16);
        } else {
            assert(b[i / 2] % 16 < 16);
        }
    }
    assert forall|i: int| 0 <= i < b.len() implies #[trigger] unhex(h)[i] == b[i] by {
        assert((2 * i) / 2 == i);
        assert((2 * i + 1) / 2 == i);
        assert((2 * i) % 2 == 0);
        assert((2 * i + 1) % 2 == 1);
        assert(hex_value(h[2 * i]) == Some(b[i] / 16));
        assert(hex_value(h[2 * i + 1]) == Some(b[i] % 16));
    }
    assert(unhex(h) =~= b);
}

pub proof fn lemma_unhex_lower(t: Seq<u8>)
    requires
        t.len() % 2 == 0,
        forall|i: int| 0 <= i < t.len() ==> is_lower_hex_digit(#[trigger] t[i]),
    ensures
        hex_of(unhex(t)) == t,
{
    let b = unhex(t);
    assert forall|i: int| 0 <= i < t.len() implies #[trigger] hex_of(b)[i] == t[i] by {
        let k = i / 2;
        assert(is_lower_hex_digit(t[2 * k]));
        assert(is_lower_hex_digit(t[2 * k + 1]));
        let hi = hex_value(t[2 * k]).unwrap();
        let lo = hex_value(t[2 * k + 1]).unwrap();
        assert(hi < 16 && lo < 16);
        assert(b[k] == (hi * 16 + lo) as u8);
        assert((hi * 16 + lo) / 16 == hi) by (nonlinear_arith)
            requires
                hi < 16,
                lo < 16,
        ;
        assert((hi * 16 + lo) % 16 == lo) by (nonlinear_arith)
            requires
                hi < 16,
                lo < 16,
        ;
    }
    assert(hex_of(b) =~= t);
}

/// The lowercase hex digit of `n < 16`.
fn hex_digit_of(n: u8) -> (r: u8)
    requires
        n < 16,
    ensures
        r == hex_digit(n),
{
    if n < 10 {
        48 + n
    } else {
        87 + n
    }
}

/// The value of a hex digit of either case.
fn hex_value_of(c: u8) -> (r: Option<u8>)
    ensures
        r == hex_value(c),
        r matches Some(v) ==> v < 16,
{
    if 48 <= c && c <= 57 {
        Some(c - 48)
    } else if 97 <= c && c <= 102 {
        Some(c - 87)
    } else if 65 <= c && c <= 70 {
        Some(c - 55)
    } else {
        None
    }
}

/// Appends the lowercase hex spelling of `b`.
fn push_hex(out: &mut Vec<u8>, b: &[u8])
    ensures
        final(out)@ == old(out)@ + hex_of(b@),
{
    let mut i: usize = 0;
    while i < b.len()
        invariant
            0 <= i <= b@.len(),
            out@ == old(out)@ + hex_of(b@.subrange(0, i as int)),
        decreases b@.len() - i,
    {
        let x = b[i];
        out.push(hex_digit_of(x / 16));
        out.push(hex_digit_of(x % 16));
        i = i + 1;
        proof {
            let p = b@.subrange(0, i as int);
            assert forall|j: int| 0 <= j < 2 * i implies #[trigger] hex_of(p)[j] == hex_of(
                b@,
            )[j] by {
                assert(p[j / 2] == b@[j / 2]);
            }
            assert(out@ =~= old(out)@ + hex_of(p)) by {
                let q = b@.subrange(0, i as int - 1);
                assert forall|j: int| 0 <= j < 2 * (i - 1) implies #[trigger] hex_of(q)[j]
                    == hex_of(p)[j] by {
                    assert(p[j / 2] == q[j / 2]);
                }
            }
        }
    }
    assert(b@.subrange(0, b@.len() as int) =~= b@);
}

/// The lowercase hex spelling of `bytes`, two digits per byte.
pub fn bytes_to_hex(bytes: &[u8]) -> (r: String)
    requires
        bytes@.len() <= usize::MAX / 2,
    ensures
        r@ == ascii_chars(hex_of(bytes@)),
        encode_utf8(r@) == hex_of(bytes@),
{
    let mut out: Vec<u8> = Vec::new();
    push_hex(&mut out, bytes);
    proof {
        lemma_hex_of(bytes@);
        assert(out@ =~= hex_of(bytes@));
    }
    ascii_string(out.as_slice())
}

/// Reads pairs of hex digits (of either case) into bytes.
pub fn hex_to_bytes(hex: &str) -> (r: Result<Vec<u8>, GitError>)
    ensures
        match r {
            Ok(v) => is_hex_text(encode_utf8(hex@)) && v@ == unhex(encode_utf8(hex@)),
            Err(e) => !is_hex_text(encode_utf8(hex@)) && e == GitError::InvalidHash,
        },
{
    let t = hex.as_bytes();
    if t.len() % 2 != 0 {
        return Err(GitError::InvalidHash);
    }
    let mut out: Vec<u8> = Vec::new();
    let mut i: usize = 0;
    while i < t.len() / 2
        invariant
            t@ == encode_utf8(hex@),
            t@.len() % 2 == 0,
            0 <= i <= t@.len() / 2,
            forall|j: int| 0 <= j < 2 * i ==> #[trigger] hex_value(t@[j]) is Some,
            out@ == unhex(t@.subrange(0, 2 * i as int)),
        decreases t@.len() / 2 - i,
    {
        let hi = hex_value_of(t[2 * i]);
        let lo = hex_value_of(t[2 * i + 1]);
        match (hi, lo) {
            (Some(h), Some(l)) => {
                out.push(h * 16 + l);
                i = i + 1;
                proof {
                    let p = t@.subrange(0, 2 * i as int);
                    assert forall|j: int| 0 <= j < i implies #[trigger] unhex(p)[j] == out@[j] by {
                        if j < i - 1 {
                            let q = t@.subrange(0, 2 * (i as int - 1));
                            assert(unhex(q)[j] == out@[j]);
                            assert(p[2 * j] == q[2 * j]);
                            assert(p[2 * j + 1] == q[2 * j + 1]);
                        }
                    }
                    assert(unhex(p) =~= out@);
                }
            },
            _ => {
                return Err(GitError::InvalidHash);
            },
        }
    }
    assert(t@.subrange(0, t@.len() as int) =~= t@);
    Ok(out)
}

/// Reads exactly `N` bytes spelled in hex.
pub fn hex_to_fixed_bytes<const N: usize>(hex: &str) -> (r: Result<[u8; N], GitError>)
    ensures
        match r {
            Ok(a) => is_hex_text(encode_utf8(hex@)) && a@ == unhex(encode_utf8(hex@))
                && unhex(encode_utf8(hex@)).len() == N,
            Err(e) => e == GitError::InvalidHash && (!is_hex_text(encode_utf8(hex@)) || unhex(
                encode_utf8(hex@),
            ).len() != N),
        },
{
    let bytes = hex_to_bytes(hex)?;
    if bytes.len() != N {
        return Err(GitError::InvalidHash);
    }
    let mut fixed: [u8; N] = [0u8; N];
    let mut i: usize = 0;
    while i < N
        invariant
            bytes@.len() == N,
            0 <= i <= N,
            fixed@.len() == N,
            forall|j: int| 0 <= j < i ==> #[trigger] fixed@[j] == bytes@[j],
        decreases N - i,
    {
        fixed[i] = bytes[i];
        i = i + 1;
    }
    assert(fixed@ =~= bytes@);
    Ok(fixed)
}

/// The name of SHA-1's digest of a byte sequence.
pub uninterp spec fn sha1_of(data: Seq<u8>) -> Seq<u8>;

/// Relies on sha1's `Sha1::digest`: the 20-byte SHA-1 digest, a function of the input alone.
#[verifier::external_body]
fn sha1_digest(data: &[u8]) -> (r: [u8; 20])
    ensures
        r@ == sha1_of(data@),
{
    <sha1::Sha1 as sha1::Digest>::digest(data).into()
}

/// A 20-byte object identity; any 20 bytes are one.
#[derive(Debug, Clone, Copy, PartialEq, Eq)]
pub struct Hash {
    pub value: [u8; 20],
}

impl View for Hash {
    type V = Seq<u8>;

    open spec fn view(&self) -> Seq<u8> {
        self.value@
    }
}

impl Hash {
    /// Reads a hash spelled as forty lowercase hex digits.
    pub fn new(value: &str) -> (r: Result<Hash, GitError>)
        ensures
            match r {
                Ok(h) => is_hash_text(encode_utf8(value@)) && hex_of(h@) == encode_utf8(value@),
                Err(e) => !is_hash_text(encode_utf8(value@)) && e == GitError::InvalidHash,
            },
    {
        Self::from_str(value)
    }

    /// Reads a hash spelled as forty lowercase hex digits.
    pub fn from_str(s: &str) -> (r: Result<Hash, GitError>)
        ensures
            match r {
                Ok(h) => is_hash_text(encode_utf8(s@)) && hex_of(h@) == encode_utf8(s@),
                Err(e) => !is_hash_text(encode_utf8(s@)) && e == GitError::InvalidHash,
            },
    {
        let t = s.as_bytes();
        if t.len() != 40 {
            return Err(GitError::InvalidHash);
        }
        let mut i: usize = 0;
        while i < 40
            invariant
                t@ == encode_utf8(s@),
                t@.len() == 40,
                0 <= i <= 40,
                forall|j: int| 0 <= j < i ==> is_lower_hex_digit(#[trigger] t@[j]),
            decreases 40 - i,
        {
            let c = t[i];
            if !((48 <= c && c <= 57) || (97 <= c && c <= 102)) {
                assert(!is_lower_hex_digit(t@[i as int]));
                return Err(GitError::InvalidHash);
            }
            i = i + 1;
        }
        assert(is_hex_text(t@)) by {
            assert forall|j: int| 0 <= j < t@.len() implies #[trigger] hex_value(t@[j]) is Some by {
                assert(is_lower_hex_digit(t@[j]));
            }
        }
        let value = match hex_to_fixed_bytes::<20>(s) {
            Ok(a) => a,
            Err(_) => {
                return Err(GitError::InvalidHash);
            },
        };
        proof {
            lemma_unhex_lower(t@);
        }
        Ok(Hash { value })
    }

    /// The hash whose raw bytes are `value`.
    pub fn from_bytes(value: [u8; 20]) -> (r: Hash)
        ensures
            r@ == value@,
    {
        Hash { value }
    }

    /// Reads a hash from exactly 20 raw bytes.
    pub fn from_raw(bytes: &[u8]) -> (r: Result<Hash, GitError>)
        ensures
            match r {
                Ok(h) => bytes@.len() == 20 && h@ == bytes@,
                Err(e) => bytes@.len() != 20 && e == GitError::InvalidHash,
            },
    {
        if bytes.len() != 20 {
            return Err(GitError::InvalidHash);
        }
        let mut value: [u8; 20] = [0u8; 20];
        let mut i: usize = 0;
        while i < 20
            invariant
                bytes@.len() == 20,
                0 <= i <= 20,
                value@.len() == 20,
                forall|j: int| 0 <= j < i ==> #[trigger] value@[j] == bytes@[j],
            decreases 20 - i,
        {
            value[i] = bytes[i];
            i = i + 1;
        }
        assert(value@ =~= bytes@);
        Ok(Hash { value })
    }

    /// The 20 raw bytes.
    pub fn to_raw(&self) -> (r: Vec<u8>)
        ensures
            r@ == self@,
            r@.len() == 20,
    {
        let mut out: Vec<u8> = Vec::new();
        push_all(&mut out, self.value.as_slice());
        out
    }

    /// The forty lowercase hex digits, as bytes.
    pub fn to_raw_hex(&self) -> (r: Vec<u8>)
        ensures
            r@ == hex_of(self@),
    {
        let mut out: Vec<u8> = Vec::new();
        push_hex(&mut out, self.value.as_slice());
        out
    }

    /// The forty lowercase hex digits.
    pub fn to_string(&self) -> (r: String)
        ensures
            encode_utf8(r@) == hex_of(self@),
            r@ == ascii_chars(hex_of(self@)),
    {
        bytes_to_hex(self.value.as_slice())
    }

    /// The first two hex digits, the directory that holds the object.
    pub fn directory(&self) -> (r: String)
        ensures
            r@ == ascii_chars(hex_of(self@).subrange(0, 2)),
    {
        let mut out: Vec<u8> = Vec::new();
        push_hex(&mut out, self.value.as_slice());
        proof {
            lemma_hex_of(self@);
        }
        let mut dir: Vec<u8> = Vec::new();
        dir.push(out[0]);
        dir.push(out[1]);
        assert(dir@ =~= hex_of(self@).subrange(0, 2));
        ascii_string(dir.as_slice())
    }

    /// The other thirty-eight hex digits, the object's file name.
    pub fn file(&self) -> (r: String)
        ensures
            r@ == ascii_chars(hex_of(self@).subrange(2, 40)),
    {
        let mut out: Vec<u8> = Vec::new();
        push_hex(&mut out, self.value.as_slice());
        proof {
            lemma_hex_of(self@);
        }
        let rest = out.as_slice();
        let tail = &rest[2..40];
        assert(tail@ =~= hex_of(self@).subrange(2, 40));
        ascii_string(tail)
    }

    /// Where the object with this hash is kept, under the repository directory:
    /// `objects/<first two hex digits>/<other thirty-eight>`.
    pub fn object_path(&self) -> (r: String)
        ensures
            encode_utf8(r@) == object_path_bytes(self@),
    {
        let mut out: Vec<u8> = vec![111u8, 98, 106, 101, 99, 116, 115, 47];
        let hex = self.to_raw_hex();
        proof {
            lemma_hex_of(self@);
        }
        out.push(hex[0]);
        out.push(hex[1]);
        out.push(47);
        push_all(&mut out, &hex.as_slice()[2..40]);
        assert(out@ =~= object_path_bytes(self@));
        proof {
            lemma_object_path_ascii(self@);
            crate::bytes::lemma_ascii_utf8(out@);
        }
        ascii_string(out.as_slice())
    }

    /// The SHA-1 digest of the UTF-8 bytes of `content`.
    pub fn hash(content: &str) -> (r: Hash)
        ensures
            r@ == sha1_of(encode_utf8(content@)),
    {
        Self::hash_bytes(content.as_bytes())
    }

    /// The SHA-1 digest of `content`.
    pub fn hash_bytes(content: &[u8]) -> (r: Hash)
        ensures
            r@ == sha1_of(content@),
    {
        Hash { value: sha1_digest(content) }
    }
}

/// `objects/<first two hex digits>/<other thirty-eight>`.
pub open spec fn object_path_bytes(h: Seq<u8>) -> Seq<u8> {
    seq![111u8, 98, 106, 101, 99, 116, 115, 47] + hex_of(h).subrange(0, 2) + seq![47u8] + hex_of(h).subrange(
        2,
        40,
    )
}

proof fn lemma_object_path_ascii(h: Seq<u8>)
    requires
        h.len() == 20,
    ensures
        is_ascii_bytes(object_path_bytes(h)),
{
    let x = hex_of(h);
    assert forall|j: int| 0 <= j < x.len() implies #[trigger] x[j] < 128 by {
        if j % 2 == 0 {
            assert(h[j / 2] / 16 < 16);
        } else {
            assert(h[j / 2] % 16 < 16);
        }
    }
    let p = object_path_bytes(h);
    let a = seq![111u8, 98, 106, 101, 99, 116, 115, 47];
    let d = x.subrange(0, 2);
    let f = x.subrange(2, 40);
    assert(p == a + d + seq![47u8] + f);
    assert forall|i: int| 0 <= i < p.len() implies #[trigger] p[i] < 128 by {
        if i < 8 {
            assert(p[i] == a[i]);
        } else if i < 10 {
            assert(p[i] == d[i - 8]);
            assert(d[i - 8] == x[i - 8]);
        } else if i == 10 {
        } else {
            assert(p[i] == f[i - 11]);
            assert(f[i - 11] == x[i - 9]);
        }
    }
}

/// The directory and file name of an object's path spell its hash: joined, they are the
/// hash's hex digits, and reading those digits gives the hash back.
pub proof fn lemma_object_path_names_hash(h: Seq<u8>)
    requires
        h.len() == 20,
    ensures
        object_path_bytes(h).len() == 49,
        object_path_bytes(h).subrange(8, 10) + object_path_bytes(h).subrange(11, 49) == hex_of(h),
        unhex(object_path_bytes(h).subrange(8, 10) + object_path_bytes(h).subrange(11, 49)) == h,
{
    lemma_hex_of(h);
    let p = object_path_bytes(h);
    assert(p.subrange(8, 10) + p.subrange(11, 49) =~= hex_of(h));
}

/// Reads a hash from its forty lowercase hex digits.
pub(crate) fn hash_from_text(t: &[u8]) -> (r: Option<Hash>)
    ensures
        match r {
            Some(h) => is_hash_text(t@) && h@ == unhex(t@),
            None => !is_hash_text(t@),
        },
{
    if t.len() != 40 {
        return None;
    }
    let mut i: usize = 0;
    while i < 40
        invariant
            t@.len() == 40,
            0 <= i <= 40,
            forall|j: int| 0 <= j < i ==> is_lower_hex_digit(#[trigger] t@[j]),
        decreases 40 - i,
    {
        let c = t[i];
        if !((48 <= c && c <= 57) || (97 <= c && c <= 102)) {
            return None;
        }
        i = i + 1;
    }
    let text = ascii_string(t);
    proof {
        crate::bytes::lemma_ascii_utf8(t@);
        lemma_unhex_lower(t@);
    }
    match Hash::from_str(text.as_str()) {
        Ok(h) => {
            proof {
                lemma_hex_of(h@);
                assert(unhex(hex_of(h@)) == h@);
            }
            Some(h)
        },
        Err(_) => None,
    }
}

} // verus!
