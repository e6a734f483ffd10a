//! Utilities: SHA-1 ids, path joining, text decoding and errors.

use vstd::prelude::*;
use vstd::utf8::{valid_utf8, encode_utf8};
use sha1::Digest;
use crate::text::push_char;

verus! {

/// Length of a full SHA-1 id written as hexadecimal digits.
pub const UID_LENGTH: usize = 40;

/// What SHA-1 gives for `data`: twenty bytes.
pub uninterp spec fn sha1_digest_of(data: Seq<u8>) -> Seq<u8>;

/// The SHA-1 digest of `data`, computed by the `sha1` crate's `Sha1::digest`.
/// Trusted: the result is the function `sha1_digest_of` of the bytes and is
/// 20 bytes long (the crate's `OutputSize` for `Sha1` is 20).
#[verifier::external_body]
fn sha1_digest(data: &[u8]) -> (r: Vec<u8>)
    ensures
        r@ == sha1_digest_of(data@),
        r@.len() == 20,
{
    ::sha1::Sha1::digest(data).to_vec()
}

/// A lower-case hexadecimal digit.
pub open spec fn hex_char(d: int) -> char {
    if d < 10 {
        (48 + d) as char
    } else {
        (87 + d) as char
    }
}

/// Bytes written as lower-case hexadecimal, two digits per byte, high half first.
pub open spec fn hex_of(b: Seq<u8>) -> Seq<char> {
    Seq::new(
        2 * b.len(),
        |i: int|
            if i % 2 == 0 {
                hex_char((b[i / 2] / 16) as int)
            } else {
                hex_char((b[i / 2] % 16) as int)
            },
    )
}

/// The concatenation of byte strings.
pub open spec fn concat_bytes(vals: Seq<Seq<u8>>) -> Seq<u8>
    decreases vals.len(),
{
    if vals.len() == 0 {
        Seq::empty()
    } else {
        concat_bytes(vals.drop_last()) + vals.last()
    }
}

/// The id of some bytes: their SHA-1 digest in hexadecimal.
pub open spec fn sha1_hex(data: Seq<u8>) -> Seq<char> {
    hex_of(sha1_digest_of(data))
}

/// The hexadecimal digit of a number below sixteen.
fn hex_digit(d: u8) -> (c: char)
    requires
        d < 16,
    ensures
        c == hex_char(d as int),
{
    if d < 10 {
        (48 + d) as char
    } else {
        (87 + d) as char
    }
}

/// Writes bytes as lower-case hexadecimal.
pub fn to_hex(b: &[u8]) -> (r: String)
    ensures
        r@ == hex_of(b@),
{
    let mut r = String::new();
    let n = b.len();
    let mut i: usize = 0;
    while i < n
        invariant
            n == b@.len(),
            i <= n,
            r@ == hex_of(b@).subrange(0, 2 * i as int),
        decreases n - i,
    {
        let x = b[i];
        let hi = x / 16;
        let lo = x % 16;
        push_char(&mut r, hex_digit(hi));
        push_char(&mut r, hex_digit(lo));
        proof {
            let h = hex_of(b@);
            assert(h[2 * i as int] == hex_char(hi as int));
            assert(h[2 * i + 1] == hex_char(lo as int));
            assert(r@ =~= h.subrange(0, 2 * (i + 1)));
        }
        i = i + 1;
    }
    assert(hex_of(b@).subrange(0, 2 * n as int) =~= hex_of(b@));
    r
}

/// The SHA-1 id of the concatenation of `vals`, as 40 lower-case hex digits.
pub fn sha1(vals: &[&[u8]]) -> (r: String)
    ensures
        r@ == sha1_hex(concat_bytes(vals@.map_values(|v: &[u8]| v@))),
        r@.len() == UID_LENGTH,
{
    let mut buf: Vec<u8> = Vec::new();
    let n = vals.len();
    let mut i: usize = 0;
    let ghost vs = vals@.map_values(|v: &[u8]| v@);
    assert(vs.subrange(0, 0) =~= Seq::<Seq<u8>>::empty());
    while i < n
        invariant
            n == vals@.len(),
            vs == vals@.map_values(|v: &[u8]| v@),
            i <= n,
            buf@ == concat_bytes(vs.subrange(0, i as int)),
        decreases n - i,
    {
        let v: &[u8] = vals[i];
        let m = v.len();
        let mut j: usize = 0;
        let ghost before = buf@;
        while j < m
            invariant
                m == v@.len(),
                j <= m,
                buf@ == before + v@.subrange(0, j as int),
            decreases m - j,
        {
            buf.push(v[j]);
            j = j + 1;
            assert(buf@ =~= before + v@.subrange(0, j as int));
        }
        proof {
            assert(v@.subrange(0, m as int) =~= v@);
            assert(vs.subrange(0, i + 1).drop_last() =~= vs.subrange(0, i as int));
            assert(vs.subrange(0, i + 1).last() == v@);
        }
        i = i + 1;
    }
    assert(vs.subrange(0, n as int) =~= vs);
    let d = sha1_digest(buf.as_slice());
    to_hex(d.as_slice())
}

/// `base` extended by the path segment `seg`, as `PathBuf::push` does it:
/// an absolute segment replaces the path; otherwise a separator is put
/// between them unless `base` is empty or already ends in one.
pub open spec fn path_push(base: Seq<char>, seg: Seq<char>) -> Seq<char> {
    if seg.len() > 0 && seg[0] == '/' {
        seg
    } else if base.len() == 0 {
        seg
    } else if base.last() == '/' {
        base + seg
    } else {
        base + seq!['/'] + seg
    }
}

/// `first` extended by each of `others` in turn.
pub open spec fn path_join(first: Seq<char>, others: Seq<Seq<char>>) -> Seq<char>
    decreases others.len(),
{
    if others.len() == 0 {
        first
    } else {
        path_push(path_join(first, others.drop_last()), others.last())
    }
}

/// Extends the path `base` by the segment `seg`.
pub fn push_path(base: &mut String, seg: &str)
    ensures
        final(base)@ == path_push(old(base)@, seg@),
{
    let m = seg.unicode_len();
    if m > 0 && seg.get_char(0) == '/' {
        *base = String::from_str(seg);
        return;
    }
    let n = base.as_str().unicode_len();
    if n == 0 {
        base.append(seg);
    } else if base.as_str().get_char(n - 1) == '/' {
        base.append(seg);
    } else {
        push_char(base, '/');
        base.append(seg);
    }
}

/// The path made of `first` followed by each of `others`.
pub fn join(first: &str, others: &[&str]) -> (r: String)
    ensures
        r@ == path_join(first@, others@.map_values(|s: &str| s@)),
{
    let mut r = String::from_str(first);
    let n = others.len();
    let ghost os = others@.map_values(|s: &str| s@);
    assert(os.subrange(0, 0) =~= Seq::<Seq<char>>::empty());
    let mut i: usize = 0;
    while i < n
        invariant
            n == others@.len(),
            os == others@.map_values(|s: &str| s@),
            i <= n,
            r@ == path_join(first@, os.subrange(0, i as int)),
        decreases n - i,
    {
        push_path(&mut r, others[i]);
        proof {
            assert(os.subrange(0, i + 1).drop_last() =~= os.subrange(0, i as int));
            assert(os.subrange(0, i + 1).last() == others@[i as int]@);
        }
        i = i + 1;
    }
    assert(os.subrange(0, n as int) =~= os);
    r
}

/// A Gitlet error carrying the message to show.
#[derive(Debug)]
pub struct GitletError(pub String);

impl Clone for GitletError {
    fn clone(&self) -> (r: Self)
        ensures
            r.0@ == self.0@,
    {
        GitletError(self.0.clone())
    }
}

impl GitletError {
    /// The text that the error displays: its message.
    pub fn display(&self) -> (r: String)
        ensures
            r@ == self.0@,
    {
        self.0.clone()
    }
}

/// An error whose message is `msg`.
pub fn error(msg: &str) -> (r: GitletError)
    ensures
        r.0@ == msg@,
{
    GitletError(String::from_str(msg))
}

/// Decodes UTF-8 text, as `std::str::from_utf8` does, into an owned string.
/// Trusted: it succeeds exactly on valid UTF-8, and the string's UTF-8
/// encoding is the input.
#[verifier::external_body]
fn decode_utf8_text(bytes: &[u8]) -> (r: Option<String>)
    ensures
        r is Some <==> valid_utf8(bytes@),
        r matches Some(s) ==> encode_utf8(s@) == bytes@,
{
    match std::str::from_utf8(bytes) {
        Ok(s) => Some(s.to_string()),
        Err(_) => None,
    }
}

/// The text of a file's contents; an error when they are not UTF-8.
pub fn read_contents_as_string(contents: &[u8]) -> (r: Result<String, GitletError>)
    ensures
        r is Ok <==> valid_utf8(contents@),
        r matches Ok(s) ==> encode_utf8(s@) == contents@,
        r matches Err(e) ==> e.0@ == "invalid UTF-8"@,
{
    match decode_utf8_text(contents) {
        Some(s) => Ok(s),
        None => Err(error("invalid UTF-8")),
    }
}

} // verus!
