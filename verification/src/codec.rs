//! The byte layout of stored objects: `bincode`'s default encoding
//! (fixed-width little-endian integers, `u64` lengths), stated here and
//! produced and read by the `bincode` crate.

use vstd::prelude::*;
use vstd::utf8::encode_utf8;

verus! {

/// A number as eight little-endian bytes.
pub open spec fn u64_le(n: nat) -> Seq<u8> {
    seq![
        (n % 0x100) as u8,
        ((n / 0x100) % 0x100) as u8,
        ((n / 0x1_0000) % 0x100) as u8,
        ((n / 0x100_0000) % 0x100) as u8,
        ((n / 0x1_0000_0000) % 0x100) as u8,
        ((n / 0x100_0000_0000) % 0x100) as u8,
        ((n / 0x1_0000_0000_0000) % 0x100) as u8,
        ((n / 0x100_0000_0000_0000) % 0x100) as u8,
    ]
}

/// A byte string: its length, then its bytes.
pub open spec fn enc_bytes(b: Seq<u8>) -> Seq<u8> {
    u64_le(b.len()) + b
}

/// A text: its UTF-8 bytes as a byte string.
pub open spec fn enc_str(s: Seq<char>) -> Seq<u8> {
    enc_bytes(encode_utf8(s))
}

/// An optional text: a tag byte 0 for none, or 1 followed by the text.
pub open spec fn enc_opt_str(o: Option<Seq<char>>) -> Seq<u8> {
    match o {
        None => seq![0u8],
        Some(s) => seq![1u8] + enc_str(s),
    }
}

/// The pairs of a name-to-text table, each name then its text.
pub open spec fn enc_pairs_body(p: Seq<(Seq<char>, Seq<char>)>) -> Seq<u8>
    decreases p.len(),
{
    if p.len() == 0 {
        Seq::empty()
    } else {
        enc_pairs_body(p.drop_last()) + enc_str(p.last().0) + enc_str(p.last().1)
    }
}

/// A name-to-text table: its number of pairs, then the pairs in order.
pub open spec fn enc_pairs(p: Seq<(Seq<char>, Seq<char>)>) -> Seq<u8> {
    u64_le(p.len()) + enc_pairs_body(p)
}

/// A commit record: message, timestamp, parent id and file table, in that order.
pub open spec fn enc_commit(
    message: Seq<char>,
    timestamp: u64,
    parent: Option<Seq<char>>,
    tree: Seq<(Seq<char>, Seq<char>)>,
) -> Seq<u8> {
    enc_str(message) + u64_le(timestamp as nat) + enc_opt_str(parent) + enc_pairs(tree)
}

/// Eight little-endian bytes name one number.
pub proof fn lemma_u64_le_injective(a: nat, b: nat)
    requires
        a < 0x1_0000_0000_0000_0000,
        b < 0x1_0000_0000_0000_0000,
        u64_le(a) == u64_le(b),
    ensures
        a == b,
{
    let x = a as u64;
    let y = b as u64;
    assert(u64_le(a)[0] == u64_le(b)[0]);
    assert(u64_le(a)[1] == u64_le(b)[1]);
    assert(u64_le(a)[2] == u64_le(b)[2]);
    assert(u64_le(a)[3] == u64_le(b)[3]);
    assert(u64_le(a)[4] == u64_le(b)[4]);
    assert(u64_le(a)[5] == u64_le(b)[5]);
    assert(u64_le(a)[6] == u64_le(b)[6]);
    assert(u64_le(a)[7] == u64_le(b)[7]);
    assert(x == y) by (bit_vector)
        requires
            x % 0x100 == y % 0x100,
            (x / 0x100) % 0x100 == (y / 0x100) % 0x100,
            (x / 0x1_0000) % 0x100 == (y / 0x1_0000) % 0x100,
            (x / 0x100_0000) % 0x100 == (y / 0x100_0000) % 0x100,
            (x / 0x1_0000_0000) % 0x100 == (y / 0x1_0000_0000) % 0x100,
            (x / 0x100_0000_0000) % 0x100 == (y / 0x100_0000_0000) % 0x100,
            (x / 0x1_0000_0000_0000) % 0x100 == (y / 0x1_0000_0000_0000) % 0x100,
            (x / 0x100_0000_0000_0000) % 0x100 == (y / 0x100_0000_0000_0000) % 0x100,
    ;
}

/// Reading a number off the front of a stored form: where the number `b`
/// followed by `ry` begins the number `a` followed by `rx`, `b` is `a` and
/// `ry` begins `rx`.
pub proof fn lemma_u64_front(a: nat, b: nat, rx: Seq<u8>, ry: Seq<u8>)
    requires
        a < 0x1_0000_0000_0000_0000,
        b < 0x1_0000_0000_0000_0000,
        (u64_le(b) + ry).is_prefix_of(u64_le(a) + rx),
    ensures
        a == b,
        ry.is_prefix_of(rx),
{
    let x = u64_le(a) + rx;
    let y = u64_le(b) + ry;
    assert forall|i: int| 0 <= i < 8 implies u64_le(b)[i] == u64_le(a)[i] by {
        assert(y[i] == x[i]);
    }
    assert(u64_le(b) =~= u64_le(a));
    lemma_u64_le_injective(a, b);
    assert forall|i: int| 0 <= i < ry.len() implies ry[i] == rx[i] by {
        assert(y[i + 8] == x[i + 8]);
    }
    assert(ry =~= rx.subrange(0, ry.len() as int));
}

/// Reading a byte string off the front of a stored form.
pub proof fn lemma_bytes_front(x: Seq<u8>, y: Seq<u8>, rx: Seq<u8>, ry: Seq<u8>)
    requires
        (enc_bytes(x) + rx).len() < 0x1_0000_0000_0000_0000,
        (enc_bytes(y) + ry).is_prefix_of(enc_bytes(x) + rx),
    ensures
        y == x,
        ry.is_prefix_of(rx),
{
    let bx = x + rx;
    let by = y + ry;
    assert(enc_bytes(x) + rx =~= u64_le(x.len()) + bx);
    assert(enc_bytes(y) + ry =~= u64_le(y.len()) + by);
    lemma_u64_front(x.len(), y.len(), bx, by);
    assert forall|i: int| 0 <= i < x.len() implies y[i] == x[i] by {
        assert(by[i] == bx[i]);
    }
    assert(y =~= x);
    assert forall|i: int| 0 <= i < ry.len() implies ry[i] == rx[i] by {
        assert(by[x.len() + i] == bx[x.len() + i]);
    }
    assert(ry =~= rx.subrange(0, ry.len() as int));
}

/// Reading a text off the front of a stored form.
pub proof fn lemma_str_front(m: Seq<char>, m2: Seq<char>, rx: Seq<u8>, ry: Seq<u8>)
    requires
        (enc_str(m) + rx).len() < 0x1_0000_0000_0000_0000,
        (enc_str(m2) + ry).is_prefix_of(enc_str(m) + rx),
    ensures
        m2 == m,
        ry.is_prefix_of(rx),
{
    lemma_bytes_front(encode_utf8(m), encode_utf8(m2), rx, ry);
    vstd::utf8::encode_utf8_decode_utf8(m);
    vstd::utf8::encode_utf8_decode_utf8(m2);
}

/// Reading an optional text off the front of a stored form.
pub proof fn lemma_opt_front(o: Option<Seq<char>>, o2: Option<Seq<char>>, rx: Seq<u8>, ry: Seq<u8>)
    requires
        (enc_opt_str(o) + rx).len() < 0x1_0000_0000_0000_0000,
        (enc_opt_str(o2) + ry).is_prefix_of(enc_opt_str(o) + rx),
    ensures
        o2 == o,
        ry.is_prefix_of(rx),
{
    let x = enc_opt_str(o) + rx;
    let y = enc_opt_str(o2) + ry;
    assert(y[0] == x[0]);
    match (o, o2) {
        (None, None) => {
            assert forall|i: int| 0 <= i < ry.len() implies ry[i] == rx[i] by {
                assert(y[i + 1] == x[i + 1]);
            }
            assert(ry =~= rx.subrange(0, ry.len() as int));
        },
        (Some(s), Some(s2)) => {
            let tx = enc_str(s) + rx;
            let ty = enc_str(s2) + ry;
            assert(x =~= seq![1u8] + tx);
            assert(y =~= seq![1u8] + ty);
            assert forall|i: int| 0 <= i < ty.len() implies ty[i] == tx[i] by {
                assert(y[i + 1] == x[i + 1]);
            }
            assert(ty =~= tx.subrange(0, ty.len() as int));
            lemma_str_front(s, s2, rx, ry);
        },
        (None, Some(_)) => {},
        (Some(_), None) => {},
    }
}

/// The pairs' encoding read from the front: the first pair, then the rest.
#[verifier::rlimit(30)]
pub proof fn lemma_pairs_body_front(p: Seq<(Seq<char>, Seq<char>)>)
    ensures
        p.len() > 0 ==> enc_pairs_body(p) == enc_str(p[0].0) + enc_str(p[0].1) + enc_pairs_body(
            p.drop_first(),
        ),
    decreases p.len(),
{
    if p.len() == 1 {
        assert(p.drop_last() =~= Seq::<(Seq<char>, Seq<char>)>::empty());
        assert(p.drop_first() =~= Seq::<(Seq<char>, Seq<char>)>::empty());
        assert(enc_pairs_body(p.drop_last()) =~= Seq::<u8>::empty());
        assert(enc_pairs_body(p.drop_first()) =~= Seq::<u8>::empty());
        assert(enc_pairs_body(p) =~= enc_str(p[0].0) + enc_str(p[0].1) + enc_pairs_body(
            p.drop_first(),
        ));
    } else if p.len() > 1 {
        let d = p.drop_last();
        let q = p.drop_first();
        let dd = d.drop_first();
        lemma_pairs_body_front(d);
        let head = enc_str(p[0].0) + enc_str(p[0].1);
        let a = enc_str(p.last().0);
        let b = enc_str(p.last().1);
        assert(dd =~= q.drop_last());
        assert(q.last() == p.last());
        assert(d[0] == p[0]);
        assert(enc_pairs_body(p) == enc_pairs_body(d) + a + b);
        assert(enc_pairs_body(q) == enc_pairs_body(dd) + a + b);
        assert(enc_pairs_body(d) == head + enc_pairs_body(dd));
        assert(head + enc_pairs_body(dd) + a + b =~= head + (enc_pairs_body(dd) + a + b));
    }
}

/// Reading one pair of texts off the front of a stored form.
pub proof fn lemma_pair_front(
    k: Seq<char>,
    v: Seq<char>,
    k2: Seq<char>,
    v2: Seq<char>,
    rx: Seq<u8>,
    ry: Seq<u8>,
)
    requires
        (enc_str(k) + enc_str(v) + rx).len() < 0x1_0000_0000_0000_0000,
        (enc_str(k2) + enc_str(v2) + ry).is_prefix_of(enc_str(k) + enc_str(v) + rx),
    ensures
        k2 == k,
        v2 == v,
        ry.is_prefix_of(rx),
{
    let x1 = enc_str(v) + rx;
    let y1 = enc_str(v2) + ry;
    assert(enc_str(k) + enc_str(v) + rx =~= enc_str(k) + x1);
    assert(enc_str(k2) + enc_str(v2) + ry =~= enc_str(k2) + y1);
    lemma_str_front(k, k2, x1, y1);
    lemma_str_front(v, v2, rx, ry);
}

/// Every pair takes at least sixteen bytes.
pub proof fn lemma_pairs_body_len(p: Seq<(Seq<char>, Seq<char>)>)
    ensures
        enc_pairs_body(p).len() >= 16 * p.len(),
    decreases p.len(),
{
    if p.len() > 0 {
        lemma_pairs_body_len(p.drop_last());
    }
}

/// Four byte strings in a row, the last two grouped.
proof fn lemma_regroup_last(a: Seq<u8>, b: Seq<u8>, c: Seq<u8>, d: Seq<u8>)
    ensures
        a + b + c + d == a + b + (c + d),
{
    assert(a + b + c + d =~= a + b + (c + d));
}

/// Reading the pairs' encoding off the front, knowing how many pairs.
#[verifier::rlimit(30)]
pub proof fn lemma_body_front(
    p: Seq<(Seq<char>, Seq<char>)>,
    p2: Seq<(Seq<char>, Seq<char>)>,
    rx: Seq<u8>,
    ry: Seq<u8>,
)
    requires
        p.len() == p2.len(),
        (enc_pairs_body(p) + rx).len() < 0x1_0000_0000_0000_0000,
        (enc_pairs_body(p2) + ry).is_prefix_of(enc_pairs_body(p) + rx),
    ensures
        p2 == p,
        ry.is_prefix_of(rx),
    decreases p.len(),
{
    if p.len() == 0 {
        assert(enc_pairs_body(p) + rx =~= rx);
        assert(enc_pairs_body(p2) + ry =~= ry);
        assert(p2 =~= p);
    } else {
        lemma_pairs_body_front(p);
        lemma_pairs_body_front(p2);
        let t = p.drop_first();
        let t2 = p2.drop_first();
        let bx = enc_pairs_body(t) + rx;
        let by = enc_pairs_body(t2) + ry;
        lemma_regroup_last(enc_str(p[0].0), enc_str(p[0].1), enc_pairs_body(t), rx);
        lemma_regroup_last(enc_str(p2[0].0), enc_str(p2[0].1), enc_pairs_body(t2), ry);
        lemma_pair_front(p[0].0, p[0].1, p2[0].0, p2[0].1, bx, by);
        lemma_body_front(t, t2, rx, ry);
        assert forall|i: int| 0 <= i < p.len() implies p2[i] == p[i] by {
            if i > 0 {
                assert(p2[i] == t2[i - 1] && p[i] == t[i - 1]);
            }
        }
        assert(p2 =~= p);
    }
}

/// Reading a name-to-text table off the front of a stored form.
pub proof fn lemma_pairs_front(
    p: Seq<(Seq<char>, Seq<char>)>,
    p2: Seq<(Seq<char>, Seq<char>)>,
    rx: Seq<u8>,
    ry: Seq<u8>,
)
    requires
        (enc_pairs(p) + rx).len() < 0x1_0000_0000_0000_0000,
        (enc_pairs(p2) + ry).is_prefix_of(enc_pairs(p) + rx),
    ensures
        p2 == p,
        ry.is_prefix_of(rx),
{
    let bx = enc_pairs_body(p) + rx;
    let by = enc_pairs_body(p2) + ry;
    assert(enc_pairs(p) + rx =~= u64_le(p.len()) + bx);
    assert(enc_pairs(p2) + ry =~= u64_le(p2.len()) + by);
    lemma_pairs_body_len(p);
    lemma_pairs_body_len(p2);
    lemma_u64_front(p.len(), p2.len(), bx, by);
    lemma_body_front(p, p2, rx, ry);
}

/// Four byte strings and a tail in a row, grouped from the right.
proof fn lemma_regroup(a: Seq<u8>, b: Seq<u8>, c: Seq<u8>, d: Seq<u8>, t: Seq<u8>)
    ensures
        a + b + c + d + t == a + (b + (c + (d + t))),
{
    assert(a + b + c + d + t =~= a + (b + (c + (d + t))));
}

/// A commit record can be read back: where the record of some fields
/// begins the record of others followed by anything, the fields are the
/// same.
#[verifier::rlimit(30)]
pub proof fn lemma_commit_front(
    message: Seq<char>,
    timestamp: u64,
    parent: Option<Seq<char>>,
    tree: Seq<(Seq<char>, Seq<char>)>,
    rest: Seq<u8>,
    message2: Seq<char>,
    timestamp2: u64,
    parent2: Option<Seq<char>>,
    tree2: Seq<(Seq<char>, Seq<char>)>,
)
    requires
        (enc_commit(message, timestamp, parent, tree) + rest).len() < 0x1_0000_0000_0000_0000,
        enc_commit(message2, timestamp2, parent2, tree2).is_prefix_of(
            enc_commit(message, timestamp, parent, tree) + rest,
        ),
    ensures
        message2 == message,
        timestamp2 == timestamp,
        parent2 == parent,
        tree2 == tree,
{
    let e = Seq::<u8>::empty();
    let x3 = enc_pairs(tree) + rest;
    let y3 = enc_pairs(tree2) + e;
    let x2 = enc_opt_str(parent) + x3;
    let y2 = enc_opt_str(parent2) + y3;
    let x1 = u64_le(timestamp as nat) + x2;
    let y1 = u64_le(timestamp2 as nat) + y2;
    lemma_regroup(enc_str(message), u64_le(timestamp as nat), enc_opt_str(parent), enc_pairs(tree), rest);
    lemma_regroup(
        enc_str(message2),
        u64_le(timestamp2 as nat),
        enc_opt_str(parent2),
        enc_pairs(tree2),
        e,
    );
    assert(enc_commit(message2, timestamp2, parent2, tree2) + e =~= enc_commit(
        message2,
        timestamp2,
        parent2,
        tree2,
    ));
    lemma_str_front(message, message2, x1, y1);
    lemma_u64_front(timestamp as nat, timestamp2 as nat, x2, y2);
    lemma_opt_front(parent, parent2, x3, y3);
    lemma_pairs_front(tree, tree2, rest, e);
}

/// An optional string taken by its characters.
pub open spec fn opt_view(o: Option<String>) -> Option<Seq<char>> {
    match o {
        None => None,
        Some(s) => Some(s@),
    }
}

/// Pairs of strings taken by their characters.
pub open spec fn pairs_view(v: Seq<(String, String)>) -> Seq<(Seq<char>, Seq<char>)> {
    v.map_values(|e: (String, String)| (e.0@, e.1@))
}

/// `bincode::serialize` of a byte vector. Trusted: the result is the vector's
/// length as a little-endian `u64` followed by its bytes (bincode's default
/// fixed-int encoding of a sequence of `u8`; writing into a `Vec` cannot fail).
#[verifier::external_body]
pub(crate) fn bincode_encode_bytes(content: &Vec<u8>) -> (r: Vec<u8>)
    ensures
        r@ == enc_bytes(content@),
{
    bincode::serialize(content).expect("bincode cannot fail on a byte vector")
}

/// `bincode::serialize` of the tuple (message, timestamp, parent, pairs).
/// Trusted: the result is the concatenation of the fields' encodings as
/// `enc_commit` states them (strings and sequences length-prefixed by a
/// little-endian `u64`, `Option` tagged by one byte).
#[verifier::external_body]
pub(crate) fn bincode_encode_commit(
    message: &String,
    timestamp: u64,
    parent: &Option<String>,
    tree: &Vec<(String, String)>,
) -> (r: Vec<u8>)
    ensures
        r@ == enc_commit(message@, timestamp, opt_view(*parent), pairs_view(tree@)),
{
    bincode::serialize(&(message, timestamp, parent, tree)).expect("bincode cannot fail on plain data")
}

/// `bincode::deserialize` of a byte vector. Trusted: when it succeeds, the
/// input begins with the encoding of the vector it returns; and it succeeds
/// whenever the input begins with the encoding of some vector (bincode's
/// default options: fixed-width lengths, no size limit, trailing bytes
/// allowed).
#[verifier::external_body]
pub(crate) fn bincode_decode_bytes(data: &[u8]) -> (r: Option<Vec<u8>>)
    ensures
        r matches Some(v) ==> enc_bytes(v@).is_prefix_of(data@),
        (exists|x: Seq<u8>| #[trigger] enc_bytes(x).is_prefix_of(data@)) ==> r is Some,
{
    bincode::deserialize::<Vec<u8>>(data).ok()
}

/// `bincode::deserialize` of the tuple (message, timestamp, parent, pairs).
/// Trusted: when it succeeds, the input begins with the encoding of the
/// tuple it returns; and it succeeds whenever the input begins with the
/// encoding of some such tuple (texts are encoded as UTF-8, so they decode;
/// bincode's default options as for byte vectors).
#[verifier::external_body]
pub(crate) fn bincode_decode_commit(data: &[u8]) -> (r: Option<
    (String, u64, Option<String>, Vec<(String, String)>),
>)
    ensures
        r matches Some(t) ==> enc_commit(t.0@, t.1, opt_view(t.2), pairs_view(t.3@)).is_prefix_of(
            data@,
        ),
        (exists|m: Seq<char>, t: u64, p: Option<Seq<char>>, q: Seq<(Seq<char>, Seq<char>)>|
            #[trigger] enc_commit(m, t, p, q).is_prefix_of(data@)) ==> r is Some,
{
    bincode::deserialize::<(String, u64, Option<String>, Vec<(String, String)>)>(data).ok()
}

} // verus!
