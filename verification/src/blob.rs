//! The stored contents of one version of a file.

use vstd::prelude::*;
use crate::codec::{enc_bytes, lemma_bytes_front, bincode_encode_bytes, bincode_decode_bytes};
use crate::utils::{sha1, sha1_hex, concat_bytes};
use crate::filemap::Duplicate;

verus! {

/// A file's contents, kept as an object of the store.
#[derive(Debug)]
pub struct Blob {
    pub content: Vec<u8>,
}

impl View for Blob {
    type V = Seq<u8>;

    open spec fn view(&self) -> Seq<u8> {
        self.content@
    }
}

/// The stored form of a blob with these contents.
pub open spec fn blob_data(content: Seq<u8>) -> Seq<u8> {
    enc_bytes(content)
}

/// The id of a blob with these contents: the SHA-1 of its stored form.
pub open spec fn blob_id(content: Seq<u8>) -> Seq<char> {
    sha1_hex(blob_data(content))
}

/// One byte string concatenated alone is itself.
pub proof fn lemma_concat_one(x: Seq<u8>)
    ensures
        concat_bytes(seq![x]) == x,
{
    let s = seq![x];
    assert(s.drop_last() =~= Seq::<Seq<u8>>::empty());
    assert(concat_bytes(s.drop_last()) == Seq::<u8>::empty());
    assert(s.last() == x);
    assert(concat_bytes(s) == concat_bytes(s.drop_last()) + s.last());
    assert(Seq::<u8>::empty() + x =~= x);
}

/// A stored blob reads back as the contents it was written with: where
/// the stored form of some contents `y` begins the stored form of `x`,
/// `y` is `x`.
pub proof fn law_blob_read_back(x: Seq<u8>, y: Seq<u8>)
    requires
        blob_data(x).len() < 0x1_0000_0000_0000_0000,
        blob_data(y).is_prefix_of(blob_data(x)),
    ensures
        y == x,
{
    let e = Seq::<u8>::empty();
    assert(blob_data(x) + e =~= blob_data(x));
    assert(blob_data(y) + e =~= blob_data(y));
    lemma_bytes_front(x, y, e, e);
}

impl Blob {
    /// A blob holding `content`.
    pub fn new(content: Vec<u8>) -> (r: Blob)
        ensures
            r@ == content@,
    {
        Blob { content }
    }

    /// The blob's stored form.
    pub fn get_data(&self) -> (r: Vec<u8>)
        ensures
            r@ == blob_data(self@),
    {
        bincode_encode_bytes(&self.content)
    }

    /// The blob's id.
    pub fn get_id(&self) -> (r: String)
        ensures
            r@ == blob_id(self@),
    {
        let data = self.get_data();
        let parts: [&[u8]; 1] = [data.as_slice()];
        let r = sha1(parts.as_slice());
        proof {
            assert(parts@.map_values(|v: &[u8]| v@) =~= seq![data@]);
            lemma_concat_one(data@);
        }
        r
    }

    /// The blob that a stored form holds. It is read whenever `data` begins
    /// with the stored form of some contents, and then it holds exactly
    /// those contents.
    pub fn from_data(data: &[u8]) -> (r: Option<Blob>)
        ensures
            r matches Some(b) ==> blob_data(b@).is_prefix_of(data@),
            forall|x: Seq<u8>| #[trigger]
                blob_data(x).is_prefix_of(data@) ==> (r matches Some(b) && b@ == x),
    {
        let n = data.len();
        match bincode_decode_bytes(data) {
            Some(v) => {
                proof {
                    assert forall|x: Seq<u8>| #[trigger]
                        blob_data(x).is_prefix_of(data@) implies v@ == x by {
                        let rx = data@.subrange(blob_data(x).len() as int, n as int);
                        assert(blob_data(x) + rx =~= data@);
                        assert(enc_bytes(v@) + Seq::<u8>::empty() =~= enc_bytes(v@));
                        lemma_bytes_front(x, v@, rx, Seq::<u8>::empty());
                    }
                }
                Some(Blob { content: v })
            },
            None => {
                proof {
                    assert forall|x: Seq<u8>| !#[trigger] blob_data(x).is_prefix_of(data@) by {
                        if blob_data(x).is_prefix_of(data@) {
                            assert(enc_bytes(x).is_prefix_of(data@));
                        }
                    }
                }
                None
            },
        }
    }
}

impl Duplicate for Blob {
    fn duplicate(&self) -> (r: Self) {
        Blob { content: self.content.duplicate() }
    }
}

} // verus!
