//! Content digests: a 256-bit fingerprint of a byte stream, computed either in
//! one call or incrementally while the bytes are being copied elsewhere.

use sha2::Digest;
use sha2::Sha256;
use vstd::prelude::*;
use vstd::slice::slice_subrange;

verus! {

/// The SHA-256 digest of a byte sequence, as computed by the `sha2` crate.
pub uninterp spec fn sha256(data: Seq<u8>) -> Seq<u8>;

/// The bytes that a running hasher has been fed since it was created.
pub uninterp spec fn absorbed(hasher: Hasher) -> Seq<u8>;

/// A running `sha2::Sha256` hasher. Its state is opaque; `absorbed` names what
/// it has been fed.
#[verifier::external_body]
pub struct Hasher {
    inner: Sha256,
}

/// `sha2::Sha256::new`: a fresh hasher has been fed nothing.
#[verifier::external_body]
fn hasher_new() -> (hasher: Hasher)
    ensures
        absorbed(hasher) == Seq::<u8>::empty(),
{
    Hasher { inner: Sha256::new() }
}

/// `sha2::Sha256::update`: feeding `data` appends it to what the hasher has
/// been fed so far.
#[verifier::external_body]
fn hasher_update(hasher: &mut Hasher, data: &[u8])
    ensures
        absorbed(*final(hasher)) == absorbed(*old(hasher)) + data@,
{
    hasher.inner.update(data);
}

/// `sha2::Sha256::finalize`: the 32-byte SHA-256 digest of everything the
/// hasher has been fed.
#[verifier::external_body]
fn hasher_finalize(hasher: Hasher) -> (out: [u8; 32])
    ensures
        out@ == sha256(absorbed(hasher)),
{
    hasher.inner.finalize().into()
}

/// A 256-bit content digest.
#[derive(Copy, Clone, Debug)]
#[verifier::ext_equal]
pub struct Sha256Hash(pub [u8; 32]);

impl View for Sha256Hash {
    type V = Seq<u8>;

    open spec fn view(&self) -> Seq<u8> {
        self.0@
    }
}

impl Sha256Hash {
    /// A digest whose 32 bytes all equal `id`: a stand-in with a known value.
    pub fn new_for_tests(id: u8) -> (hash: Self)
        ensures
            hash@ == Seq::new(32, |i: int| id),
    {
        let hash = Sha256Hash([id; 32]);
        assert(hash@ =~= Seq::new(32, |i: int| id));
        hash
    }

    /// The digest with exactly these bytes, if there are 32 of them.
    pub fn from_bytes(bytes: &[u8]) -> (hash: Option<Self>)
        ensures
            match hash {
                Some(h) => h@ == bytes@,
                None => bytes@.len() != 32,
            },
    {
        if bytes.len() != 32 {
            return None;
        }
        let mut out = [0u8; 32];
        let mut i: usize = 0;
        while i < 32
            invariant
                i <= 32,
                bytes@.len() == 32,
                forall|j: int| 0 <= j < i ==> out@[j] == bytes@[j],
            decreases 32 - i,
        {
            out[i] = bytes[i];
            i += 1;
        }
        let hash = Sha256Hash(out);
        assert(hash@ =~= bytes@);
        Some(hash)
    }
}

/// Digest of a complete byte stream.
pub fn digest(data: &[u8]) -> (hash: Sha256Hash)
    ensures
        hash@ == sha256(data@),
{
    let mut hasher = hasher_new();
    hasher_update(&mut hasher, data);
    assert(Seq::<u8>::empty() + data@ =~= data@);
    Sha256Hash(hasher_finalize(hasher))
}

impl PartialEq for Sha256Hash {
    fn eq(&self, other: &Self) -> (same: bool) {
        let mut i: usize = 0;
        while i < 32
            invariant
                i <= 32,
                forall|j: int| 0 <= j < i ==> self.0[j] == other.0[j],
            decreases 32 - i,
        {
            if self.0[i] != other.0[i] {
                return false;
            }
            i += 1;
        }
        assert(*self =~= *other);
        true
    }
}

impl Eq for Sha256Hash {

}

impl vstd::std_specs::cmp::PartialEqSpecImpl for Sha256Hash {
    open spec fn obeys_eq_spec() -> bool {
        true
    }

    open spec fn eq_spec(&self, other: &Self) -> bool {
        *self == *other
    }
}

/// Two digests are equal exactly when their byte sequences are.
pub proof fn lemma_digest_equality(a: Sha256Hash, b: Sha256Hash)
    ensures
        (a == b) <==> (a@ == b@),
{
    if a@ == b@ {
        assert forall|i: int| 0 <= i < 32 implies a.0[i] == b.0[i] by {
            assert(a@[i] == b@[i]);
        }
        assert(a =~= b);
    }
}

/// The hashing half of a tee: while a caller copies bytes to some destination,
/// it reports every accepted write here, and the writer folds exactly the
/// accepted bytes into a running digest.
pub struct DigestWriter {
    sha256: Hasher,
}

impl View for DigestWriter {
    type V = Seq<u8>;

    /// Every byte folded in so far, in order.
    closed spec fn view(&self) -> Seq<u8> {
        absorbed(self.sha256)
    }
}

impl DigestWriter {
    /// A writer that has seen no bytes.
    pub fn new() -> (writer: Self)
        ensures
            writer@ == Seq::<u8>::empty(),
    {
        DigestWriter { sha256: hasher_new() }
    }

    /// Accounts for one write of `buf` of which the destination accepted the
    /// first `written` bytes: those bytes, and no others, join the digest.
    /// A write that accepted nothing changes nothing.
    pub fn write(&mut self, buf: &[u8], written: usize) -> (count: usize)
        requires
            written <= buf@.len(),
        ensures
            count == written,
            final(self)@ == old(self)@ + buf@.take(written as int),
    {
        if written > 0 {
            let accepted = slice_subrange(buf, 0, written);
            hasher_update(&mut self.sha256, accepted);
        } else {
            assert(old(self)@ + buf@.take(0) =~= old(self)@);
        }
        written
    }

    /// Ends the stream and yields the digest of every byte folded in.
    pub fn finalise(self) -> (hash: Sha256Hash)
        ensures
            hash@ == sha256(self@),
    {
        Sha256Hash(hasher_finalize(self.sha256))
    }
}

/// Round trip. A stream hashed in one call, and the same stream written
/// through a `DigestWriter` in pieces of any size, yield the same digest.
pub proof fn lemma_round_trip(
    data: Seq<u8>,
    one_shot: Sha256Hash,
    writer: DigestWriter,
    streamed: Sha256Hash,
)
    requires
        one_shot@ == sha256(data),
        writer@ == data,
        streamed@ == sha256(writer@),
    ensures
        one_shot == streamed,
{
    lemma_digest_equality(one_shot, streamed);
}

} // verus!
