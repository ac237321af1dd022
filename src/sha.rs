use vstd::prelude::*;
use sha1::Digest;

verus! {

/// The SHA-1 digest of `data`.
pub uninterp spec fn sha1_digest(data: Seq<u8>) -> Seq<u8>;

/// Everything that the hasher `h` has absorbed so far.
pub uninterp spec fn sha1_absorbed(h: Sha1Hasher) -> Seq<u8>;

/// A running SHA-1 computation.
// sha1::Sha1 is an alias of digest's CoreWrapper, whose typenum bounds Verus
// cannot declare, so the hasher is held in an opaque field here.
#[verifier::external_body]
pub struct Sha1Hasher {
    inner: sha1::Sha1,
}

impl Sha1Hasher {
    /// Relies on sha1::Sha1::new (through `Digest`): a hasher that has
    /// absorbed nothing.
    #[verifier::external_body]
    pub(crate) fn new() -> (r: Sha1Hasher)
        ensures
            sha1_absorbed(r) == Seq::<u8>::empty(),
    {
        Sha1Hasher { inner: sha1::Sha1::new() }
    }

    /// Relies on sha1::Sha1::update (through `Digest`): `data` is appended to
    /// what the hasher has absorbed.
    #[verifier::external_body]
    pub(crate) fn update(&mut self, data: &[u8])
        ensures
            sha1_absorbed(*final(self)) == sha1_absorbed(*old(self)) + data@,
    {
        self.inner.update(data);
    }

    /// Relies on sha1::Sha1::finalize (through `Digest`): the digest of
    /// everything absorbed, as 20 bytes.
    #[verifier::external_body]
    pub(crate) fn finalize(self) -> (r: [u8; 20])
        ensures
            r@ == sha1_digest(sha1_absorbed(self)),
    {
        self.inner.finalize().into()
    }
}

} // verus!
