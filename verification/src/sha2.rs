//! SHA-256, as the `sha2` crate computes it.

use vstd::prelude::*;

verus! {

/// The SHA-256 digest of `data`.
pub uninterp spec fn sha256(data: Seq<u8>) -> [u8; 32];

/// Calls `sha2::Sha256::digest` (the `digest` function of the crate's `Digest`
/// trait) on `data` and hands back the 32 bytes it returns. Nothing is proved
/// of those bytes: the contract only gives them their name, `sha256(data)`.
#[verifier::external_body]
fn digest(data: &[u8]) -> (r: [u8; 32])
    ensures
        r == sha256(data@),
{
    <::sha2::Sha256 as ::sha2::Digest>::digest(data).into()
}

/// A SHA-256 computation that takes its input in pieces.
pub struct Sha256 {
    data: Vec<u8>,
}

impl View for Sha256 {
    type V = Seq<u8>;

    /// The input taken so far.
    closed spec fn view(&self) -> Seq<u8> {
        self.data@
    }
}

impl Sha256 {
    /// A computation that has taken no input yet.
    pub fn new() -> (h: Sha256)
        ensures
            h@ == Seq::<u8>::empty(),
    {
        Sha256 { data: Vec::new() }
    }

    /// Takes `buf` as the next piece of input.
    pub fn update(&mut self, buf: &[u8])
        ensures
            final(self)@ == old(self)@ + buf@,
    {
        self.data.extend_from_slice(buf);
        assert(self.data@ =~= old(self).data@ + buf@);
    }

    /// The digest of all the input taken.
    pub fn finish(self) -> (r: [u8; 32])
        ensures
            r == sha256(self@),
    {
        digest(self.data.as_slice())
    }
}

} // verus!
