use vstd::prelude::*;

verus! {

/// SHA-256 is defined on messages of fewer than 2^61 bytes.
pub const SHA256_MAX_INPUT: u64 = 0x2000000000000000;

/// What the digest function returns on a byte sequence. The value is a
/// function of the bytes alone; the library never states what it is on any
/// particular input and leaves the computation to `ring`.
pub uninterp spec fn sha256_of(data: Seq<u8>) -> Seq<u8>;

/// Relies on `ring::digest::digest` with `SHA256`: the digest depends on the
/// input bytes alone, and the algorithm's output length is 32 bytes. `ring`
/// aborts on messages beyond SHA-256's input limit, so longer inputs are
/// excluded here.
#[verifier::external_body]
fn sha256_digest(data: &[u8]) -> (r: Vec<u8>)
    requires
        data@.len() < SHA256_MAX_INPUT,
    ensures
        r@ == sha256_of(data@),
        r@.len() == 32,
{
    ring::digest::digest(&ring::digest::SHA256, data).as_ref().to_vec()
}

/// Compute the SHA-256 digest of `data`: 32 bytes, a function of the input
/// bytes alone.
pub fn sha256(data: &[u8]) -> (r: Vec<u8>)
    requires
        data@.len() < SHA256_MAX_INPUT,
    ensures
        r@ == sha256_of(data@),
        r@.len() == 32,
{
    sha256_digest(data)
}

} // verus!
