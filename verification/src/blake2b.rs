//! The cryptographic hash used by the chain records: blake2b with a
//! 32-byte digest and the chain's fixed personalization string. The digest
//! itself is computed by the `blake2ya` crate; this module only names its
//! result so that callers can state exact contracts over it.

use vstd::prelude::*;

verus! {

/// The 32-byte blake2b digest (personalized with `ckb-default-hash`) of a
/// byte string. The digest is a pure function of the input bytes alone.
pub uninterp spec fn blake2b256_of(data: Seq<u8>) -> Seq<u8>;

/// Relies on blake2ya's `Blake2b`: with a fixed digest length and
/// personalization, the digest written by `digest` depends only on the
/// bytes passed to `update`, and is exactly 32 bytes here.
#[verifier::external_body]
pub fn blake2b_256(data: &[u8]) -> (r: [u8; 32])
    ensures
        r@ == blake2b256_of(data@),
{
    let mut p = blake2ya::blake2b_params();
    p.digest(32);
    p.person(b"ckb-default-hash");
    let mut h = blake2ya::blake2b(p);
    h.update(data);
    let mut r = [0; 32];
    h.digest(&mut r);
    r
}

/// The 160-bit digest: the first 20 bytes of the 256-bit digest.
pub fn blake2b_160(data: &[u8]) -> (r: [u8; 20])
    ensures
        r@ == blake2b256_of(data@).take(20),
{
    let h = blake2b_256(data);
    let mut r = [0u8; 20];
    let mut i: usize = 0;
    while i < 20
        invariant
            0 <= i <= 20,
            h@ == blake2b256_of(data@),
            forall|j: int| 0 <= j < i ==> r@[j] == h@[j],
        decreases 20 - i,
    {
        r[i] = h[i];
        i = i + 1;
    }
    assert(r@ =~= blake2b256_of(data@).take(20));
    r
}

} // verus!
