//! The hash under which a preimage is registered.

use vstd::prelude::*;
use crate::limits::PREIMAGE_HASH_SIZE;

verus! {

/// The error type of the digest functions of `tezos_crypto_rs`.
#[verifier::external_type_specification]
#[verifier::external_body]
pub struct ExBlake2bError(tezos_crypto_rs::blake2b::Blake2bError);

/// The BLAKE2b digest of 32 bytes of a byte string, as
/// `tezos_crypto_rs::blake2b::digest_256` computes it.
pub uninterp spec fn blake2b_256(data: Seq<u8>) -> Seq<u8>;

/// Calls `tezos_crypto_rs::blake2b::digest_256`. Nothing is proved of the
/// call. It is taken to return the digest of the data, a function of the
/// data alone, of 32 bytes, and not to fail: the only refusal of the digest
/// functions is for a length outside 16 to 64 bytes, and this one asks for
/// 32.
#[verifier::external_body]
fn digest_256(data: &[u8]) -> (r: Result<
    Vec<u8>,
    tezos_crypto_rs::blake2b::Blake2bError,
>)
    ensures
        r is Ok,
        r matches Ok(digest) ==> digest@ == blake2b_256(data@) && digest@.len()
            == PREIMAGE_HASH_SIZE,
{
    tezos_crypto_rs::blake2b::digest_256(data)
}

/// The hash of a preimage: its BLAKE2b digest of 32 bytes.
pub fn preimage_hash(data: &[u8]) -> (r: [u8; 32])
    ensures
        r@ == blake2b_256(data@),
{
    let mut hash = [0u8; 32];
    if let Ok(digest) = digest_256(data) {
        let mut i: usize = 0;
        while i < 32
            invariant
                i <= 32,
                digest@.len() == 32,
                forall|j: int| 0 <= j < i ==> hash@[j] == digest@[j],
            decreases 32 - i,
        {
            hash[i] = digest[i];
            i += 1;
        }
        assert(hash@ =~= digest@);
    }
    hash
}

} // verus!
