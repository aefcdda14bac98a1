//! The MARF value of Clarity `none`.

use sha2::{Digest, Sha512_256};
use vstd::prelude::*;

use crate::trie::{MARF_VALUE_SIZE, TRIE_HASH_SIZE};

verus! {

/// The SHA-512/256 digest of `data`.
pub uninterp spec fn sha512_256(data: Seq<u8>) -> Seq<u8>;

/// Calls `sha2::Sha512_256::digest`, which hashes `data` in one go. The result
/// is the SHA-512/256 digest of `data`, which depends on `data` alone and has 32
/// bytes; which bytes they are is not said here.
#[verifier::external_body]
fn sha512_256_digest(data: &[u8]) -> (r: [u8; TRIE_HASH_SIZE])
    ensures
        r@ == sha512_256(data@),
{
    Sha512_256::digest(data).into()
}

/// The MARF value for a hash: the hash, then reserved zero bytes.
pub open spec fn marf_value(hash: Seq<u8>) -> Seq<u8> {
    hash + seq![0u8, 0u8, 0u8, 0u8, 0u8, 0u8, 0u8, 0u8]
}

/// The hex text `09`, which is the serialization of Clarity `none`, in bytes.
pub open spec fn none_serialization() -> Seq<u8> {
    seq![0x30u8, 0x39u8]
}

/// The MARF value for a hash of 32 bytes has 40: the hash and eight zeros. So
/// the hash can be read from it, and different hashes have different values.
pub proof fn law_marf_value_bytes(a: Seq<u8>, b: Seq<u8>)
    requires
        a.len() == 32,
        b.len() == 32,
    ensures
        marf_value(a).len() == 40,
        marf_value(a).take(32) == a,
        forall|i: int| 32 <= i < 40 ==> #[trigger] marf_value(a)[i] == 0,
        marf_value(a) == marf_value(b) ==> a == b,
{
    assert(marf_value(a).take(32) =~= a);
    assert(marf_value(b).take(32) =~= b);
}

/// Builds the MARF value for `hash`.
pub fn marf_value_for(hash: &[u8; TRIE_HASH_SIZE]) -> (r: [u8; MARF_VALUE_SIZE])
    ensures
        r@ == marf_value(hash@),
        forall|i: int| 0 <= i < 32 ==> #[trigger] r@[i] == hash@[i],
        forall|i: int| 32 <= i < 40 ==> #[trigger] r@[i] == 0,
{
    let mut r: [u8; MARF_VALUE_SIZE] = [0u8; MARF_VALUE_SIZE];
    let mut i: usize = 0;
    while i < TRIE_HASH_SIZE
        invariant
            i <= TRIE_HASH_SIZE,
            forall|j: int| 0 <= j < i ==> r@[j] == hash@[j],
            forall|j: int| i <= j < MARF_VALUE_SIZE ==> r@[j] == 0,
        decreases TRIE_HASH_SIZE - i,
    {
        r[i] = hash[i];
        i = i + 1;
    }
    assert(r@ =~= marf_value(hash@));
    r
}

/// Computes the MARF value for Clarity `none`, which serializes to the hex text
/// `09`.
pub fn compute_none_marf_value() -> (r: [u8; MARF_VALUE_SIZE])
    ensures
        r@ == marf_value(sha512_256(none_serialization())),
        r@ == sha512_256(seq![0x30u8, 0x39u8]) + seq![0u8, 0u8, 0u8, 0u8, 0u8, 0u8, 0u8, 0u8],
{
    let serialized: [u8; 2] = [0x30u8, 0x39u8];
    assert(serialized@ =~= none_serialization());
    let hash = sha512_256_digest(serialized.as_slice());
    marf_value_for(&hash)
}

} // verus!
