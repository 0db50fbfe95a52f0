//! The keyed round digest, computed by an outside non-cryptographic hasher.

use core::hash::Hasher;
use rustc_data_structures::fx::FxHasher;
use vstd::prelude::*;

verus! {

/// The 64-bit digest that `FxHasher` produces when fed, in order: the 32 key
/// bytes, the little-endian bytes of `half_block`, the single byte `round`,
/// and the 32 key bytes again. The digest is a pure function of those three
/// inputs; nothing else about its value is assumed.
pub uninterp spec fn fx_round_digest(key: Seq<u8>, half_block: u128, round: u8) -> u64;

/// Relies on `rustc_data_structures::fx::FxHasher` (the `rustc-hash`
/// algorithm): its state is a single word folded over the bytes written,
/// chunked per `write` call, and `finish` returns the state. The digest is
/// therefore deterministic in exactly the byte sequences written, in order,
/// on every machine of one pointer width.
#[verifier::external_body]
pub(crate) fn round_digest(key: &[u8; 32], half_block: u128, round: u8) -> (r: u64)
    ensures
        r == fx_round_digest(key@, half_block, round),
{
    let mut hasher = FxHasher::default();
    hasher.write(&key[..]);
    hasher.write(&u128::to_le_bytes(half_block));
    hasher.write(&[round]);
    hasher.write(&key[..]);
    hasher.finish()
}

} // verus!
