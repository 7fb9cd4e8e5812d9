use vstd::prelude::*;

use commit_verify::Digest;
use rand_chacha::rand_core::{RngCore, SeedableRng};

verus! {

/// The 64-bit output of the ChaCha20 stream seeded with `seed` that starts at
/// 32-bit word `word_pos`.
pub uninterp spec fn chacha20_u64_at(seed: Seq<u8>, word_pos: u128) -> u64;

/// The SHA-256 digest of `data`.
pub uninterp spec fn sha256_of(data: Seq<u8>) -> Seq<u8>;

/// Draw number `k` of the blinding stream keyed by `key`: the `k`-th 64-bit
/// output of ChaCha20 seeded with `key`.
pub open spec fn draw(key: Seq<u8>, k: int) -> u64 {
    chacha20_u64_at(key, (2 * k) as u128)
}

/// Relies on rand_chacha's `ChaCha20Rng::from_seed`, `set_word_pos` and
/// `next_u64`: the output depends on the seed and the position alone.
#[verifier::external_body]
fn chacha20_next_at(seed: &[u8; 32], word_pos: u128) -> (r: u64)
    ensures
        r == chacha20_u64_at(seed@, word_pos),
{
    let mut rng = rand_chacha::ChaCha20Rng::from_seed(*seed);
    rng.set_word_pos(word_pos);
    rng.next_u64()
}

/// Relies on the SHA-256 of the `sha2` crate, as `commit_verify` exports it:
/// a 32-byte digest of the bytes.
#[verifier::external_body]
pub(crate) fn sha256(data: &Vec<u8>) -> (r: [u8; 32])
    ensures
        r@ == sha256_of(data@),
{
    commit_verify::Sha256::digest(data.as_slice()).into()
}

/// Draw number `k` of the blinding stream keyed by `key`.
pub fn blinding_at(key: &[u8; 32], k: u64) -> (r: u64)
    ensures
        r == draw(key@, k as int),
{
    let pos: u128 = 2 * (k as u128);
    chacha20_next_at(key, pos)
}

} // verus!
