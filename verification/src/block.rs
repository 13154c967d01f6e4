//! Sixteen-byte blocks: the block cipher itself, which comes from the `aes`
//! crate, and the two operations the AEAD construction builds on it.

use aes::cipher::generic_array::GenericArray;
use aes::cipher::{BlockDecrypt, BlockEncrypt, KeyInit};
use vstd::prelude::*;

verus! {

/// Width of a cipher block in bytes.
pub const BLOCK_SIZE: usize = 16;

/// Width of the secret key in bytes.
pub const KEY_SIZE: usize = 16;

/// The AES-128 encryption of `block` under `key`.
pub uninterp spec fn aes128_encrypt(key: Seq<u8>, block: Seq<u8>) -> Seq<u8>;

/// The AES-128 decryption of `block` under `key`.
pub uninterp spec fn aes128_decrypt(key: Seq<u8>, block: Seq<u8>) -> Seq<u8>;

/// Calls `aes::Aes128::encrypt_block` with a cipher freshly keyed by
/// `Aes128::new`.
///
/// Trusted: the result is the AES-128 encryption of `block` under `key`, a
/// function of the two alone, and decrypting it under the same key gives
/// `block` back, AES being a permutation of the blocks for every key.
#[verifier::external_body]
pub(crate) fn encrypt_block(key: &[u8; 16], block: &[u8; 16]) -> (out: [u8; 16])
    ensures
        out@ == aes128_encrypt(key@, block@),
        aes128_decrypt(key@, out@) == block@,
{
    let cipher = aes::Aes128::new(&GenericArray::from(*key));
    let mut buffer = GenericArray::from(*block);
    cipher.encrypt_block(&mut buffer);
    buffer.into()
}

/// Calls `aes::Aes128::decrypt_block` with a cipher freshly keyed by
/// `Aes128::new`.
///
/// Trusted: the result is the AES-128 decryption of `block` under `key`, a
/// function of the two alone.
#[verifier::external_body]
pub(crate) fn decrypt_block(key: &[u8; 16], block: &[u8; 16]) -> (out: [u8; 16])
    ensures
        out@ == aes128_decrypt(key@, block@),
{
    let cipher = aes::Aes128::new(&GenericArray::from(*key));
    let mut buffer = GenericArray::from(*block);
    cipher.decrypt_block(&mut buffer);
    buffer.into()
}

/// Bytewise exclusive-or of the first sixteen bytes of `a` and `b`.
pub open spec fn xor16(a: Seq<u8>, b: Seq<u8>) -> Seq<u8> {
    Seq::new(16, |i: int| a[i] ^ b[i])
}

/// One byte of a doubled block: `this` moved up one bit, with the top bit of
/// the byte that follows it moved in below.
pub open spec fn shifted_in(this: u8, next: u8) -> u8 {
    (this << 1) | (next >> 7)
}

/// What the last byte takes up when the top bit of the block falls off.
pub open spec fn reduction(first: u8) -> u8 {
    if first >= 128 {
        0x87
    } else {
        0
    }
}

/// The block, read as a big-endian polynomial over GF(2), times `x` modulo
/// `x^128 + x^7 + x^2 + x + 1`: every bit moves up by one, and a bit that
/// leaves the top folds back into the last byte as `0x87`.
pub open spec fn doubled(block: Seq<u8>) -> Seq<u8> {
    Seq::new(
        16,
        |i: int|
            if i < 15 {
                shifted_in(block[i], block[i + 1])
            } else {
                (block[15] << 1) ^ reduction(block[0])
            },
    )
}

/// The all-zero block.
pub open spec fn zero_block() -> Seq<u8> {
    Seq::new(16, |i: int| 0u8)
}

/// Bytewise exclusive-or of two blocks.
pub fn xor_block(a: &[u8; 16], b: &[u8; 16]) -> (out: [u8; 16])
    ensures
        out@ == xor16(a@, b@),
{
    let mut out: [u8; 16] = [0u8; 16];
    let mut i: usize = 0;
    while i < 16
        invariant
            i <= 16,
            forall|j: int| 0 <= j < i ==> out@[j] == a@[j] ^ b@[j],
        decreases 16 - i,
    {
        out[i] = a[i] ^ b[i];
        i += 1;
    }
    assert(out@ =~= xor16(a@, b@));
    out
}

/// Doubles a block in GF(2^128).
pub fn double_block(block: &[u8; 16]) -> (out: [u8; 16])
    ensures
        out@ == doubled(block@),
{
    let mut out: [u8; 16] = [0u8; 16];
    let mut i: usize = 0;
    while i < 15
        invariant
            i <= 15,
            forall|j: int| 0 <= j < i ==> out@[j] == shifted_in(block@[j], block@[j + 1]),
        decreases 15 - i,
    {
        out[i] = (block[i] << 1) | (block[i + 1] >> 7);
        i += 1;
    }
    let fold: u8 = if block[0] >= 128 {
        0x87
    } else {
        0
    };
    out[15] = (block[15] << 1) ^ fold;
    assert(out@ =~= doubled(block@));
    out
}

/// Exclusive-or with the same block twice gives the first block back.
pub proof fn lemma_xor16_cancel(a: Seq<u8>, b: Seq<u8>)
    requires
        a.len() == 16,
    ensures
        xor16(xor16(a, b), b) == a,
{
    assert forall|i: int| 0 <= i < 16 implies #[trigger] xor16(xor16(a, b), b)[i] == a[i] by {
        let x = a[i];
        let y = b[i];
        assert((x ^ y) ^ y == x) by (bit_vector);
    }
    assert(xor16(xor16(a, b), b) =~= a);
}

} // verus!
