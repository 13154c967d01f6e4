//! The AEAD engine: offset-codebook encryption over AES-128 in the form the
//! transport's wire format fixes, with the tag cut to three bytes.
//!
//! The ciphertext is as long as the plaintext. Every block but the last is
//! masked with a running offset, enciphered and masked again; the last one,
//! of one to sixteen bytes, is xored with an enciphered pad. The tag is the
//! encipherment of the xor of all plaintext blocks, masked once more.

use crate::block::{
    aes128_decrypt, aes128_encrypt, decrypt_block, double_block, doubled, encrypt_block,
    lemma_xor16_cancel, xor16, xor_block, zero_block,
};
use vstd::prelude::*;

verus! {

/// Number of tag bytes that travel with a packet.
pub const TAG_SIZE: usize = 3;

/// The `i`-th offset: the enciphered nonce, doubled `i` times.
pub open spec fn offset(key: Seq<u8>, nonce: Seq<u8>, i: nat) -> Seq<u8>
    decreases i,
{
    if i == 0 {
        aes128_encrypt(key, nonce)
    } else {
        doubled(offset(key, nonce, (i - 1) as nat))
    }
}

/// How many whole blocks come before the last block of a message of `len`
/// bytes. The last block holds one to sixteen bytes, or none if the message
/// is empty.
pub open spec fn leading_blocks(len: nat) -> nat {
    if len == 0 {
        0
    } else {
        ((len - 1) / 16) as nat
    }
}

/// The `i`-th sixteen-byte block of `data`.
pub open spec fn block_at(data: Seq<u8>, i: int) -> Seq<u8> {
    data.subrange(16 * i, 16 * i + 16)
}

/// The `i`-th block of `data` under its offset: what goes into the cipher.
pub open spec fn masked(key: Seq<u8>, nonce: Seq<u8>, data: Seq<u8>, i: int) -> Seq<u8> {
    xor16(block_at(data, i), offset(key, nonce, (i + 1) as nat))
}

/// The ciphertext of the `i`-th leading block of `plain`.
pub open spec fn sealed_block(key: Seq<u8>, nonce: Seq<u8>, plain: Seq<u8>, i: int) -> Seq<u8> {
    xor16(aes128_encrypt(key, masked(key, nonce, plain, i)), offset(key, nonce, (i + 1) as nat))
}

/// The plaintext of the `i`-th leading block of `cipher`.
pub open spec fn opened_block(key: Seq<u8>, nonce: Seq<u8>, cipher: Seq<u8>, i: int) -> Seq<u8> {
    xor16(aes128_decrypt(key, masked(key, nonce, cipher, i)), offset(key, nonce, (i + 1) as nat))
}

/// The block that encodes the bit length of a last block of `tail` bytes.
pub open spec fn length_block(tail: nat) -> Seq<u8> {
    Seq::new(
        16,
        |i: int|
            if i == 15 {
                (8 * tail) as u8
            } else {
                0u8
            },
    )
}

/// The pad that the last block of a message of `len` bytes is xored with.
pub open spec fn pad(key: Seq<u8>, nonce: Seq<u8>, len: nat) -> Seq<u8> {
    let n = leading_blocks(len);
    aes128_encrypt(key, xor16(length_block((len - 16 * n) as nat), offset(key, nonce, n + 1)))
}

/// Byte `j` of the ciphertext of `plain`.
pub open spec fn sealed_byte(key: Seq<u8>, nonce: Seq<u8>, plain: Seq<u8>, j: int) -> u8 {
    let n = leading_blocks(plain.len());
    if j < 16 * n {
        sealed_block(key, nonce, plain, j / 16)[j % 16]
    } else {
        plain[j] ^ pad(key, nonce, plain.len())[j - 16 * n]
    }
}

/// Byte `j` of the plaintext of `cipher`.
pub open spec fn opened_byte(key: Seq<u8>, nonce: Seq<u8>, cipher: Seq<u8>, j: int) -> u8 {
    let n = leading_blocks(cipher.len());
    if j < 16 * n {
        opened_block(key, nonce, cipher, j / 16)[j % 16]
    } else {
        cipher[j] ^ pad(key, nonce, cipher.len())[j - 16 * n]
    }
}

/// The ciphertext of `plain` under `key` and `nonce`.
pub open spec fn ciphertext(key: Seq<u8>, nonce: Seq<u8>, plain: Seq<u8>) -> Seq<u8> {
    Seq::new(plain.len(), |j: int| sealed_byte(key, nonce, plain, j))
}

/// The plaintext that `cipher` decrypts to under `key` and `nonce`, whether
/// or not it is authentic.
pub open spec fn plaintext(key: Seq<u8>, nonce: Seq<u8>, cipher: Seq<u8>) -> Seq<u8> {
    Seq::new(cipher.len(), |j: int| opened_byte(key, nonce, cipher, j))
}

/// The xor of the first `count` blocks of `data`.
pub open spec fn block_sum(data: Seq<u8>, count: nat) -> Seq<u8>
    decreases count,
{
    if count == 0 {
        zero_block()
    } else {
        xor16(block_sum(data, (count - 1) as nat), block_at(data, count - 1))
    }
}

/// The last block of `plain`, filled up to sixteen bytes from `filler`.
pub open spec fn padded_tail(plain: Seq<u8>, filler: Seq<u8>) -> Seq<u8> {
    let start = 16 * leading_blocks(plain.len());
    Seq::new(
        16,
        |i: int|
            if start + i < plain.len() {
                plain[start + i]
            } else {
                filler[i]
            },
    )
}

/// The sixteen-byte authentication tag of `plain` under `key` and `nonce`.
pub open spec fn full_tag(key: Seq<u8>, nonce: Seq<u8>, plain: Seq<u8>) -> Seq<u8> {
    let n = leading_blocks(plain.len());
    let last = offset(key, nonce, n + 1);
    let sum = xor16(block_sum(plain, n), padded_tail(plain, pad(key, nonce, plain.len())));
    aes128_encrypt(key, xor16(xor16(last, doubled(last)), sum))
}

/// The three bytes of a tag that travel with the packet.
pub open spec fn short_tag(tag: Seq<u8>) -> Seq<u8> {
    seq![tag[0], tag[1], tag[2]]
}

/// What `open` returns: the plaintext if the tag recomputed from it agrees
/// with `tag` in its three bytes, and nothing otherwise.
pub open spec fn opened(key: Seq<u8>, nonce: Seq<u8>, cipher: Seq<u8>, tag: Seq<u8>) -> Option<
    Seq<u8>,
> {
    let plain = plaintext(key, nonce, cipher);
    if short_tag(full_tag(key, nonce, plain)) == tag {
        Some(plain)
    } else {
        None
    }
}

/// The cipher's decryption undoes its encryption of `block` under `key`.
pub open spec fn inverts(key: Seq<u8>, block: Seq<u8>) -> bool {
    aes128_encrypt(key, block).len() == 16 && aes128_decrypt(key, aes128_encrypt(key, block))
        == block
}

/// Every block of `plain` that went through the cipher can be brought back
/// by it.
pub open spec fn recoverable(key: Seq<u8>, nonce: Seq<u8>, plain: Seq<u8>) -> bool {
    forall|i: int|
        0 <= i < leading_blocks(plain.len()) ==> inverts(
            key,
            #[trigger] masked(key, nonce, plain, i),
        )
}

/// There are sixteen bytes to every leading block, and at least one byte
/// after them unless the message is empty.
pub proof fn lemma_leading_blocks(len: nat)
    ensures
        16 * leading_blocks(len) <= len <= 16 * leading_blocks(len) + 16,
        len > 0 ==> 16 * leading_blocks(len) < len,
{
}

/// A leading block of the ciphertext is the sealed block of the same index.
pub proof fn lemma_block_of_ciphertext(key: Seq<u8>, nonce: Seq<u8>, plain: Seq<u8>, i: int)
    requires
        0 <= i < leading_blocks(plain.len()),
    ensures
        block_at(ciphertext(key, nonce, plain), i) == sealed_block(key, nonce, plain, i),
{
    lemma_leading_blocks(plain.len());
    let whole = ciphertext(key, nonce, plain);
    assert forall|k: int| 0 <= k < 16 implies #[trigger] block_at(whole, i)[k] == sealed_block(
        key,
        nonce,
        plain,
        i,
    )[k] by {
        let j = 16 * i + k;
        assert(j / 16 == i && j % 16 == k);
        assert(whole[j] == sealed_byte(key, nonce, plain, j));
    }
    assert(block_at(whole, i) =~= sealed_block(key, nonce, plain, i));
}

/// A leading block of the plaintext is the opened block of the same index.
pub proof fn lemma_block_of_plaintext(key: Seq<u8>, nonce: Seq<u8>, cipher: Seq<u8>, i: int)
    requires
        0 <= i < leading_blocks(cipher.len()),
    ensures
        block_at(plaintext(key, nonce, cipher), i) == opened_block(key, nonce, cipher, i),
{
    lemma_leading_blocks(cipher.len());
    let whole = plaintext(key, nonce, cipher);
    assert forall|k: int| 0 <= k < 16 implies #[trigger] block_at(whole, i)[k] == opened_block(
        key,
        nonce,
        cipher,
        i,
    )[k] by {
        let j = 16 * i + k;
        assert(j / 16 == i && j % 16 == k);
        assert(whole[j] == opened_byte(key, nonce, cipher, j));
    }
    assert(block_at(whole, i) =~= opened_block(key, nonce, cipher, i));
}

/// Decryption undoes encryption: where the cipher brings back every block
/// that it enciphered, the plaintext of the ciphertext is the message.
pub proof fn lemma_round_trip(key: Seq<u8>, nonce: Seq<u8>, plain: Seq<u8>)
    requires
        recoverable(key, nonce, plain),
    ensures
        plaintext(key, nonce, ciphertext(key, nonce, plain)) == plain,
{
    let cipher = ciphertext(key, nonce, plain);
    let back = plaintext(key, nonce, cipher);
    let n = leading_blocks(plain.len());
    lemma_leading_blocks(plain.len());
    assert forall|j: int| 0 <= j < plain.len() implies #[trigger] back[j] == plain[j] by {
        assert(back[j] == opened_byte(key, nonce, cipher, j));
        if j < 16 * n {
            let i = j / 16;
            let off = offset(key, nonce, (i + 1) as nat);
            let inner = masked(key, nonce, plain, i);
            assert(inverts(key, inner));
            lemma_block_of_ciphertext(key, nonce, plain, i);
            lemma_xor16_cancel(aes128_encrypt(key, inner), off);
            assert(masked(key, nonce, cipher, i) == aes128_encrypt(key, inner));
            lemma_xor16_cancel(block_at(plain, i), off);
            assert(opened_block(key, nonce, cipher, i) == block_at(plain, i));
            assert(block_at(plain, i)[j % 16] == plain[16 * i + j % 16]);
        } else {
            let x = plain[j];
            let y = pad(key, nonce, plain.len())[j - 16 * n];
            assert(cipher[j] == x ^ y);
            assert((x ^ y) ^ y == x) by (bit_vector);
        }
    }
    assert(back =~= plain);
}

/// Copies the sixteen bytes of `data` that start at `at` into a block.
fn load_block(data: &[u8], at: usize) -> (out: [u8; 16])
    requires
        at + 16 <= data@.len(),
    ensures
        out@ == data@.subrange(at as int, at + 16),
{
    let total: usize = data.len();
    let mut out: [u8; 16] = [0u8; 16];
    let mut k: usize = 0;
    while k < 16
        invariant
            k <= 16,
            at + 16 <= total == data@.len(),
            forall|m: int| 0 <= m < k ==> out@[m] == data@[at + m],
        decreases 16 - k,
    {
        out[k] = data[at + k];
        k += 1;
    }
    assert(out@ =~= data@.subrange(at as int, at + 16));
    out
}

/// Appends the sixteen bytes of `block` to `out`.
fn append_block(out: &mut Vec<u8>, block: &[u8; 16])
    ensures
        final(out)@ == old(out)@ + block@,
{
    let mut k: usize = 0;
    while k < 16
        invariant
            k <= 16,
            out@ == old(out)@ + block@.subrange(0, k as int),
        decreases 16 - k,
    {
        out.push(block[k]);
        assert(out@ =~= old(out)@ + block@.subrange(0, k + 1));
        k += 1;
    }
    assert(block@.subrange(0, 16) =~= block@);
}

/// Encrypts `plain` and computes its full tag.
pub fn encrypt_with_tag(key: &[u8; 16], nonce: &[u8; 16], plain: &[u8]) -> (out: (
    Vec<u8>,
    [u8; 16],
))
    ensures
        out.0@ == ciphertext(key@, nonce@, plain@),
        out.1@ == full_tag(key@, nonce@, plain@),
        recoverable(key@, nonce@, plain@),
{
    let len: usize = plain.len();
    let n: usize = if len == 0 {
        0
    } else {
        (len - 1) / 16
    };
    let mut out: Vec<u8> = Vec::new();
    let mut running: [u8; 16] = encrypt_block(key, nonce);
    let mut sum: [u8; 16] = [0u8; 16];
    assert(sum@ =~= zero_block());
    let mut i: usize = 0;
    while i < n
        invariant
            i <= n,
            len == plain@.len(),
            n == leading_blocks(len as nat),
            16 * n <= len,
            running@ == offset(key@, nonce@, i as nat),
            sum@ == block_sum(plain@, i as nat),
            out@.len() == 16 * i,
            forall|j: int| 0 <= j < 16 * i ==> out@[j] == sealed_byte(key@, nonce@, plain@, j),
            forall|k: int| 0 <= k < i ==> inverts(key@, #[trigger] masked(key@, nonce@, plain@, k)),
        decreases n - i,
    {
        running = double_block(&running);
        let block: [u8; 16] = load_block(plain, 16 * i);
        let inner: [u8; 16] = xor_block(&block, &running);
        let enciphered: [u8; 16] = encrypt_block(key, &inner);
        let sealed: [u8; 16] = xor_block(&enciphered, &running);
        let ghost before = out@;
        append_block(&mut out, &sealed);
        sum = xor_block(&sum, &block);
        proof {
            assert(block@ == block_at(plain@, i as int));
            assert(inner@ == masked(key@, nonce@, plain@, i as int));
            assert(sealed@ == sealed_block(key@, nonce@, plain@, i as int));
            assert forall|j: int| 0 <= j < 16 * (i + 1) implies out@[j] == sealed_byte(
                key@,
                nonce@,
                plain@,
                j,
            ) by {
                if j >= 16 * i {
                    assert(j / 16 == i as int && j % 16 == j - 16 * i);
                    assert(out@[j] == sealed@[j - 16 * i]);
                } else {
                    assert(out@[j] == before[j]);
                }
            }
        }
        i += 1;
    }
    running = double_block(&running);
    let tail: usize = len - 16 * n;
    let mut coded: [u8; 16] = [0u8; 16];
    coded[15] = (8 * tail) as u8;
    assert(coded@ =~= length_block(tail as nat));
    let filler: [u8; 16] = encrypt_block(key, &xor_block(&coded, &running));
    assert(filler@ == pad(key@, nonce@, len as nat));
    let mut last: [u8; 16] = filler;
    let mut k: usize = 0;
    while k < tail
        invariant
            k <= tail <= 16,
            len == plain@.len(),
            n == leading_blocks(len as nat),
            tail == len - 16 * n,
            filler@ == pad(key@, nonce@, len as nat),
            out@.len() == 16 * n + k,
            forall|j: int| 0 <= j < 16 * n + k ==> out@[j] == sealed_byte(key@, nonce@, plain@, j),
            forall|m: int| 0 <= m < k ==> last@[m] == plain@[16 * n + m],
            forall|m: int| k <= m < 16 ==> last@[m] == filler@[m],
        decreases tail - k,
    {
        let byte: u8 = plain[16 * n + k];
        let ghost before = out@;
        out.push(byte ^ filler[k]);
        last[k] = byte;
        proof {
            assert forall|j: int| 0 <= j < 16 * n + k + 1 implies out@[j] == sealed_byte(
                key@,
                nonce@,
                plain@,
                j,
            ) by {
                if j < 16 * n + k {
                    assert(out@[j] == before[j]);
                }
            }
        }
        k += 1;
    }
    assert(out@ =~= ciphertext(key@, nonce@, plain@));
    assert(last@ =~= padded_tail(plain@, filler@));
    sum = xor_block(&sum, &last);
    let mask: [u8; 16] = xor_block(&running, &double_block(&running));
    let tag: [u8; 16] = encrypt_block(key, &xor_block(&mask, &sum));
    (out, tag)
}

/// Decrypts `cipher` and computes the full tag of what came out. The result
/// is not authentic until that tag has been compared.
pub fn decrypt_with_tag(key: &[u8; 16], nonce: &[u8; 16], cipher: &[u8]) -> (out: (
    Vec<u8>,
    [u8; 16],
))
    ensures
        out.0@ == plaintext(key@, nonce@, cipher@),
        out.1@ == full_tag(key@, nonce@, out.0@),
{
    let len: usize = cipher.len();
    let n: usize = if len == 0 {
        0
    } else {
        (len - 1) / 16
    };
    let ghost whole = plaintext(key@, nonce@, cipher@);
    let mut out: Vec<u8> = Vec::new();
    let mut running: [u8; 16] = encrypt_block(key, nonce);
    let mut sum: [u8; 16] = [0u8; 16];
    assert(sum@ =~= zero_block());
    let mut i: usize = 0;
    while i < n
        invariant
            i <= n,
            len == cipher@.len(),
            n == leading_blocks(len as nat),
            16 * n <= len,
            whole == plaintext(key@, nonce@, cipher@),
            running@ == offset(key@, nonce@, i as nat),
            sum@ == block_sum(whole, i as nat),
            out@.len() == 16 * i,
            forall|j: int| 0 <= j < 16 * i ==> out@[j] == opened_byte(key@, nonce@, cipher@, j),
        decreases n - i,
    {
        running = double_block(&running);
        let block: [u8; 16] = load_block(cipher, 16 * i);
        let inner: [u8; 16] = xor_block(&block, &running);
        let deciphered: [u8; 16] = decrypt_block(key, &inner);
        let opened: [u8; 16] = xor_block(&deciphered, &running);
        let ghost before = out@;
        append_block(&mut out, &opened);
        sum = xor_block(&sum, &opened);
        proof {
            assert(block@ == block_at(cipher@, i as int));
            assert(inner@ == masked(key@, nonce@, cipher@, i as int));
            assert(opened@ == opened_block(key@, nonce@, cipher@, i as int));
            lemma_block_of_plaintext(key@, nonce@, cipher@, i as int);
            assert forall|j: int| 0 <= j < 16 * (i + 1) implies out@[j] == opened_byte(
                key@,
                nonce@,
                cipher@,
                j,
            ) by {
                if j >= 16 * i {
                    assert(j / 16 == i as int && j % 16 == j - 16 * i);
                    assert(out@[j] == opened@[j - 16 * i]);
                } else {
                    assert(out@[j] == before[j]);
                }
            }
        }
        i += 1;
    }
    running = double_block(&running);
    let tail: usize = len - 16 * n;
    let mut coded: [u8; 16] = [0u8; 16];
    coded[15] = (8 * tail) as u8;
    assert(coded@ =~= length_block(tail as nat));
    let filler: [u8; 16] = encrypt_block(key, &xor_block(&coded, &running));
    assert(filler@ == pad(key@, nonce@, len as nat));
    let mut last: [u8; 16] = filler;
    let mut k: usize = 0;
    while k < tail
        invariant
            k <= tail <= 16,
            len == cipher@.len(),
            n == leading_blocks(len as nat),
            tail == len - 16 * n,
            filler@ == pad(key@, nonce@, len as nat),
            out@.len() == 16 * n + k,
            forall|j: int| 0 <= j < 16 * n + k ==> out@[j] == opened_byte(key@, nonce@, cipher@, j),
            forall|m: int|
                0 <= m < k ==> last@[m] == opened_byte(key@, nonce@, cipher@, 16 * n + m),
            forall|m: int| k <= m < 16 ==> last@[m] == filler@[m],
        decreases tail - k,
    {
        let byte: u8 = cipher[16 * n + k] ^ filler[k];
        let ghost before = out@;
        out.push(byte);
        last[k] = byte;
        proof {
            assert forall|j: int| 0 <= j < 16 * n + k + 1 implies out@[j] == opened_byte(
                key@,
                nonce@,
                cipher@,
                j,
            ) by {
                if j < 16 * n + k {
                    assert(out@[j] == before[j]);
                }
            }
        }
        k += 1;
    }
    assert(out@ =~= whole);
    assert(last@ =~= padded_tail(whole, filler@));
    sum = xor_block(&sum, &last);
    let mask: [u8; 16] = xor_block(&running, &double_block(&running));
    let tag: [u8; 16] = encrypt_block(key, &xor_block(&mask, &sum));
    (out, tag)
}

/// Whether two short tags are equal, found without leaving early at the
/// first byte that differs.
pub fn tags_match(a: &[u8; 3], b: &[u8; 3]) -> (same: bool)
    ensures
        same == (a@ == b@),
{
    let mut differing: u8 = 0;
    let mut i: usize = 0;
    while i < 3
        invariant
            i <= 3,
            differing == 0 <==> (forall|j: int| 0 <= j < i ==> a@[j] == b@[j]),
        decreases 3 - i,
    {
        let x: u8 = a[i];
        let y: u8 = b[i];
        let ghost before = differing;
        differing = differing | (x ^ y);
        proof {
            assert(((before | (x ^ y)) == 0u8) <==> (before == 0u8 && x == y)) by (bit_vector);
        }
        i += 1;
    }
    proof {
        if differing == 0 {
            assert(a@ =~= b@);
        }
    }
    differing == 0
}

/// The first three bytes of a tag.
pub fn shorten(tag: &[u8; 16]) -> (short: [u8; 3])
    ensures
        short@ == short_tag(tag@),
{
    let short: [u8; 3] = [tag[0], tag[1], tag[2]];
    assert(short@ =~= short_tag(tag@));
    short
}

/// Encrypts `plain` under `key` and `nonce` and returns the ciphertext with
/// its three-byte tag. The pair opens again to `plain`.
pub fn seal(key: &[u8; 16], nonce: &[u8; 16], plain: &[u8]) -> (out: (Vec<u8>, [u8; 3]))
    ensures
        out.0@ == ciphertext(key@, nonce@, plain@),
        out.1@ == short_tag(full_tag(key@, nonce@, plain@)),
        recoverable(key@, nonce@, plain@),
        opened(key@, nonce@, out.0@, out.1@) == Some(plain@),
{
    let (cipher, tag) = encrypt_with_tag(key, nonce, plain);
    proof {
        lemma_round_trip(key@, nonce@, plain@);
    }
    (cipher, shorten(&tag))
}

/// Decrypts `cipher` under `key` and `nonce` and returns the plaintext if
/// its recomputed tag agrees with `tag`.
pub fn open(key: &[u8; 16], nonce: &[u8; 16], cipher: &[u8], tag: &[u8; 3]) -> (out: Option<
    Vec<u8>,
>)
    ensures
        match opened(key@, nonce@, cipher@, tag@) {
            Some(plain) => out.is_some() && out.unwrap()@ == plain,
            None => out.is_none(),
        },
{
    let (plain, full) = decrypt_with_tag(key, nonce, cipher);
    let computed: [u8; 3] = shorten(&full);
    if tags_match(&computed, tag) {
        Some(plain)
    } else {
        None
    }
}

} // verus!
