//! Per-session authenticated encryption for a lossy, reordering datagram
//! transport: nonce counters, the block-cipher AEAD construction, and the
//! guard that tells in-order, late, skipped-ahead and replayed packets apart.
//!
//! [`CryptStateRef`] is the session as a host application holds it, with
//! keys, counters and packets as plain byte vectors. The state machine under
//! it is [`crypt_state::CryptState`].

use bytes::BytesMut;
use vstd::prelude::*;
use vstd::slice::slice_to_vec;

pub mod block;
pub mod buffer;
pub mod crypt_state;
pub mod exchange;
pub mod guard;
pub mod nonce;
pub mod ocb;
pub mod random;

use crate::buffer::{buffer_bytes, to_vec};
use crate::crypt_state::{CryptState, DecryptError, Session};
use crate::exchange::peers_accept;
use crate::guard::Stats;

verus! {

/// The number that stands for a reason across the host boundary.
pub open spec fn error_code(reason: DecryptError) -> u8 {
    match reason {
        DecryptError::Repeat => 1,
        DecryptError::Late => 2,
        DecryptError::Mac => 3,
        DecryptError::Eof => 4,
    }
}

/// The number that stands for an outcome across the host boundary: zero for
/// success, and the reason's own number otherwise.
pub open spec fn outcome_code(outcome: Result<(), DecryptError>) -> u8 {
    match outcome {
        Ok(_) => 0,
        Err(reason) => error_code(reason),
    }
}

impl From<DecryptError> for u8 {
    fn from(reason: DecryptError) -> (code: u8) {
        match reason {
            DecryptError::Repeat => 1,
            DecryptError::Late => 2,
            DecryptError::Mac => 3,
            DecryptError::Eof => 4,
        }
    }
}

impl vstd::std_specs::convert::FromSpecImpl<DecryptError> for u8 {
    open spec fn obeys_from_spec() -> bool {
        true
    }

    open spec fn from_spec(reason: DecryptError) -> u8 {
        error_code(reason)
    }
}

/// What came of opening one packet: the bytes left in the buffer, and the
/// outcome as a number.
pub struct DecryptResult {
    buffer: Vec<u8>,
    reason_raw: u8,
}

impl DecryptResult {
    /// The bytes that the result carries.
    pub closed spec fn bytes(&self) -> Seq<u8> {
        self.buffer@
    }

    /// The number of the outcome that the result carries.
    pub closed spec fn code(&self) -> u8 {
        self.reason_raw
    }

    /// Pairs the buffer that a packet was opened in with the outcome.
    pub fn new(buffer: Vec<u8>, result: Result<(), DecryptError>) -> (out: Self)
        ensures
            out.bytes() == buffer@,
            out.code() == outcome_code(result),
    {
        let reason_raw: u8 = match result {
            Ok(()) => 0,
            Err(reason) => u8::from(reason),
        };
        DecryptResult { buffer, reason_raw }
    }

    /// Whether the packet was accepted.
    pub fn is_success(&self) -> (out: bool)
        ensures
            out == (self.code() == 0),
    {
        self.reason_raw == 0
    }

    /// A copy of the bytes: the plaintext if the packet was accepted, and
    /// the packet as it came otherwise.
    pub fn data(&self) -> (out: Vec<u8>)
        ensures
            out@ == self.bytes(),
    {
        slice_to_vec(self.buffer.as_slice())
    }

    /// The outcome as a number: zero for success, one for a repeat, two for
    /// a packet too late, three for a forged one, four for one cut short.
    pub fn reason_raw_value(&self) -> (out: u8)
        ensures
            out == self.code(),
    {
        self.reason_raw
    }
}

/// Which of a session's three parts was given with the wrong length.
#[derive(Clone, Copy, Debug, PartialEq, Eq, Structural)]
pub enum Part {
    Key,
    EncryptNonce,
    DecryptNonce,
}

/// A key or counter was not sixteen bytes long.
#[derive(Clone, Copy, Debug, PartialEq, Eq, Structural)]
pub struct InvalidLength {
    /// The part that was refused.
    pub part: Part,
    /// The length that it came with.
    pub len: usize,
}

/// The first part, in the order key, send counter, receive counter, that is
/// not sixteen bytes long.
pub open spec fn first_invalid(
    key: Seq<u8>,
    encrypt_nonce: Seq<u8>,
    decrypt_nonce: Seq<u8>,
) -> Option<InvalidLength> {
    if key.len() != 16 {
        Some(InvalidLength { part: Part::Key, len: key.len() as usize })
    } else if encrypt_nonce.len() != 16 {
        Some(InvalidLength { part: Part::EncryptNonce, len: encrypt_nonce.len() as usize })
    } else if decrypt_nonce.len() != 16 {
        Some(InvalidLength { part: Part::DecryptNonce, len: decrypt_nonce.len() as usize })
    } else {
        None
    }
}

/// The bytes as a sixteen-byte array, if there are sixteen of them.
fn to_array(bytes: &Vec<u8>) -> (out: Option<[u8; 16]>)
    ensures
        bytes@.len() == 16 ==> out.is_some() && out.unwrap()@ == bytes@,
        bytes@.len() != 16 ==> out.is_none(),
{
    if bytes.len() != 16 {
        return None;
    }
    let mut array: [u8; 16] = [0u8; 16];
    let mut i: usize = 0;
    while i < 16
        invariant
            i <= 16,
            bytes@.len() == 16,
            forall|j: int| 0 <= j < i ==> array@[j] == bytes@[j],
        decreases 16 - i,
    {
        array[i] = bytes[i];
        i += 1;
    }
    assert(array@ =~= bytes@);
    Some(array)
}

/// A session as a host application holds it.
pub struct CryptStateRef(CryptState);

impl View for CryptStateRef {
    type V = Session;

    closed spec fn view(&self) -> Session {
        self.0@
    }
}

impl CryptStateRef {
    /// Every session is well formed.
    pub proof fn lemma_well_formed(&self)
        ensures
            self@.well_formed(),
    {
        self.0.lemma_well_formed();
    }

    /// A session with a fresh random key and fresh random counters, and with
    /// nothing counted yet.
    pub fn new() -> (out: Self)
        ensures
            out@.well_formed(),
            out@.stats == (Stats { good: 0, late: 0, lost: 0 }),
    {
        CryptStateRef(CryptState::generate_new())
    }

    /// A session with the given key and counters, and with nothing counted
    /// yet, if each of the three is sixteen bytes long. Otherwise no session
    /// is made, and the error names the first part that is not.
    pub fn new_from(key: Vec<u8>, encrypt_nonce: Vec<u8>, decrypt_nonce: Vec<u8>) -> (out: Result<
        Self,
        InvalidLength,
    >)
        ensures
            match first_invalid(key@, encrypt_nonce@, decrypt_nonce@) {
                Some(error) => out == Err::<Self, InvalidLength>(error),
                None => out is Ok && out.unwrap()@ == (Session {
                    key: key@,
                    encrypt_nonce: encrypt_nonce@,
                    decrypt_nonce: decrypt_nonce@,
                    stats: Stats { good: 0, late: 0, lost: 0 },
                }),
            },
    {
        let new_key: [u8; 16] = match to_array(&key) {
            Some(array) => array,
            None => {
                return Err(InvalidLength { part: Part::Key, len: key.len() });
            },
        };
        let new_encrypt_nonce: [u8; 16] = match to_array(&encrypt_nonce) {
            Some(array) => array,
            None => {
                return Err(InvalidLength { part: Part::EncryptNonce, len: encrypt_nonce.len() });
            },
        };
        let new_decrypt_nonce: [u8; 16] = match to_array(&decrypt_nonce) {
            Some(array) => array,
            None => {
                return Err(InvalidLength { part: Part::DecryptNonce, len: decrypt_nonce.len() });
            },
        };
        Ok(CryptStateRef(CryptState::new_from(new_key, new_encrypt_nonce, new_decrypt_nonce)))
    }

    /// A copy of the key.
    pub fn key(&self) -> (out: Vec<u8>)
        ensures
            out@ == self@.key,
    {
        let key: [u8; 16] = self.0.get_key();
        slice_to_vec(key.as_slice())
    }

    /// A copy of the counter that the last packet was sealed under.
    pub fn encrypt_nonce(&self) -> (out: Vec<u8>)
        ensures
            out@ == self@.encrypt_nonce,
    {
        let nonce: [u8; 16] = self.0.get_encrypt_nonce();
        slice_to_vec(nonce.as_slice())
    }

    /// A copy of the counter that the last accepted packet was opened under.
    pub fn decrypt_nonce(&self) -> (out: Vec<u8>)
        ensures
            out@ == self@.decrypt_nonce,
    {
        let nonce: [u8; 16] = self.0.get_decrypt_nonce();
        slice_to_vec(nonce.as_slice())
    }

    /// Replaces the receive counter if `nonce` is sixteen bytes long, and
    /// leaves the session as it is otherwise.
    pub fn set_decrypt_nonce(&mut self, nonce: Vec<u8>) -> (out: Result<(), InvalidLength>)
        ensures
            nonce@.len() == 16 ==> out is Ok && final(self)@ == (Session {
                decrypt_nonce: nonce@,
                ..old(self)@
            }),
            nonce@.len() != 16 ==> out == Err::<(), InvalidLength>(
                InvalidLength { part: Part::DecryptNonce, len: nonce@.len() as usize },
            ) && final(self)@ == old(self)@,
    {
        match to_array(&nonce) {
            Some(array) => {
                self.0.set_decrypt_nonce(&array);
                Ok(())
            },
            None => Err(InvalidLength { part: Part::DecryptNonce, len: nonce.len() }),
        }
    }

    /// The packet counts as they stand.
    pub fn stats(&self) -> (out: Stats)
        ensures
            out == self@.stats,
    {
        Stats { good: self.0.get_good(), late: self.0.get_late(), lost: self.0.get_lost() }
    }

    /// Seals `src` and returns the packet: the low byte of the send counter,
    /// three bytes of tag, and the ciphertext. The packet is one that every
    /// peer in step with this session accepts.
    pub fn encrypt(&mut self, src: Vec<u8>) -> (out: Vec<u8>)
        ensures
            out@ == old(self)@.packet(src@),
            final(self)@ == old(self)@.after_send(),
            old(self)@.sealed(src@),
            peers_accept(old(self)@, src@),
    {
        let ghost plain = src@;
        let mut buffer = BytesMut::new();
        self.0.encrypt(src, &mut buffer);
        assert(buffer_bytes(buffer) =~= old(self)@.packet(plain));
        to_vec(&buffer)
    }

    /// Opens the packet `encrypted` and returns the outcome, with the
    /// plaintext if the packet was accepted and with the packet as it came
    /// otherwise. Only an accepted packet changes the session.
    pub fn decrypt(&mut self, encrypted: Vec<u8>) -> (out: DecryptResult)
        ensures
            final(self)@ == old(self)@.receive(encrypted@).0,
            match old(self)@.receive(encrypted@).1 {
                Ok(plain) => out.code() == 0 && out.bytes() == plain,
                Err(reason) => out.code() == error_code(reason) && out.bytes() == encrypted@,
            },
    {
        let mut buffer = BytesMut::new();
        buffer.extend_from_slice(encrypted.as_slice());
        assert(buffer_bytes(buffer) =~= encrypted@);
        let result = self.0.decrypt(&mut buffer);
        DecryptResult::new(to_vec(&buffer), result)
    }
}

} // verus!
