//! The session: one secret key, a counter for each direction and the packet
//! counts, with the two operations that turn plaintext into packets and
//! packets back into plaintext.
//!
//! A packet is one byte of the sender's counter, three bytes of tag, and a
//! ciphertext as long as the plaintext.

use crate::buffer::{buffer_bytes, to_vec};
use crate::exchange::{lemma_peers_accept, peers_accept};
use crate::guard::{candidate, propose, standing, tallied, tally, Standing, Stats};
use crate::nonce::{cyclic_distance, increment, shifted};
use crate::ocb::{ciphertext, full_tag, open, opened, recoverable, seal, short_tag};
use crate::random::random_block;
use bytes::BytesMut;
use vstd::prelude::*;
use vstd::slice::slice_subrange;

verus! {

/// Bytes a packet carries before its ciphertext: the counter byte and the
/// tag.
pub const HEADER_SIZE: usize = 4;

/// Why a packet was not accepted.
#[derive(Clone, Copy, Debug, PartialEq, Eq, Structural)]
pub enum DecryptError {
    /// The packet repeats the one consumed last.
    Repeat,
    /// The packet lies too far behind the counter to be tried.
    Late,
    /// The tag does not belong to the ciphertext.
    Mac,
    /// The packet is shorter than a header.
    Eof,
}

/// What a session is, as the contracts speak of it.
pub struct Session {
    pub key: Seq<u8>,
    pub encrypt_nonce: Seq<u8>,
    pub decrypt_nonce: Seq<u8>,
    pub stats: Stats,
}

impl Session {
    /// Key and counters are sixteen bytes each.
    pub open spec fn well_formed(self) -> bool {
        self.key.len() == 16 && self.encrypt_nonce.len() == 16 && self.decrypt_nonce.len() == 16
    }

    /// The counter that the next packet is sealed under.
    pub open spec fn send_nonce(self) -> Seq<u8> {
        shifted(self.encrypt_nonce, 1)
    }

    /// The packet that carries `plain` next.
    pub open spec fn packet(self, plain: Seq<u8>) -> Seq<u8> {
        let nonce = self.send_nonce();
        seq![nonce[0]] + short_tag(full_tag(self.key, nonce, plain)) + ciphertext(
            self.key,
            nonce,
            plain,
        )
    }

    /// The session after it has sent a packet.
    pub open spec fn after_send(self) -> Session {
        Session { encrypt_nonce: self.send_nonce(), ..self }
    }

    /// Holds of every plaintext that the session has sealed: the cipher
    /// brings back each block that it enciphered on the way.
    pub open spec fn sealed(self, plain: Seq<u8>) -> bool {
        recoverable(self.key, self.send_nonce(), plain)
    }

    /// The session after `packet` has come in, and the plaintext or the
    /// reason for turning the packet away. A packet that is turned away
    /// leaves the session as it was.
    pub open spec fn receive(self, packet: Seq<u8>) -> (Session, Result<Seq<u8>, DecryptError>) {
        if packet.len() < HEADER_SIZE {
            (self, Err(DecryptError::Eof))
        } else {
            let verdict = standing(cyclic_distance(packet[0], self.decrypt_nonce[0]));
            if verdict == Standing::Repeat {
                (self, Err(DecryptError::Repeat))
            } else if verdict == Standing::Stale {
                (self, Err(DecryptError::Late))
            } else {
                let nonce = candidate(self.decrypt_nonce, packet[0]);
                let body = packet.subrange(HEADER_SIZE as int, packet.len() as int);
                match opened(self.key, nonce, body, packet.subrange(1, HEADER_SIZE as int)) {
                    None => (self, Err(DecryptError::Mac)),
                    Some(plain) => (
                        Session {
                            decrypt_nonce: nonce,
                            stats: tallied(self.stats, verdict),
                            ..self
                        },
                        Ok(plain),
                    ),
                }
            }
        }
    }
}

/// The state of one session.
pub struct CryptState {
    key: [u8; 16],
    encrypt_nonce: [u8; 16],
    decrypt_nonce: [u8; 16],
    stats: Stats,
}

impl View for CryptState {
    type V = Session;

    closed spec fn view(&self) -> Session {
        Session {
            key: self.key@,
            encrypt_nonce: self.encrypt_nonce@,
            decrypt_nonce: self.decrypt_nonce@,
            stats: self.stats,
        }
    }
}

impl CryptState {
    /// Every state is well formed: the arrays have no other length.
    pub proof fn lemma_well_formed(&self)
        ensures
            self@.well_formed(),
    {
    }

    /// A session with a fresh random key and fresh random counters, and with
    /// nothing counted yet.
    pub fn generate_new() -> (out: Self)
        ensures
            out@.well_formed(),
            out@.stats == (Stats { good: 0, late: 0, lost: 0 }),
    {
        let key: [u8; 16] = random_block();
        let encrypt_nonce: [u8; 16] = random_block();
        let decrypt_nonce: [u8; 16] = random_block();
        Self::new_from(key, encrypt_nonce, decrypt_nonce)
    }

    /// A session with the given key and counters, and with nothing counted
    /// yet.
    pub fn new_from(key: [u8; 16], encrypt_nonce: [u8; 16], decrypt_nonce: [u8; 16]) -> (out: Self)
        ensures
            out@ == (Session {
                key: key@,
                encrypt_nonce: encrypt_nonce@,
                decrypt_nonce: decrypt_nonce@,
                stats: Stats { good: 0, late: 0, lost: 0 },
            }),
    {
        CryptState { key, encrypt_nonce, decrypt_nonce, stats: Stats { good: 0, late: 0, lost: 0 } }
    }

    /// A copy of the key.
    pub fn get_key(&self) -> (out: [u8; 16])
        ensures
            out@ == self@.key,
    {
        self.key
    }

    /// A copy of the counter that the last packet was sealed under.
    pub fn get_encrypt_nonce(&self) -> (out: [u8; 16])
        ensures
            out@ == self@.encrypt_nonce,
    {
        self.encrypt_nonce
    }

    /// A copy of the counter that the last accepted packet was opened under.
    pub fn get_decrypt_nonce(&self) -> (out: [u8; 16])
        ensures
            out@ == self@.decrypt_nonce,
    {
        self.decrypt_nonce
    }

    /// Replaces the receive counter, as when the peer has sent a new one to
    /// resynchronize.
    pub fn set_decrypt_nonce(&mut self, nonce: &[u8; 16])
        ensures
            final(self)@ == (Session { decrypt_nonce: nonce@, ..old(self)@ }),
    {
        self.decrypt_nonce = *nonce;
    }

    /// Packets authenticated so far.
    pub fn get_good(&self) -> (out: u32)
        ensures
            out == self@.stats.good,
    {
        self.stats.good
    }

    /// Packets accepted although they came late.
    pub fn get_late(&self) -> (out: u32)
        ensures
            out == self@.stats.late,
    {
        self.stats.late
    }

    /// Packets inferred lost from gaps in the sequence.
    pub fn get_lost(&self) -> (out: u32)
        ensures
            out == self@.stats.lost,
    {
        self.stats.lost
    }

    /// Seals `src` into a packet and appends the packet to `dst`. The send
    /// counter moves one step first, so no two packets share a counter. The
    /// packet is one that every peer in step with this session accepts.
    pub fn encrypt(&mut self, src: Vec<u8>, dst: &mut BytesMut)
        ensures
            final(self)@ == old(self)@.after_send(),
            buffer_bytes(*final(dst)) == buffer_bytes(*old(dst)) + old(self)@.packet(src@),
            old(self)@.sealed(src@),
            peers_accept(old(self)@, src@),
    {
        increment(&mut self.encrypt_nonce);
        let (body, tag) = seal(&self.key, &self.encrypt_nonce, src.as_slice());
        let mut packet: Vec<u8> = Vec::new();
        packet.push(self.encrypt_nonce[0]);
        packet.push(tag[0]);
        packet.push(tag[1]);
        packet.push(tag[2]);
        let mut body = body;
        packet.append(&mut body);
        assert(packet@ =~= old(self)@.packet(src@));
        proof {
            lemma_peers_accept(old(self)@, src@);
        }
        dst.extend_from_slice(packet.as_slice());
    }

    /// Opens the packet in `buf`. On success `buf` holds the plaintext, the
    /// receive counter stands where the packet's sender stood, and the
    /// packet is counted. A packet that is turned away leaves both the
    /// session and `buf` exactly as they were.
    pub fn decrypt(&mut self, buf: &mut BytesMut) -> (result: Result<(), DecryptError>)
        ensures
            final(self)@ == old(self)@.receive(buffer_bytes(*old(buf))).0,
            match old(self)@.receive(buffer_bytes(*old(buf))).1 {
                Ok(plain) => result is Ok && buffer_bytes(*final(buf)) == plain,
                Err(reason) => result == Err::<(), DecryptError>(reason) && *final(buf) == *old(
                    buf,
                ),
            },
    {
        let packet: Vec<u8> = to_vec(buf);
        if packet.len() < HEADER_SIZE {
            return Err(DecryptError::Eof);
        }
        let header: u8 = packet[0];
        let (verdict, nonce) = propose(&self.decrypt_nonce, header);
        match verdict {
            Standing::Repeat => {
                return Err(DecryptError::Repeat);
            },
            Standing::Stale => {
                return Err(DecryptError::Late);
            },
            _ => {},
        }
        let tag: [u8; 3] = [packet[1], packet[2], packet[3]];
        assert(tag@ =~= packet@.subrange(1, HEADER_SIZE as int));
        let body = slice_subrange(packet.as_slice(), HEADER_SIZE, packet.len());
        match open(&self.key, &nonce, body, &tag) {
            None => Err(DecryptError::Mac),
            Some(plain) => {
                self.decrypt_nonce = nonce;
                self.stats = tally(self.stats, verdict);
                buf.clear();
                buf.extend_from_slice(plain.as_slice());
                Ok(())
            },
        }
    }
}

} // verus!
