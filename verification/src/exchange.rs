//! What holds between a session that sends and a session that receives, of
//! every key, counter and message: a sealed packet opens again, a packet
//! that is turned away changes nothing, a packet does not pass twice, gaps
//! are counted, and a late packet within the window still passes.

use crate::crypt_state::{DecryptError, Session};
use crate::guard::{candidate, capped, standing, tallied, Stats, LATE_WINDOW};
use crate::nonce::{
    cyclic_distance, le_value, lemma_distance_of_step, lemma_shifted_low_byte,
    lemma_shifted_twice, lemma_shifted_value, lemma_shifted_zero, pow256, shifted,
};
use crate::ocb::{ciphertext, full_tag, lemma_round_trip, opened, short_tag};
use vstd::prelude::*;

verus! {

impl Session {
    /// The session after it has sent `count` packets.
    pub open spec fn after_sends(self, count: nat) -> Session
        decreases count,
    {
        if count == 0 {
            self
        } else {
            self.after_sends((count - 1) as nat).after_send()
        }
    }
}

/// Sending `count` packets moves the send counter `count` steps and leaves
/// the rest of the session alone.
pub proof fn lemma_after_sends(session: Session, count: nat)
    ensures
        session.after_sends(count) == (Session {
            encrypt_nonce: shifted(session.encrypt_nonce, count as int),
            ..session
        }),
    decreases count,
{
    if count == 0 {
        lemma_shifted_zero(session.encrypt_nonce);
    } else {
        lemma_after_sends(session, (count - 1) as nat);
        lemma_shifted_twice(session.encrypt_nonce, count - 1, 1);
    }
}

/// No counter is used twice: two packets of one session, fewer than `256^16`
/// packets apart, are sealed under different counters.
pub proof fn lemma_send_nonces_differ(session: Session, first: nat, second: nat)
    requires
        session.well_formed(),
        first < second < first + pow256(16),
    ensures
        session.after_sends(first).send_nonce() != session.after_sends(second).send_nonce(),
{
    let start = session.encrypt_nonce;
    let m = pow256(16) as int;
    let a = first as int + 1;
    let b = second as int + 1;
    lemma_after_sends(session, first);
    lemma_after_sends(session, second);
    lemma_shifted_twice(start, first as int, 1);
    lemma_shifted_twice(start, second as int, 1);
    lemma_shifted_value(start, a);
    lemma_shifted_value(start, b);
    if shifted(start, a) == shifted(start, b) {
        vstd::arithmetic::div_mod::lemma_mod_equivalence(
            le_value(start) + b,
            le_value(start) + a,
            m,
        );
        vstd::arithmetic::div_mod::lemma_small_mod((b - a) as nat, m as nat);
    }
}

/// The key is set once: neither sending nor receiving changes it.
pub proof fn lemma_key_never_changes(session: Session, packet: Seq<u8>)
    ensures
        session.after_send().key == session.key,
        session.receive(packet).0.key == session.key,
{
}

/// The heart of every exchange: a receiver whose counter stands `delta`
/// steps from the counter a packet was sealed under, with `delta` a distance
/// that the guard lets through, opens the packet, moves its counter onto the
/// sender's, and counts the packet by its standing.
pub proof fn lemma_delivery(sender: Session, receiver: Session, plain: Seq<u8>, delta: int)
    requires
        sender.well_formed(),
        receiver.well_formed(),
        sender.key == receiver.key,
        sender.send_nonce() == shifted(receiver.decrypt_nonce, delta),
        -LATE_WINDOW < delta <= 127,
        delta != 0,
        sender.sealed(plain),
    ensures
        receiver.receive(sender.packet(plain)) == (
            Session {
                decrypt_nonce: sender.send_nonce(),
                stats: tallied(receiver.stats, standing(delta)),
                ..receiver
            },
            Ok::<Seq<u8>, DecryptError>(plain),
        ),
{
    let nonce = sender.send_nonce();
    let packet = sender.packet(plain);
    let tag = short_tag(full_tag(sender.key, nonce, plain));
    let body = ciphertext(sender.key, nonce, plain);
    assert(packet.len() == 4 + plain.len());
    assert(packet[0] == nonce[0]);
    assert(packet.subrange(1, 4) =~= tag);
    assert(packet.subrange(4, packet.len() as int) =~= body);
    lemma_shifted_low_byte(receiver.decrypt_nonce, delta);
    lemma_distance_of_step(receiver.decrypt_nonce[0], delta);
    assert(candidate(receiver.decrypt_nonce, packet[0]) == nonce);
    lemma_round_trip(sender.key, nonce, plain);
    assert(opened(receiver.key, nonce, body, tag) == Some(plain));
}

/// Round trip: what one session seals, a session with the same key whose
/// receive counter equals the sender's send counter opens to the same
/// plaintext, and counts as a packet in order.
pub proof fn lemma_round_trip_between(sender: Session, receiver: Session, plain: Seq<u8>)
    requires
        sender.well_formed(),
        receiver.well_formed(),
        sender.key == receiver.key,
        sender.encrypt_nonce == receiver.decrypt_nonce,
        sender.sealed(plain),
    ensures
        receiver.receive(sender.packet(plain)) == (
            Session {
                decrypt_nonce: sender.after_send().encrypt_nonce,
                stats: Stats { good: capped(receiver.stats.good, 1), ..receiver.stats },
                ..receiver
            },
            Ok::<Seq<u8>, DecryptError>(plain),
        ),
{
    lemma_delivery(sender, receiver, plain, 1);
}

/// Every session that shares the sender's key, and whose receive counter
/// stands where the sender's send counter stands, opens the packet that
/// carries `plain` next to `plain` itself, and counts it as a packet in
/// order.
pub open spec fn peers_accept(sender: Session, plain: Seq<u8>) -> bool {
    forall|receiver: Session|
        receiver.well_formed() && receiver.key == sender.key && receiver.decrypt_nonce
            == sender.encrypt_nonce ==> #[trigger] receiver.receive(sender.packet(plain)) == (
            Session {
                decrypt_nonce: sender.send_nonce(),
                stats: Stats { good: capped(receiver.stats.good, 1), ..receiver.stats },
                ..receiver
            },
            Ok::<Seq<u8>, DecryptError>(plain),
        )
}

/// What a session has sealed, its peers accept.
pub proof fn lemma_peers_accept(sender: Session, plain: Seq<u8>)
    requires
        sender.well_formed(),
        sender.sealed(plain),
    ensures
        peers_accept(sender, plain),
{
    assert forall|receiver: Session|
        receiver.well_formed() && receiver.key == sender.key && receiver.decrypt_nonce
            == sender.encrypt_nonce implies #[trigger] receiver.receive(sender.packet(plain)) == (
        Session {
            decrypt_nonce: sender.send_nonce(),
            stats: Stats { good: capped(receiver.stats.good, 1), ..receiver.stats },
            ..receiver
        },
        Ok::<Seq<u8>, DecryptError>(plain),
    ) by {
        lemma_round_trip_between(sender, receiver, plain);
    }
}

/// A packet that is turned away, for whatever reason, leaves key, counters
/// and packet counts exactly as they were.
pub proof fn lemma_rejection_changes_nothing(receiver: Session, packet: Seq<u8>)
    ensures
        receiver.receive(packet).1 is Err ==> receiver.receive(packet).0 == receiver,
{
}

/// Nothing passes without its tag: a packet is accepted only if the three
/// tag bytes it carries are those of the plaintext handed out, under the key
/// and the counter that the session then moves to.
pub proof fn lemma_accepted_only_with_matching_tag(receiver: Session, packet: Seq<u8>)
    requires
        receiver.receive(packet).1 is Ok,
    ensures
        ({
            let (after, outcome) = receiver.receive(packet);
            let plain = outcome->Ok_0;
            &&& packet.len() >= 4
            &&& plain.len() == packet.len() - 4
            &&& packet.subrange(1, 4) == short_tag(
                full_tag(receiver.key, after.decrypt_nonce, plain),
            )
        }),
{
}

/// The three tag bytes that `packet` carries are those of what it decrypts
/// to under the counter that `receiver` would try it with.
pub open spec fn tag_fits(receiver: Session, packet: Seq<u8>) -> bool {
    opened(
        receiver.key,
        candidate(receiver.decrypt_nonce, packet[0]),
        packet.subrange(4, packet.len() as int),
        packet.subrange(1, 4),
    ) is Some
}

/// Tamper detection: a sealed packet that has been altered on its way,
/// keeping its length, is turned away and changes nothing, unless the three
/// tag bytes it now carries happen to fit what it now decrypts to. With its
/// first byte untouched it is turned away as forged; with another first byte
/// it may also count as a repeat or as too late.
pub proof fn lemma_tampering_detected(
    sender: Session,
    receiver: Session,
    plain: Seq<u8>,
    tampered: Seq<u8>,
)
    requires
        sender.well_formed(),
        receiver.well_formed(),
        sender.key == receiver.key,
        sender.encrypt_nonce == receiver.decrypt_nonce,
        tampered.len() == sender.packet(plain).len(),
        tampered != sender.packet(plain),
        !tag_fits(receiver, tampered),
    ensures
        receiver.receive(tampered).0 == receiver,
        receiver.receive(tampered).1 is Err,
        receiver.receive(tampered).1 != Err::<Seq<u8>, DecryptError>(DecryptError::Eof),
        tampered[0] == sender.packet(plain)[0] ==> receiver.receive(tampered).1 == Err::<
            Seq<u8>,
            DecryptError,
        >(DecryptError::Mac),
{
    let packet = sender.packet(plain);
    assert(packet.len() == 4 + plain.len());
    assert(packet[0] == sender.send_nonce()[0]);
    lemma_shifted_low_byte(receiver.decrypt_nonce, 1);
    lemma_distance_of_step(receiver.decrypt_nonce[0], 1);
}

/// Tamper detection on the tag: a sealed packet whose three tag bytes have
/// been altered in any way is turned away as forged by the receiver that
/// would have accepted it, and changes nothing.
pub proof fn lemma_forged_tag_rejected(
    sender: Session,
    receiver: Session,
    plain: Seq<u8>,
    forged: Seq<u8>,
)
    requires
        sender.well_formed(),
        receiver.well_formed(),
        sender.key == receiver.key,
        sender.encrypt_nonce == receiver.decrypt_nonce,
        sender.sealed(plain),
        forged.len() == sender.packet(plain).len(),
        forall|i: int|
            0 <= i < forged.len() && !(1 <= i <= 3) ==> forged[i] == sender.packet(plain)[i],
        exists|i: int| 1 <= i <= 3 && forged[i] != sender.packet(plain)[i],
    ensures
        receiver.receive(forged) == (receiver, Err::<Seq<u8>, DecryptError>(DecryptError::Mac)),
{
    let nonce = sender.send_nonce();
    let packet = sender.packet(plain);
    let tag = short_tag(full_tag(sender.key, nonce, plain));
    let body = ciphertext(sender.key, nonce, plain);
    assert(packet.len() == 4 + plain.len());
    assert(packet[0] == nonce[0]);
    assert(packet.subrange(1, 4) =~= tag);
    assert(forged.subrange(4, forged.len() as int) =~= body);
    lemma_shifted_low_byte(receiver.decrypt_nonce, 1);
    lemma_distance_of_step(receiver.decrypt_nonce[0], 1);
    lemma_round_trip(sender.key, nonce, plain);
    let i = choose|i: int| 1 <= i <= 3 && forged[i] != packet[i];
    assert(forged.subrange(1, 4)[i - 1] != tag[i - 1]);
}

/// Replay rejection: a packet that has just been accepted is turned away as
/// a repeat when it comes again, and changes nothing the second time.
pub proof fn lemma_replay_rejected(receiver: Session, packet: Seq<u8>)
    requires
        receiver.well_formed(),
        receiver.receive(packet).1 is Ok,
    ensures
        receiver.receive(packet).0.receive(packet) == (
            receiver.receive(packet).0,
            Err::<Seq<u8>, DecryptError>(DecryptError::Repeat),
        ),
{
    let delta = cyclic_distance(packet[0], receiver.decrypt_nonce[0]);
    let after = receiver.receive(packet).0;
    assert(after.decrypt_nonce == shifted(receiver.decrypt_nonce, delta));
    lemma_shifted_low_byte(receiver.decrypt_nonce, delta);
    let low = receiver.decrypt_nonce[0];
    // the accepted counter's low byte is the header byte
    assert((low + delta) % 256 == packet[0]) by {
        let forward = (packet[0] - low) % 256;
        vstd::arithmetic::div_mod::lemma_fundamental_div_mod(packet[0] - low, 256);
        if forward >= 128 {
            vstd::arithmetic::div_mod::lemma_mod_multiples_vanish(-1, low + forward, 256);
        }
        let q = (packet[0] - low) / 256;
        vstd::arithmetic::div_mod::lemma_mod_multiples_vanish(-q, packet[0] as int, 256);
        vstd::arithmetic::div_mod::lemma_small_mod(packet[0] as nat, 256);
    }
    lemma_distance_of_step(packet[0], 0);
    vstd::arithmetic::div_mod::lemma_small_mod(packet[0] as nat, 256);
}

/// The packet counts only ever grow.
pub proof fn lemma_counts_never_fall(receiver: Session, packet: Seq<u8>)
    ensures
        receiver.receive(packet).0.stats.good >= receiver.stats.good,
        receiver.receive(packet).0.stats.late >= receiver.stats.late,
        receiver.receive(packet).0.stats.lost >= receiver.stats.lost,
{
}

/// Loss accounting: of `count` packets sent in a row, with `count` no more
/// than 127, let only the last arrive. It is accepted, counts as one good
/// packet and adds `count - 1` to the packets lost.
pub proof fn lemma_loss_accounting(sender: Session, receiver: Session, count: nat, plain: Seq<u8>)
    requires
        sender.well_formed(),
        receiver.well_formed(),
        sender.key == receiver.key,
        sender.encrypt_nonce == receiver.decrypt_nonce,
        1 <= count <= 127,
        sender.after_sends((count - 1) as nat).sealed(plain),
    ensures
        receiver.receive(sender.after_sends((count - 1) as nat).packet(plain)) == (
            Session {
                decrypt_nonce: sender.after_sends(count).encrypt_nonce,
                stats: Stats {
                    good: capped(receiver.stats.good, 1),
                    late: receiver.stats.late,
                    lost: capped(receiver.stats.lost, count - 1),
                },
                ..receiver
            },
            Ok::<Seq<u8>, DecryptError>(plain),
        ),
{
    let last = sender.after_sends((count - 1) as nat);
    lemma_after_sends(sender, (count - 1) as nat);
    lemma_after_sends(sender, count);
    lemma_shifted_twice(sender.encrypt_nonce, count - 1, 1);
    lemma_shifted_value(sender.encrypt_nonce, count - 1);
    lemma_delivery(last, receiver, plain, count as int);
}

/// Reorder tolerance: of packets sent in a row, let a later one arrive
/// first and an earlier one, fewer than thirty places before it, arrive
/// next. Both are accepted; the earlier one counts as late and sets the
/// receive counter back onto itself.
pub proof fn lemma_reorder_tolerance(
    sender: Session,
    receiver: Session,
    earlier: nat,
    later: nat,
    plain_earlier: Seq<u8>,
    plain_later: Seq<u8>,
)
    requires
        sender.well_formed(),
        receiver.well_formed(),
        sender.key == receiver.key,
        sender.encrypt_nonce == receiver.decrypt_nonce,
        1 <= earlier < later <= 127,
        later - earlier < LATE_WINDOW,
        sender.after_sends((earlier - 1) as nat).sealed(plain_earlier),
        sender.after_sends((later - 1) as nat).sealed(plain_later),
    ensures
        ({
            let first = receiver.receive(
                sender.after_sends((later - 1) as nat).packet(plain_later),
            );
            let second = first.0.receive(
                sender.after_sends((earlier - 1) as nat).packet(plain_earlier),
            );
            &&& first.1 == Ok::<Seq<u8>, DecryptError>(plain_later)
            &&& first.0.stats == (Stats {
                good: capped(receiver.stats.good, 1),
                late: receiver.stats.late,
                lost: capped(receiver.stats.lost, later - 1),
            })
            &&& second.1 == Ok::<Seq<u8>, DecryptError>(plain_earlier)
            &&& second.0.stats == (Stats {
                good: capped(first.0.stats.good, 1),
                late: capped(first.0.stats.late, 1),
                lost: first.0.stats.lost,
            })
            &&& second.0.decrypt_nonce == sender.after_sends(earlier).encrypt_nonce
        }),
{
    lemma_loss_accounting(sender, receiver, later, plain_later);
    let first = receiver.receive(sender.after_sends((later - 1) as nat).packet(plain_later));
    let source = sender.after_sends((earlier - 1) as nat);
    lemma_after_sends(sender, (earlier - 1) as nat);
    lemma_after_sends(sender, earlier);
    lemma_after_sends(sender, later);
    lemma_shifted_twice(sender.encrypt_nonce, earlier - 1, 1);
    lemma_shifted_twice(sender.encrypt_nonce, later as int, earlier - later);
    lemma_shifted_value(sender.encrypt_nonce, later as int);
    lemma_shifted_value(sender.encrypt_nonce, earlier - 1);
    lemma_delivery(source, first.0, plain_earlier, earlier - later);
}

} // verus!
