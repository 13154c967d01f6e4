use bytes::BytesMut;
use rb_mumble_protocol::crypt_state::{CryptState, DecryptError, HEADER_SIZE};

const KEY: [u8; 16] = [0, 1, 2, 3, 4, 5, 6, 7, 8, 9, 10, 11, 12, 13, 14, 15];

const NONCE_A: [u8; 16] = [16, 17, 18, 19, 20, 21, 22, 23, 24, 25, 26, 27, 28, 29, 30, 31];

const NONCE_B: [u8; 16] = [0; 16];

#[test]
fn header_is_four_bytes() {
    assert_eq!(HEADER_SIZE, 4);
}

#[test]
fn state_keeps_what_it_was_given() {
    let s = CryptState::new_from(KEY, NONCE_A, NONCE_B);
    assert_eq!(s.get_key(), KEY);
    assert_eq!(s.get_encrypt_nonce(), NONCE_A);
    assert_eq!(s.get_decrypt_nonce(), NONCE_B);
    assert_eq!((s.get_good(), s.get_late(), s.get_lost()), (0, 0, 0));
}

#[test]
fn generated_states_start_with_nothing_counted() {
    let s = CryptState::generate_new();
    assert_eq!((s.get_good(), s.get_late(), s.get_lost()), (0, 0, 0));
}

#[test]
fn generated_states_differ() {
    let a = CryptState::generate_new();
    let b = CryptState::generate_new();
    assert_ne!(a.get_key(), b.get_key());
    assert_ne!(a.get_encrypt_nonce(), b.get_encrypt_nonce());
    assert_ne!(a.get_decrypt_nonce(), b.get_decrypt_nonce());
}

#[test]
fn state_set_decrypt_nonce() {
    let mut s = CryptState::new_from(KEY, NONCE_A, NONCE_B);
    s.set_decrypt_nonce(&NONCE_A);
    assert_eq!(s.get_decrypt_nonce(), NONCE_A);
    assert_eq!(s.get_encrypt_nonce(), NONCE_A);
    assert_eq!(s.get_key(), KEY);
}

#[test]
fn encrypt_appends_to_the_buffer() {
    let mut a = CryptState::new_from(KEY, NONCE_A, NONCE_B);
    let mut dst = BytesMut::new();
    dst.extend_from_slice(b"ab");
    a.encrypt(b"attack at dawn".to_vec(), &mut dst);
    assert_eq!(
        dst.to_vec(),
        vec![
            b'a', b'b', 0x11, 0x75, 0x23, 0x5f, 0xb7, 0x69, 0xec, 0x8d, 0x65, 0x88, 0x0e, 0x61,
            0x82, 0x1b, 0xd5, 0x2c, 0x8d, 0xdb
        ]
    );
}

#[test]
fn decrypt_replaces_the_packet_with_the_plaintext() {
    let mut a = CryptState::new_from(KEY, NONCE_A, NONCE_B);
    let mut b = CryptState::new_from(KEY, NONCE_B, NONCE_A);
    let mut buf = BytesMut::new();
    a.encrypt(b"attack at dawn".to_vec(), &mut buf);
    assert_eq!(b.decrypt(&mut buf), Ok(()));
    assert_eq!(buf.to_vec(), b"attack at dawn".to_vec());
    assert_eq!(b.get_decrypt_nonce(), a.get_encrypt_nonce());
    assert_eq!((b.get_good(), b.get_late(), b.get_lost()), (1, 0, 0));
}

#[test]
fn decrypt_leaves_a_rejected_packet_in_the_buffer() {
    let mut a = CryptState::new_from(KEY, NONCE_A, NONCE_B);
    let mut b = CryptState::new_from(KEY, NONCE_B, NONCE_A);
    let mut buf = BytesMut::new();
    a.encrypt(b"attack at dawn".to_vec(), &mut buf);
    let packet = buf.to_vec();

    let mut forged = BytesMut::new();
    forged.extend_from_slice(&packet);
    forged[10] ^= 0x04;
    let before = forged.to_vec();
    assert_eq!(b.decrypt(&mut forged), Err(DecryptError::Mac));
    assert_eq!(forged.to_vec(), before);

    let mut short = BytesMut::new();
    short.extend_from_slice(&packet[..3]);
    assert_eq!(b.decrypt(&mut short), Err(DecryptError::Eof));
    assert_eq!(short.to_vec(), packet[..3].to_vec());

    let mut empty = BytesMut::new();
    assert_eq!(b.decrypt(&mut empty), Err(DecryptError::Eof));
    assert_eq!(empty.len(), 0);

    assert_eq!(b.decrypt(&mut buf), Ok(()));
    let mut again = BytesMut::new();
    again.extend_from_slice(&packet);
    assert_eq!(b.decrypt(&mut again), Err(DecryptError::Repeat));
    assert_eq!(again.to_vec(), packet);

    let mut old = BytesMut::new();
    old.extend_from_slice(&packet);
    old[0] = 0x11u8.wrapping_sub(30);
    let before = old.to_vec();
    assert_eq!(b.decrypt(&mut old), Err(DecryptError::Late));
    assert_eq!(old.to_vec(), before);

    assert_eq!((b.get_good(), b.get_late(), b.get_lost()), (1, 0, 0));
    assert_eq!(b.get_decrypt_nonce(), a.get_encrypt_nonce());
}
