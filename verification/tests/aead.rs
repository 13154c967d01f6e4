use rb_mumble_protocol::ocb::{
    decrypt_with_tag, encrypt_with_tag, open, seal, shorten, tags_match, TAG_SIZE,
};

const KEY: [u8; 16] = [
    0x00, 0x01, 0x02, 0x03, 0x04, 0x05, 0x06, 0x07, 0x08, 0x09, 0x0a, 0x0b, 0x0c, 0x0d, 0x0e, 0x0f,
];

fn counting(len: usize) -> Vec<u8> {
    (0..len).map(|i| i as u8).collect()
}

fn unhex(text: &str) -> Vec<u8> {
    (0..text.len() / 2).map(|i| u8::from_str_radix(&text[2 * i..2 * i + 2], 16).unwrap()).collect()
}

fn check_vector(len: usize, cipher: &str, tag: &str) {
    let plain = counting(len);
    let (body, full) = encrypt_with_tag(&KEY, &KEY, &plain);
    assert_eq!(body, unhex(cipher));
    assert_eq!(full.to_vec(), unhex(tag));
    let (back, again) = decrypt_with_tag(&KEY, &KEY, &body);
    assert_eq!(back, plain);
    assert_eq!(again, full);
}

#[test]
fn tag_travels_as_three_bytes() {
    assert_eq!(TAG_SIZE, 3);
}

#[test]
fn vector_of_the_empty_message() {
    check_vector(0, "", "BF3108130773AD5EC70EC69E7875A7B0");
}

#[test]
fn vector_of_eight_bytes() {
    check_vector(8, "C636B3A868F429BB", "A45F5FDEA5C088D1D7C8BE37CABC8C5C");
}

#[test]
fn vector_of_one_block() {
    check_vector(16, "52E48F5D19FE2D9869F0C4A4B3D2BE57", "F7EE49AE7AA5B5E6645DB6B3966136F9");
}

#[test]
fn vector_of_a_block_and_a_half() {
    check_vector(
        24,
        "F75D6BC8B4DC8D66B836A2B08B32A636CC579E145D323BEB",
        "A1A50F822819D6E0A216784AC24AC84C",
    );
}

#[test]
fn vector_of_two_blocks() {
    check_vector(
        32,
        "F75D6BC8B4DC8D66B836A2B08B32A636CEC3C555037571709DA25E1BB0421A27",
        "09CA6C73F0B5C6C5FD587122D75F2AA3",
    );
}

#[test]
fn vector_of_two_blocks_and_a_half() {
    check_vector(
        40,
        "F75D6BC8B4DC8D66B836A2B08B32A6369F1CD3C5228D79FD6C267F5F6AA7B231C7DFB9D59951AE9C",
        "9DB0CDF880F73E3E10D4EB3217766688",
    );
}

#[test]
fn ciphertext_is_as_long_as_plaintext() {
    for len in 0..70usize {
        let (body, _) = seal(&KEY, &KEY, &counting(len));
        assert_eq!(body.len(), len);
    }
}

#[test]
fn seal_keeps_the_first_three_tag_bytes() {
    let (body, tag) = seal(&KEY, &KEY, &counting(40));
    assert_eq!(
        body,
        unhex("F75D6BC8B4DC8D66B836A2B08B32A6369F1CD3C5228D79FD6C267F5F6AA7B231C7DFB9D59951AE9C")
    );
    assert_eq!(tag, [0x9d, 0xb0, 0xcd]);
}

#[test]
fn open_gives_back_what_seal_took() {
    for len in [0usize, 1, 15, 16, 17, 31, 32, 33, 48, 100] {
        let plain = counting(len);
        let (body, tag) = seal(&KEY, &KEY, &plain);
        assert_eq!(open(&KEY, &KEY, &body, &tag), Some(plain));
    }
}

#[test]
fn open_refuses_a_wrong_tag() {
    let (body, tag) = seal(&KEY, &KEY, &counting(24));
    for i in 0..3 {
        let mut wrong = tag;
        wrong[i] ^= 0x01;
        assert_eq!(open(&KEY, &KEY, &body, &wrong), None);
    }
}

#[test]
fn open_refuses_an_altered_ciphertext() {
    let (body, tag) = seal(&KEY, &KEY, &counting(24));
    for i in 0..body.len() {
        let mut altered = body.clone();
        altered[i] ^= 0x80;
        assert_eq!(open(&KEY, &KEY, &altered, &tag), None);
    }
}

#[test]
fn open_refuses_another_nonce_or_key() {
    let (body, tag) = seal(&KEY, &KEY, &counting(24));
    let mut other = KEY;
    other[0] ^= 1;
    assert_eq!(open(&KEY, &other, &body, &tag), None);
    assert_eq!(open(&other, &KEY, &body, &tag), None);
}

#[test]
fn sealing_depends_on_the_nonce() {
    let mut other = KEY;
    other[0] = 1;
    let (a, _) = seal(&KEY, &KEY, &counting(8));
    let (b, _) = seal(&KEY, &other, &counting(8));
    assert_ne!(a, b);
}

#[test]
fn tags_match_only_when_all_bytes_agree() {
    assert!(tags_match(&[1, 2, 3], &[1, 2, 3]));
    assert!(!tags_match(&[1, 2, 3], &[0, 2, 3]));
    assert!(!tags_match(&[1, 2, 3], &[1, 0, 3]));
    assert!(!tags_match(&[1, 2, 3], &[1, 2, 0]));
    assert!(!tags_match(&[0, 0, 0], &[0x80, 0x80, 0x80]));
    assert!(tags_match(&[0, 0, 0], &[0, 0, 0]));
}

#[test]
fn shorten_takes_the_first_three_bytes() {
    let tag: [u8; 16] = [9, 8, 7, 6, 5, 4, 3, 2, 1, 0, 1, 2, 3, 4, 5, 6];
    assert_eq!(shorten(&tag), [9, 8, 7]);
}
