use bitturbulence::verify::{hash_piece, same_digest, verify_piece};

#[test]
fn verify_correct() {
    let data = b"hello piece";
    let hash = hash_piece(data);
    assert!(verify_piece(data, &hash));
}

#[test]
fn verify_wrong() {
    let data = b"hello piece";
    assert!(!verify_piece(data, &[0u8; 32]));
}

#[test]
fn hash_is_32_bytes() {
    let h = hash_piece(b"test");
    assert_eq!(h.len(), 32);
}

#[test]
fn digest_of_abc() {
    let expected: [u8; 32] = [
        0xba, 0x78, 0x16, 0xbf, 0x8f, 0x01, 0xcf, 0xea, 0x41, 0x41, 0x40, 0xde, 0x5d, 0xae, 0x22,
        0x23, 0xb0, 0x03, 0x61, 0xa3, 0x96, 0x17, 0x7a, 0x9c, 0xb4, 0x10, 0xff, 0x61, 0xf2, 0x00,
        0x15, 0xad,
    ];
    assert_eq!(hash_piece(b"abc"), expected);
    assert!(verify_piece(b"abc", &expected));
    assert!(!verify_piece(b"abd", &expected));
}

#[test]
fn digest_of_nothing() {
    assert_eq!(hash_piece(b"")[0], 0xe3);
    assert_eq!(hash_piece(b"")[31], 0x55);
}

#[test]
fn one_wrong_byte_is_enough() {
    let mut hash = hash_piece(b"piece");
    hash[31] ^= 1;
    assert!(!verify_piece(b"piece", &hash));
    assert!(same_digest(&hash, &hash));
    assert!(!same_digest(&hash, &hash_piece(b"piece")));
}
