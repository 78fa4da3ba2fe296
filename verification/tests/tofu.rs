use bitturbulence::tofu::{fmt_fingerprint, violation_text, PeerAddr, TofuStore, TofuVerdict};
use bitturbulence::verify::hash_piece;

const ALICE: PeerAddr = PeerAddr::V4 { ip: 0x7f00_0001, port: 6881 };
const BOB: PeerAddr = PeerAddr::V6 { ip: 1, port: 6881, flowinfo: 0, scope_id: 0 };

#[test]
fn first_certificate_is_stored() {
    let mut store = TofuStore::new();
    assert_eq!(store.get(ALICE), None);
    assert!(matches!(store.verify_server_cert(ALICE, b"cert"), TofuVerdict::Stored));
    assert_eq!(store.get(ALICE), Some(hash_piece(b"cert")));
    assert_eq!(store.get(BOB), None);
}

#[test]
fn same_certificate_is_trusted_again() {
    let mut store = TofuStore::default();
    store.verify_server_cert(ALICE, b"cert");
    assert!(matches!(store.verify_server_cert(ALICE, b"cert"), TofuVerdict::Matched));
}

#[test]
fn changed_certificate_is_refused() {
    let mut store = TofuStore::new();
    store.verify_server_cert(ALICE, b"cert");
    for _ in 0..3 {
        match store.verify_server_cert(ALICE, b"other") {
            TofuVerdict::Changed { stored } => assert_eq!(stored, hash_piece(b"cert")),
            v => panic!("{:?}", v),
        }
    }
    assert_eq!(store.get(ALICE), Some(hash_piece(b"cert")));
    assert!(matches!(store.verify_server_cert(ALICE, b"cert"), TofuVerdict::Matched));
}

#[test]
fn peers_do_not_interfere() {
    let mut store = TofuStore::new();
    store.verify_server_cert(ALICE, b"a");
    assert!(matches!(store.verify_server_cert(BOB, b"b"), TofuVerdict::Stored));
    let other_port = PeerAddr::V4 { ip: 0x7f00_0001, port: 6882 };
    assert!(matches!(store.check(other_port, [7; 32]), TofuVerdict::Stored));
    let other_scope = PeerAddr::V6 { ip: 1, port: 6881, flowinfo: 0, scope_id: 2 };
    assert!(matches!(store.check(other_scope, [8; 32]), TofuVerdict::Stored));
    assert!(matches!(store.verify_server_cert(ALICE, b"a"), TofuVerdict::Matched));
    assert!(matches!(store.verify_server_cert(BOB, b"b"), TofuVerdict::Matched));
    assert_eq!(store.get(other_port), Some([7; 32]));
}

#[test]
fn fingerprint_in_hexadecimal() {
    let mut f = [0u8; 32];
    f[0] = 0x01;
    f[1] = 0xaf;
    f[30] = 0x90;
    f[31] = 0xff;
    let s = fmt_fingerprint(&f);
    assert_eq!(s.len(), 64);
    assert!(s.starts_with("01af00"));
    assert!(s.ends_with("0090ff"));
}

#[test]
fn all_digits_in_hexadecimal() {
    let mut f = [0u8; 32];
    for i in 0..16 {
        f[i] = (i * 17) as u8;
        f[16 + i] = (255 - i) as u8;
    }
    let expected: String = f.iter().map(|b| format!("{:02x}", b)).collect();
    assert_eq!(fmt_fingerprint(&f), expected);
}

#[test]
fn violation_names_the_peer() {
    assert_eq!(
        violation_text("127.0.0.1:6881"),
        "TOFU violation: cert fingerprint changed for 127.0.0.1:6881"
    );
}

#[test]
fn first_shown_is_stored_for_good() {
    let mut store = TofuStore::new();
    store.verify_server_cert(BOB, b"x");
    store.verify_server_cert(ALICE, b"first");
    store.verify_server_cert(ALICE, b"second");
    store.verify_server_cert(BOB, b"first");
    assert_eq!(store.get(ALICE), Some(hash_piece(b"first")));
    assert_eq!(store.get(BOB), Some(hash_piece(b"x")));
}
