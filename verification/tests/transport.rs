use bitturbulence::transport::{
    alpn_protocols, cert_outcome, default_transport_config, generate_self_signed_cert, SelfSigned,
    TransportError, ALPN_BITTURBULENCE,
};

#[test]
fn protocol_name() {
    assert_eq!(&ALPN_BITTURBULENCE, b"bitturbulence/1");
    assert_eq!(alpn_protocols(), vec![b"bitturbulence/1".to_vec()]);
}

#[test]
fn connection_settings() {
    let s = default_transport_config();
    assert_eq!(s.max_bidi_streams, 256);
    assert_eq!(s.keep_alive_secs, 10);
    assert_eq!(s.idle_timeout_ms, 30_000);
}

#[test]
fn certificate_names_the_protocol() {
    let made = generate_self_signed_cert().unwrap();
    // DER: a certificate is a SEQUENCE, and so is a PKCS#8 key.
    assert_eq!(made.cert_der[0], 0x30);
    assert_eq!(made.key_der[0], 0x30);
    let entry = b"\x82\x0dbitturbulence";
    assert!(made.cert_der.windows(entry.len()).any(|w| w == entry));
}

#[test]
fn certificate_holds_its_key() {
    let made = generate_self_signed_cert().unwrap();
    let other = generate_self_signed_cert().unwrap();
    let public = &made.key_der[made.key_der.len() - 65..];
    assert_eq!(public[0], 4);
    assert!(made.cert_der.windows(65).any(|w| w == public));
    assert!(!other.cert_der.windows(65).any(|w| w == public));
}

#[test]
fn certificates_differ() {
    let a = generate_self_signed_cert().unwrap();
    let b = generate_self_signed_cert().unwrap();
    assert_ne!(a.key_der, b.key_der);
    assert_ne!(a.cert_der, b.cert_der);
}

#[test]
fn failed_generation_keeps_its_reason() {
    match cert_outcome(Err("no randomness".to_string())) {
        Err(TransportError::CertGen(why)) => assert_eq!(why, "no randomness"),
        Ok(_) => panic!("made from nothing"),
    }
    let made = SelfSigned { cert_der: vec![1], key_der: vec![2] };
    let kept = cert_outcome(Ok(made)).unwrap();
    assert_eq!((kept.cert_der, kept.key_der), (vec![1], vec![2]));
}
