//! Settings of the transport and the certificate of its server side.

use vstd::prelude::*;

verus! {

/// Settings of a connection.
#[derive(Clone, Copy, Debug, PartialEq, Eq, Structural)]
pub struct TransportSettings {
    /// Concurrent bidirectional streams that a peer may open; every piece in flight takes one.
    pub max_bidi_streams: u32,
    /// Seconds between signs of life, which keep address translation open.
    pub keep_alive_secs: u64,
    /// Milliseconds without activity after which a connection is closed.
    pub idle_timeout_ms: u32,
}

/// The settings of every connection.
pub fn default_transport_config() -> (s: TransportSettings)
    ensures
        s.max_bidi_streams == 256,
        s.keep_alive_secs == 10,
        s.idle_timeout_ms == 30_000,
{
    TransportSettings { max_bidi_streams: 256, keep_alive_secs: 10, idle_timeout_ms: 30_000 }
}

/// The name of the protocol in the TLS handshake: `bitturbulence/1`. Peers that do not speak it
/// are turned away.
pub const ALPN_BITTURBULENCE: [u8; 15] = [
    98, 105, 116, 116, 117, 114, 98, 117, 108, 101, 110, 99, 101, 47, 49,
];

/// The protocols offered in the TLS handshake: [`ALPN_BITTURBULENCE`] alone.
pub fn alpn_protocols() -> (protocols: Vec<Vec<u8>>)
    ensures
        protocols@.len() == 1,
        protocols@[0]@ == ALPN_BITTURBULENCE@,
{
    let name: [u8; 15] = ALPN_BITTURBULENCE;
    let mut bytes: Vec<u8> = Vec::new();
    let mut i: usize = 0;
    while i < 15
        invariant
            i <= 15,
            name == ALPN_BITTURBULENCE,
            bytes@ == name@.take(i as int),
        decreases 15 - i,
    {
        bytes.push(name[i]);
        i = i + 1;
        assert(bytes@ =~= name@.take(i as int));
    }
    assert(name@.take(15) =~= name@);
    let mut protocols: Vec<Vec<u8>> = Vec::new();
    protocols.push(bytes);
    protocols
}

/// A certificate and its private key, both in DER form, the key as PKCS#8.
#[derive(Debug)]
pub struct SelfSigned {
    pub cert_der: Vec<u8>,
    pub key_der: Vec<u8>,
}

/// Why the transport could not be set up.
#[derive(Debug)]
pub enum TransportError {
    /// No certificate could be generated, for the reason given.
    CertGen(String),
}

/// The names that a certificate is made out to: `bitturbulence` alone.
pub open spec fn is_cert_names(names: Seq<String>) -> bool {
    names.len() == 1 && names[0]@ == "bitturbulence"@
}

/// The entry of a certificate that lists `name`, of fewer than 128 ASCII characters, as a DNS
/// name: tag, length, characters.
pub open spec fn dns_entry(name: Seq<char>) -> Seq<u8> {
    seq![0x82u8, name.len() as u8] + name.map_values(|c: char| c as u8)
}

/// The bytes `part` stand in `bytes` from position `at` on.
pub open spec fn stands_at(bytes: Seq<u8>, part: Seq<u8>, at: int) -> bool {
    0 <= at && at + part.len() <= bytes.len() && bytes.subrange(at, at + part.len()) == part
}

/// The certificate `cert_der` lists `name` among the DNS names that it is made out to.
pub open spec fn lists_name(cert_der: Seq<u8>, name: Seq<char>) -> bool {
    exists|at: int| #[trigger] stands_at(cert_der, dns_entry(name), at)
}

/// The certificate `cert_der` is that of the private key `key_der`: it holds the public key, an
/// uncompressed point of the curve P-256 in 65 bytes, that the private key ends with.
pub open spec fn holds_key(cert_der: Seq<u8>, key_der: Seq<u8>) -> bool {
    &&& key_der.len() >= 65
    &&& exists|at: int| #[trigger]
        stands_at(cert_der, key_der.subrange(key_der.len() - 65, key_der.len() as int), at)
}

/// Calls `rcgen::generate_simple_self_signed`, and is called for the one name of this protocol
/// only. Taken on trust: a certificate that is made lists that name as a DNS name and holds the
/// public key of the private key that comes with it. Key and signature come from random numbers,
/// so nothing else is claimed of their bytes, nor that they can be made at all.
#[verifier::external_body]
fn self_signed(names: Vec<String>) -> (r: Result<SelfSigned, String>)
    requires
        is_cert_names(names@),
    ensures
        r matches Ok(made) ==> lists_name(made.cert_der@, names@[0]@),
        r matches Ok(made) ==> holds_key(made.cert_der@, made.key_der@),
{
    match rcgen::generate_simple_self_signed(names) {
        Ok(made) => Ok(
            SelfSigned {
                cert_der: made.cert.der().to_vec(),
                key_der: made.key_pair.serialize_der(),
            },
        ),
        Err(e) => Err(e.to_string()),
    }
}

/// What an attempt to generate a certificate comes to: what was generated, or the reason why
/// nothing was.
pub fn cert_outcome(attempt: Result<SelfSigned, String>) -> (r: Result<SelfSigned, TransportError>)
    ensures
        r == (match attempt {
            Ok(made) => Ok::<SelfSigned, TransportError>(made),
            Err(why) => Err(TransportError::CertGen(why)),
        }),
{
    match attempt {
        Ok(made) => Ok(made),
        Err(why) => Err(TransportError::CertGen(why)),
    }
}

/// Generates a self-signed certificate for a peer, in the name of `bitturbulence`, and its key.
///
/// It only serves to set up the encrypted channel: a peer's identity is not derived from it. Key
/// and signature are random; where none can be made, the error says why.
pub fn generate_self_signed_cert() -> (r: Result<SelfSigned, TransportError>)
    ensures
        r matches Ok(made) ==> lists_name(made.cert_der@, "bitturbulence"@),
        r matches Ok(made) ==> holds_key(made.cert_der@, made.key_der@),
        r matches Err(e) ==> e is CertGen,
{
    let mut names: Vec<String> = Vec::new();
    names.push("bitturbulence".to_owned());
    cert_outcome(self_signed(names))
}

} // verus!
