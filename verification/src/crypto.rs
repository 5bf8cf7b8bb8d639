//! QUIC packet protection keys.
//!
//! The keys are those of rustls, which derives them and runs the ciphers. A
//! [`DirectionalKeys`] is opaque to the proofs: [`key_material`] names what it
//! holds, and the ciphers are named as functions of that. Two ends that hold
//! the same material can read each other's packets.

use rustls::crypto::ring;
use rustls::quic::{self, DirectionalKeys, Keys};
use rustls::Side as TlsSide;
use rustls::SupportedCipherSuite;
use vstd::prelude::*;

verus! {

/// Errors from key initialization.
#[derive(Debug, Clone, Copy, PartialEq, Eq)]
pub enum CryptoError {
    /// No QUIC-capable TLS 1.3 cipher suite was found.
    NoQuicSuite,
    /// The ring crypto provider could not be installed.
    ProviderInstall,
}

// ---------------------------------------------------------------------------
// The keys of rustls
// ---------------------------------------------------------------------------

#[verifier::external_type_specification]
#[verifier::external_body]
pub struct ExDirectionalKeys(DirectionalKeys);

#[verifier::external_type_specification]
pub struct ExKeys(Keys);

#[verifier::external_type_specification]
#[verifier::external_body]
pub struct ExRustlsError(rustls::Error);

#[verifier::external_type_specification]
pub struct ExTlsSide(TlsSide);

/// What the keys of one direction hold: the algorithms, the header protection
/// key, and the packet key with its IV.
pub uninterp spec fn key_material(keys: &DirectionalKeys) -> Seq<u8>;

/// How many bytes of ciphertext header protection samples.
pub uninterp spec fn hp_sample_len(material: Seq<u8>) -> usize;

/// How many bytes the authentication tag takes.
pub uninterp spec fn aead_tag_len(material: Seq<u8>) -> usize;

/// The five mask bytes that header protection draws from a sample.
pub uninterp spec fn hp_mask(material: Seq<u8>, sample: Seq<u8>) -> Seq<u8>;

/// The ciphertext and tag of a payload, or `None` where the payload is longer
/// than the cipher allows.
pub uninterp spec fn aead_seal(
    material: Seq<u8>,
    pn: u64,
    header: Seq<u8>,
    payload: Seq<u8>,
) -> Option<Seq<u8>>;

/// The payload that a ciphertext and tag authenticate, or `None` where they
/// authenticate nothing.
pub uninterp spec fn aead_open(
    material: Seq<u8>,
    pn: u64,
    header: Seq<u8>,
    sealed: Seq<u8>,
) -> Option<Seq<u8>>;

/// `HeaderProtectionKey::sample_len`: a property of the keys.
#[verifier::external_body]
pub(crate) fn sample_len(keys: &DirectionalKeys) -> (n: usize)
    ensures
        n == hp_sample_len(key_material(keys)),
{
    keys.header.sample_len()
}

/// `PacketKey::tag_len`: a property of the keys.
#[verifier::external_body]
pub(crate) fn tag_len(keys: &DirectionalKeys) -> (n: usize)
    ensures
        n == aead_tag_len(key_material(keys)),
{
    keys.packet.tag_len()
}

/// The bits of a first byte that header protection masks: four of a long
/// header, five of a short one.
pub open spec fn hp_bits(first: u8) -> u8 {
    if first >= 0x80 {
        0x0f
    } else {
        0x1f
    }
}

/// A first byte with the mask applied to it.
pub open spec fn masked_first(first: u8, mask: Seq<u8>) -> u8 {
    first ^ (mask[0] & hp_bits(first))
}

/// A packet number field with the mask applied to its first `n` bytes.
pub open spec fn masked_pn(pn: Seq<u8>, mask: Seq<u8>, n: int) -> Seq<u8> {
    Seq::new(
        pn.len(),
        |i: int|
            if i < n {
                pn[i] ^ mask[1 + i]
            } else {
                pn[i]
            },
    )
}

/// `HeaderProtectionKey::encrypt_in_place`: applies the mask of the sample to
/// the first byte and to as many packet number bytes as the two low bits of
/// the unmasked first byte say, plus one. Fails, and changes nothing, where the
/// sample has not the right length or the packet number more than four bytes.
#[verifier::external_body]
pub(crate) fn protect_header(
    keys: &DirectionalKeys,
    sample: &[u8],
    first: &mut u8,
    pn: &mut [u8],
) -> (r: Result<(), rustls::Error>)
    ensures
        r is Ok <==> sample@.len() == hp_sample_len(key_material(keys)) && old(pn)@.len() <= 4,
        r is Ok ==> {
            let mask = hp_mask(key_material(keys), sample@);
            &&& mask.len() == 5
            &&& *final(first) == masked_first(*old(first), mask)
            &&& final(pn)@ == masked_pn(old(pn)@, mask, *old(first) % 4 + 1)
        },
        r is Err ==> *final(first) == *old(first) && final(pn)@ == old(pn)@,
{
    keys.header.encrypt_in_place(sample, first, pn)
}

/// `HeaderProtectionKey::decrypt_in_place`: applies the mask of the sample to
/// the first byte and to as many packet number bytes as the two low bits of
/// the first byte then say, plus one. Fails, and changes nothing, where the
/// sample has not the right length or the packet number more than four bytes.
#[verifier::external_body]
pub(crate) fn unprotect_header(
    keys: &DirectionalKeys,
    sample: &[u8],
    first: &mut u8,
    pn: &mut [u8],
) -> (r: Result<(), rustls::Error>)
    ensures
        r is Ok <==> sample@.len() == hp_sample_len(key_material(keys)) && old(pn)@.len() <= 4,
        r is Ok ==> {
            let mask = hp_mask(key_material(keys), sample@);
            &&& mask.len() == 5
            &&& *final(first) == masked_first(*old(first), mask)
            &&& final(pn)@ == masked_pn(old(pn)@, mask, *final(first) % 4 + 1)
        },
        r is Err ==> *final(first) == *old(first) && final(pn)@ == old(pn)@,
{
    keys.header.decrypt_in_place(sample, first, pn)
}

/// `PacketKey::encrypt_in_place`: turns the payload into ciphertext of the same
/// length and returns the tag, always 16 bytes. Opening the two with the same
/// material, packet number and header gives the payload back.
#[verifier::external_body]
pub(crate) fn seal(
    keys: &DirectionalKeys,
    pn: u64,
    header: &[u8],
    payload: &mut [u8],
) -> (r: Result<Vec<u8>, rustls::Error>)
    ensures
        r is Ok <==> aead_seal(key_material(keys), pn, header@, old(payload)@) is Some,
        r matches Ok(tag) ==> {
            &&& final(payload)@.len() == old(payload)@.len()
            &&& tag@.len() == 16
            &&& aead_seal(key_material(keys), pn, header@, old(payload)@) == Some(
                final(payload)@ + tag@,
            )
            &&& aead_open(key_material(keys), pn, header@, final(payload)@ + tag@) == Some(
                old(payload)@,
            )
        },
{
    let tag = keys.packet.encrypt_in_place(pn, header, payload)?;
    Ok(tag.as_ref().to_vec())
}

/// `PacketKey::decrypt_in_place`: the payload that ciphertext and tag
/// authenticate under the given packet number and header.
#[verifier::external_body]
pub(crate) fn open(
    keys: &DirectionalKeys,
    pn: u64,
    header: &[u8],
    sealed: &mut [u8],
) -> (r: Result<Vec<u8>, rustls::Error>)
    ensures
        r is Ok <==> aead_open(key_material(keys), pn, header@, old(sealed)@) is Some,
        r matches Ok(p) ==> aead_open(key_material(keys), pn, header@, old(sealed)@) == Some(p@),
{
    let plaintext = keys.packet.decrypt_in_place(pn, header, sealed)?;
    Ok(plaintext.to_vec())
}

// ---------------------------------------------------------------------------
// Initial keys
// ---------------------------------------------------------------------------

/// The material that protects Initial packets from the client, or from the
/// server, of a connection whose client first chose `dst_cid` as Destination
/// Connection ID, under the cipher suite at position `suite` of the ring
/// provider's list.
pub uninterp spec fn initial_material(suite: usize, dst_cid: Seq<u8>, from_client: bool) -> Seq<u8>;

/// `ring::DEFAULT_CIPHER_SUITES`: how many cipher suites the list holds.
#[verifier::external_body]
fn suite_count() -> (n: usize)
    ensures
        n == 3,
{
    ring::DEFAULT_CIPHER_SUITES.len()
}

/// `Tls13CipherSuite::quic`: whether a suite of the list supports QUIC. Each of
/// them does.
#[verifier::external_body]
fn suite_has_quic(suite: usize) -> (quic: bool)
    requires
        suite < 3,
    ensures
        quic,
{
    let SupportedCipherSuite::Tls13(tls13) = &ring::DEFAULT_CIPHER_SUITES[suite];
    tls13.quic.is_some()
}

/// `Keys::initial`, for QUIC version 1 and a suite of the list: each side sends
/// with its own material and receives with the other's. Every suite of the
/// list samples 16 bytes and has a tag of 16 bytes.
#[verifier::external_body]
fn suite_initial_keys(suite: usize, dst_cid: &[u8], side: TlsSide) -> (keys: Keys)
    requires
        suite < 3,
    ensures
        key_material(&keys.local) == initial_material(suite, dst_cid@, side is Client),
        key_material(&keys.remote) == initial_material(suite, dst_cid@, side is Server),
        hp_sample_len(key_material(&keys.local)) == 16,
        hp_sample_len(key_material(&keys.remote)) == 16,
        aead_tag_len(key_material(&keys.local)) == 16,
        aead_tag_len(key_material(&keys.remote)) == 16,
{
    let SupportedCipherSuite::Tls13(tls13) = &ring::DEFAULT_CIPHER_SUITES[suite];
    Keys::initial(quic::Version::V1, tls13, tls13.quic.unwrap(), dst_cid, side)
}

/// `CryptoProvider::install_default` with ring's provider: whether it became
/// the process's default, which depends on what the process installed before.
#[verifier::external_body]
fn install_ring() -> (installed: bool) {
    ring::default_provider().install_default().is_ok()
}

/// What [`install_provider`] reports, by whether the provider was installed.
pub fn install_outcome(installed: bool) -> (r: Result<(), CryptoError>)
    ensures
        r == if installed {
            Ok::<(), CryptoError>(())
        } else {
            Err(CryptoError::ProviderInstall)
        },
{
    if installed {
        Ok(())
    } else {
        Err(CryptoError::ProviderInstall)
    }
}

/// Install the ring crypto provider as the default.
/// Must be called once before any TLS operations.
pub fn install_provider() -> (r: Result<(), CryptoError>)
    ensures
        r matches Err(e) ==> e == CryptoError::ProviderInstall,
{
    install_outcome(install_ring())
}

/// The position of the first TLS 1.3 cipher suite with QUIC support in the
/// ring provider's list.
pub fn default_quic_suite() -> (r: Result<usize, CryptoError>)
    ensures
        r == Ok::<usize, CryptoError>(0),
{
    let n: usize = suite_count();
    let mut i: usize = 0;
    while i < n
        invariant
            i == 0,
            n == 3,
        decreases n - i,
    {
        if suite_has_quic(i) {
            return Ok(i);
        }
        i += 1;
    }
    Err(CryptoError::NoQuicSuite)
}

/// `getrandom::getrandom`: fills the buffer with random bytes, where the
/// machine has any to give. A buffer of no bytes takes none and is always
/// filled. Nothing is promised of what the bytes are.
#[verifier::external_body]
fn fill_random(buf: &mut [u8]) -> (filled: bool)
    ensures
        final(buf)@.len() == old(buf)@.len(),
        old(buf)@.len() == 0 ==> filled,
{
    getrandom::getrandom(buf).is_ok()
}

/// What [`random_bytes`] gives, by whether the buffer was filled.
pub fn drawn_bytes(filled: bool, buf: Vec<u8>) -> (r: Option<Vec<u8>>)
    ensures
        r == if filled {
            Some(buf)
        } else {
            None
        },
{
    if filled {
        Some(buf)
    } else {
        None
    }
}

/// Cryptographically random bytes, or `None` where the machine has none to
/// give. No bytes can always be had.
pub fn random_bytes(len: usize) -> (r: Option<Vec<u8>>)
    ensures
        r matches Some(bytes) ==> bytes@.len() == len,
        len == 0 ==> r is Some,
{
    let mut buf: Vec<u8> = vec![0u8; len];
    let filled: bool = fill_random(buf.as_mut_slice());
    drawn_bytes(filled, buf)
}

/// Whether `keys` are the Initial keys of the client, or of the server, of a
/// connection whose client first chose `dst_cid` as Destination Connection ID.
pub open spec fn are_initial_keys(keys: Keys, dst_cid: Seq<u8>, client: bool) -> bool {
    &&& key_material(&keys.local) == initial_material(0, dst_cid, client)
    &&& key_material(&keys.remote) == initial_material(0, dst_cid, !client)
    &&& hp_sample_len(key_material(&keys.local)) == 16
    &&& hp_sample_len(key_material(&keys.remote)) == 16
    &&& aead_tag_len(key_material(&keys.local)) == 16
    &&& aead_tag_len(key_material(&keys.remote)) == 16
}

/// Generate Initial packet keys for a client.
///
/// `dst_cid` is the Destination Connection ID the client chose for its
/// first Initial packet.
pub fn client_initial_keys(dst_cid: &[u8]) -> (r: Result<Keys, CryptoError>)
    ensures
        r matches Ok(keys) && are_initial_keys(keys, dst_cid@, true),
{
    let suite: usize = default_quic_suite()?;
    Ok(suite_initial_keys(suite, dst_cid, TlsSide::Client))
}

/// Generate Initial packet keys for a server (for testing/decoding).
pub fn server_initial_keys(dst_cid: &[u8]) -> (r: Result<Keys, CryptoError>)
    ensures
        r matches Ok(keys) && are_initial_keys(keys, dst_cid@, false),
{
    let suite: usize = default_quic_suite()?;
    Ok(suite_initial_keys(suite, dst_cid, TlsSide::Server))
}

/// Law: client and server Initial keys for one connection ID fit: what either
/// sends, the other receives with the same material.
pub proof fn law_initial_keys_match(client: Keys, server: Keys, dst_cid: Seq<u8>)
    requires
        are_initial_keys(client, dst_cid, true),
        are_initial_keys(server, dst_cid, false),
    ensures
        key_material(&client.local) == key_material(&server.remote),
        key_material(&server.local) == key_material(&client.remote),
{
}

/// Law: the keys of a client seal with the client's material and open with the
/// server's; those of a server the other way round. Both are the material of the
/// first suite, for the connection ID that the client chose.
pub proof fn law_initial_keys_sides(keys: Keys, dst_cid: Seq<u8>)
    ensures
        are_initial_keys(keys, dst_cid, true) ==> {
            &&& key_material(&keys.local) == initial_material(0, dst_cid, true)
            &&& key_material(&keys.remote) == initial_material(0, dst_cid, false)
        },
        are_initial_keys(keys, dst_cid, false) ==> {
            &&& key_material(&keys.local) == initial_material(0, dst_cid, false)
            &&& key_material(&keys.remote) == initial_material(0, dst_cid, true)
        },
{
}

} // verus!
