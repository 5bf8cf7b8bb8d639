//! QUIC handshake: client Initial packet generation.

use bytes::Bytes;
use rustls::pki_types::{CertificateDer, PrivateKeyDer, ServerName};
use rustls::quic::Keys;
use rustls::ClientConfig;
use std::sync::Arc;
use vstd::prelude::*;

use crate::connection;
use crate::crypto;
use crate::crypto::CryptoError;
use crate::frame;
use crate::frame::{Frame, FrameError, FrameModel};
use crate::packet;
use crate::packet::PacketNumberSpace;
use crate::protection;
use crate::protection::{ProtectError, MIN_INITIAL_SIZE};
use crate::tls;
use crate::tls::{TlsEvent, TlsOrigin, TlsSession};
use crate::varint;
use crate::varint::{VarInt, VarIntError, VARINT_MAX};
use crate::wire;

verus! {

#[derive(Debug)]
pub enum HandshakeError {
    /// A TLS error.
    Tls(rustls::Error),
    /// A crypto error.
    Crypto(CryptoError),
    /// A varint error.
    VarInt(VarIntError),
    /// A frame error.
    Frame(FrameError),
    /// The server name is invalid.
    InvalidServerName(String),
    /// Anything else, in words.
    Internal(String),
}

impl From<rustls::Error> for HandshakeError {
    fn from(e: rustls::Error) -> (r: Self) {
        Self::Tls(e)
    }
}

impl vstd::std_specs::convert::FromSpecImpl<rustls::Error> for HandshakeError {
    open spec fn obeys_from_spec() -> bool {
        true
    }

    open spec fn from_spec(e: rustls::Error) -> HandshakeError {
        HandshakeError::Tls(e)
    }
}

impl From<CryptoError> for HandshakeError {
    fn from(e: CryptoError) -> (r: Self) {
        Self::Crypto(e)
    }
}

impl vstd::std_specs::convert::FromSpecImpl<CryptoError> for HandshakeError {
    open spec fn obeys_from_spec() -> bool {
        true
    }

    open spec fn from_spec(e: CryptoError) -> HandshakeError {
        HandshakeError::Crypto(e)
    }
}

impl From<VarIntError> for HandshakeError {
    fn from(e: VarIntError) -> (r: Self) {
        Self::VarInt(e)
    }
}

impl vstd::std_specs::convert::FromSpecImpl<VarIntError> for HandshakeError {
    open spec fn obeys_from_spec() -> bool {
        true
    }

    open spec fn from_spec(e: VarIntError) -> HandshakeError {
        HandshakeError::VarInt(e)
    }
}

impl From<FrameError> for HandshakeError {
    fn from(e: FrameError) -> (r: Self) {
        Self::Frame(e)
    }
}

impl vstd::std_specs::convert::FromSpecImpl<FrameError> for HandshakeError {
    open spec fn obeys_from_spec() -> bool {
        true
    }

    open spec fn from_spec(e: FrameError) -> HandshakeError {
        HandshakeError::Frame(e)
    }
}

/// How a TLS error reads, in words.
pub uninterp spec fn error_words(e: &rustls::Error) -> Seq<char>;

/// `rustls::Error`'s `Display`: the error in words.
#[verifier::external_body]
fn error_text(e: &rustls::Error) -> (text: String)
    ensures
        text@ == error_words(e),
{
    e.to_string()
}

/// The root certificates that a client's configuration was made to trust, and
/// the certificates and the private key that it was made to answer with, if any.
pub uninterp spec fn client_config_source(config: &ClientConfig) -> (
    Seq<CertificateDer<'static>>,
    Option<(Seq<CertificateDer<'static>>, PrivateKeyDer<'static>)>,
);

/// `rustls::ClientConfig::builder_with_provider`, for the safe default protocol
/// versions, `with_root_certificates` of an empty store and
/// `with_no_client_auth`: a configuration that trusts no root and answers with
/// no certificate. It takes the process's default provider; `None` where there
/// is none, or none with usable protocol versions.
#[verifier::external_body]
fn rootless_config() -> (r: Option<Arc<ClientConfig>>)
    ensures
        r matches Some(config) ==> client_config_source(&*config) == (
            Seq::<CertificateDer<'static>>::empty(),
            None::<(Seq<CertificateDer<'static>>, PrivateKeyDer<'static>)>,
        ),
{
    let provider = rustls::crypto::CryptoProvider::get_default()?;
    let builder = ClientConfig::builder_with_provider(provider.clone());
    let versions = builder.with_safe_default_protocol_versions().ok()?;
    let rooted = versions.with_root_certificates(rustls::RootCertStore::empty());
    Some(Arc::new(rooted.with_no_client_auth()))
}

/// Whether a client's configuration trusts no root and answers with no
/// certificate.
pub open spec fn is_rootless(config: &ClientConfig) -> bool {
    client_config_source(config) == (
        Seq::<CertificateDer<'static>>::empty(),
        None::<(Seq<CertificateDer<'static>>, PrivateKeyDer<'static>)>,
    )
}

/// How long the payload must be for a packet with a length field of two bytes
/// to reach the minimum size.
pub open spec fn initial_target(material: Seq<u8>, dst_cid_len: nat, src_cid_len: nat) -> int {
    let header = protection::capped(11int + dst_cid_len + src_cid_len);
    let overhead = protection::capped(header + crypto::aead_tag_len(material));
    if overhead < MIN_INITIAL_SIZE {
        MIN_INITIAL_SIZE - overhead
    } else {
        0
    }
}

/// The payload of a client's first packet: its ClientHello in a CRYPTO frame,
/// padded.
pub open spec fn initial_payload(
    material: Seq<u8>,
    dst_cid_len: nat,
    src_cid_len: nat,
    hello: Seq<u8>,
) -> Seq<u8> {
    protection::padded(
        frame::frame_bytes(FrameModel::Crypto { offset: 0, data: hello }),
        initial_target(material, dst_cid_len, src_cid_len),
    )
}

/// The error of a length that does not fit in the two bytes set aside for it,
/// which with the packet number leave room for three.
pub open spec fn length_error(length: u64) -> Option<VarIntError> {
    if length > VARINT_MAX {
        Some(VarIntError::ValueTooLarge { value: length })
    } else if length > 16383 {
        Some(
            VarIntError::BufferTooShort { needed: varint::varint_len(length) as usize, actual: 3 },
        )
    } else {
        None
    }
}

/// The client's first packet, or `None` where its payload cannot be sealed.
pub open spec fn initial_packet(
    material: Seq<u8>,
    dst_cid: Seq<u8>,
    src_cid: Seq<u8>,
    hello: Seq<u8>,
) -> Option<Seq<u8>> {
    protection::long_packet(
        material,
        PacketNumberSpace::Initial,
        packet::VERSION_1,
        dst_cid,
        src_cid,
        initial_payload(material, dst_cid.len(), src_cid.len(), hello),
        0,
        1,
    )
}

/// Whether `r` is what comes of making a client's first packet: the packet, or
/// the error of the first step that fails.
pub open spec fn is_initial_outcome(
    material: Seq<u8>,
    dst_cid: Seq<u8>,
    src_cid: Seq<u8>,
    hello: Seq<u8>,
    r: Result<Vec<u8>, HandshakeError>,
) -> bool {
    let payload = initial_payload(material, dst_cid.len(), src_cid.len(), hello);
    match protection::frame_write_error(FrameModel::Crypto { offset: 0, data: hello }) {
        Some(e) => r == Err::<Vec<u8>, _>(HandshakeError::Frame(e)),
        None => match length_error(protection::length_value(material, payload.len(), 1)) {
            Some(e) => r == Err::<Vec<u8>, _>(HandshakeError::VarInt(e)),
            None => match initial_packet(material, dst_cid, src_cid, hello) {
                None => {
                    &&& r matches Err(HandshakeError::Internal(text))
                    &&& exists|e: rustls::Error|
                        text@ == "AEAD encrypt: "@ + #[trigger] error_words(&e)
                },
                Some(p) => r matches Ok(v) && v@ == p,
            },
        },
    }
}

/// Build the unprotected Initial packet header and payload, then encrypt.
#[verifier::rlimit(40)]
pub(crate) fn build_and_protect_initial(
    keys: &Keys,
    dst_cid: &[u8],
    src_cid: &[u8],
    client_hello: &[u8],
) -> (r: Result<Vec<u8>, HandshakeError>)
    requires
        dst_cid@.len() <= 20,
        src_cid@.len() <= 20,
        crypto::hp_sample_len(crypto::key_material(&keys.local)) <= 16,
        crypto::aead_tag_len(crypto::key_material(&keys.local)) <= 16,
    ensures
        is_initial_outcome(
            crypto::key_material(&keys.local),
            dst_cid@,
            src_cid@,
            client_hello@,
            r,
        ),
        r matches Ok(p) ==> {
            let material = crypto::key_material(&keys.local);
            &&& p@.len() >= MIN_INITIAL_SIZE
            &&& protection::packet_opens(
                material,
                PacketNumberSpace::Initial,
                packet::VERSION_1,
                dst_cid@,
                src_cid@,
                initial_payload(material, dst_cid@.len(), src_cid@.len(), client_hello@),
                0,
                1,
                false,
                p@,
            )
        },
{
    let ghost material = crypto::key_material(&keys.local);
    let tag_len: usize = crypto::tag_len(&keys.local);
    // The plaintext payload.
    let crypto_frame = Frame::Crypto { offset: 0, data: Bytes::copy_from_slice(client_hello) };
    let ghost m = FrameModel::Crypto { offset: 0, data: client_hello@ };
    assert(crypto_frame@ == m);
    let mut payload: Vec<u8> = Vec::new();
    match frame::write_frame(&crypto_frame, &mut payload) {
        Ok(_) => {},
        Err(e) => {
            return Err(HandshakeError::Frame(e));
        },
    }
    assert(payload@ =~= frame::frame_bytes(m));
    // Form and type, version, two ID lengths, token length, length, and packet
    // number.
    let header_total: usize = 11 + dst_cid.len() + src_cid.len();
    let plaintext_min: usize = MIN_INITIAL_SIZE.saturating_sub(header_total + tag_len);
    protection::pad_to(&mut payload, plaintext_min);
    let ghost plain = payload@;
    assert(plain == initial_payload(material, dst_cid@.len(), src_cid@.len(), client_hello@));
    proof {
        protection::lemma_crypto_frame_len(0, client_hello@);
    }
    let length: VarInt = payload.len().saturating_add(1).saturating_add(tag_len) as VarInt;
    assert(length == protection::length_value(material, plain.len(), 1));
    // Two bytes are set aside for the length, before the one of the packet
    // number.
    let mut room: [u8; 3] = [0u8; 3];
    match varint::encode(length, &mut room) {
        Ok(_) => {},
        Err(e) => {
            return Err(HandshakeError::VarInt(e));
        },
    }
    assert(64 <= length <= 16383);
    let mut header: Vec<u8> = Vec::new();
    protection::put_long_front(
        &mut header,
        PacketNumberSpace::Initial,
        packet::VERSION_1,
        dst_cid,
        src_cid,
        length,
        1,
    );
    let ghost lm = protection::long_model(
        PacketNumberSpace::Initial,
        packet::VERSION_1,
        dst_cid@,
        src_cid@,
        length,
        1,
    );
    assert(header@ =~= packet::long_front(lm));
    let pn_offset: usize = header.len();
    header.push(0x00);
    proof {
        reveal_with_fuel(wire::be_bytes, 2);
        assert(wire::be_bytes(0, 1) =~= seq![0u8]);
        assert(header@ =~= packet::long_front(lm) + wire::be_bytes(0, 1));
        protection::lemma_long_front_len(
            PacketNumberSpace::Initial,
            packet::VERSION_1,
            dst_cid@,
            src_cid@,
            length,
            1,
        );
    }
    let ghost hdr = header@;
    match protection::seal_packet(&keys.local, 0, header, pn_offset, payload) {
        Ok(p) => {
            proof {
                protection::lemma_long_packet_opens(
                    material,
                    PacketNumberSpace::Initial,
                    packet::VERSION_1,
                    dst_cid@,
                    src_cid@,
                    plain,
                    0,
                    1,
                );
            }
            Ok(p)
        },
        Err(ProtectError::Seal(e)) => {
            let mut text: String = "AEAD encrypt: ".to_string();
            let words = error_text(&e);
            text.append(words.as_str());
            assert(text@ == "AEAD encrypt: "@ + error_words(&e));
            Err(HandshakeError::Internal(text))
        },
        Err(ProtectError::Header(e)) => {
            let mut text: String = "header protection: ".to_string();
            let words = error_text(&e);
            text.append(words.as_str());
            Err(HandshakeError::Internal(text))
        },
    }
}

/// What a client makes of the connection IDs that were drawn, if they were,
/// and the ClientHello that TLS produced.
pub fn initial_for_hello(
    dst_cid: Option<Vec<u8>>,
    src_cid: Option<Vec<u8>>,
    client_hello: &Vec<u8>,
) -> (r: Result<Vec<u8>, HandshakeError>)
    requires
        dst_cid matches Some(id) ==> id@.len() <= 20,
        src_cid matches Some(id) ==> id@.len() <= 20,
    ensures
        if client_hello@.len() == 0 {
            r matches Err(HandshakeError::Internal(text)) && text@
                == "TLS produced no ClientHello"@
        } else {
            match (dst_cid, src_cid) {
                (Some(dst), Some(src)) => {
                    &&& is_initial_outcome(
                        crypto::initial_material(0, dst@, true),
                        dst@,
                        src@,
                        client_hello@,
                        r,
                    )
                    &&& r matches Ok(p) ==> connection::is_first_packet(
                        p@,
                        dst@,
                        src@,
                        client_hello@,
                    )
                },
                _ => r matches Err(HandshakeError::Internal(text)) && text@
                    == "no random bytes"@,
            }
        },
{
    if client_hello.len() == 0 {
        return Err(HandshakeError::Internal("TLS produced no ClientHello".to_string()));
    }
    let (dst_cid, src_cid) = match (dst_cid, src_cid) {
        (Some(dst_cid), Some(src_cid)) => (dst_cid, src_cid),
        _ => {
            return Err(HandshakeError::Internal("no random bytes".to_string()));
        },
    };
    // Derive Initial keys from the destination ID.
    let keys = match crypto::client_initial_keys(&dst_cid) {
        Ok(keys) => keys,
        Err(e) => {
            return Err(HandshakeError::Crypto(e));
        },
    };
    let p = build_and_protect_initial(&keys, &dst_cid, &src_cid, client_hello)?;
    let hello_len: usize = client_hello.len();
    proof {
        let target = initial_target(
            crypto::key_material(&keys.local),
            dst_cid@.len(),
            src_cid@.len(),
        );
        assert(client_hello@.len() == hello_len);
        connection::lemma_first_packet(dst_cid@, src_cid@, client_hello@, target, p@);
    }
    Ok(p)
}

/// Whether `r` is what a client comes to that has written `hello`, whatever
/// connection IDs it draws, if it can draw them.
pub open spec fn is_drawn_outcome(hello: Seq<u8>, r: Result<Vec<u8>, HandshakeError>) -> bool {
    if hello.len() == 0 {
        r matches Err(HandshakeError::Internal(text)) && text@ == "TLS produced no ClientHello"@
    } else {
        ||| r matches Err(HandshakeError::Internal(text)) && text@ == "no random bytes"@
        ||| exists|dst_cid: Seq<u8>, src_cid: Seq<u8>|
            {
                &&& dst_cid.len() == 8
                &&& src_cid.len() == 8
                &&& #[trigger] is_initial_outcome(
                    crypto::initial_material(0, dst_cid, true),
                    dst_cid,
                    src_cid,
                    hello,
                    r,
                )
                &&& r matches Ok(p) ==> connection::is_first_packet(p@, dst_cid, src_cid, hello)
            }
    }
}

/// Generate the first client Initial packet of a TLS session.
pub fn initial_from(session: &mut TlsSession) -> (r: Result<Vec<u8>, HandshakeError>)
    ensures
        final(session).origin() == old(session).origin(),
        final(session).log().len() == old(session).log().len() + 1,
        final(session).log().drop_last() == old(session).log(),
        final(session).log().last() is Write,
        is_drawn_outcome(hello_of(final(session)), r),
{
    let ghost log = session.log();
    // Extract the ClientHello.
    let (client_hello, _) = session.write_hs();
    assert(session.log().drop_last() =~= log);
    // Generate connection IDs.
    let dst_cid = crypto::random_bytes(8);
    let src_cid = crypto::random_bytes(8);
    // Build and protect the packet.
    let ghost (dst, src) = (dst_cid, src_cid);
    let r = initial_for_hello(dst_cid, src_cid, &client_hello);
    proof {
        assert(hello_of(session) == client_hello@);
        if client_hello@.len() > 0 && dst is Some && src is Some {
            let (d, c) = (dst->Some_0@, src->Some_0@);
            assert(is_initial_outcome(
                crypto::initial_material(0, d, true),
                d,
                c,
                client_hello@,
                r,
            ));
        }
    }
    r
}

/// Generate the first client Initial packet.
///
/// Returns the fully encrypted and header-protected Initial packet
/// ready to send via UDP.
pub fn client_initial(server_name: &str) -> (r: Result<Vec<u8>, HandshakeError>)
    ensures
        match tls::server_name_of(server_name@) {
            None => r matches Err(HandshakeError::InvalidServerName(name)) && name@ == server_name@,
            Some(name) => {
                ||| r matches Err(e) && is_session_error(e)
                ||| exists|session: TlsSession|
                    {
                        &&& is_session_for(&session, name)
                        &&& session.log().len() == 1
                        &&& session.log()[0] is Write
                        &&& #[trigger] is_drawn_outcome(hello_of(&session), r)
                    }
            },
        },
{
    let mut session = client_session(server_name)?;
    let r = initial_from(&mut session);
    assert(is_drawn_outcome(hello_of(&session), r));
    r
}

/// Whether an error is one of creating a session: an error of TLS, or that no
/// crypto provider can be used.
pub open spec fn is_session_error(e: HandshakeError) -> bool {
    ||| e is Tls
    ||| e matches HandshakeError::Internal(text) && text@ == "no usable crypto provider"@
}

/// Whether a session is a client's with the server of the given name, that
/// trusts no root and answers with no certificate.
pub open spec fn is_session_for(session: &TlsSession, name: ServerName<'static>) -> bool {
    session.origin() matches TlsOrigin::Client { config, name: handed } && handed == name
        && is_rootless(&*config)
}

/// What a session wrote last, where its last exchange was to write.
pub open spec fn hello_of(session: &TlsSession) -> Seq<u8> {
    match session.log().last() {
        TlsEvent::Write { out, .. } => out,
        _ => Seq::empty(),
    }
}

/// A client's TLS session with the server of the given name, before any
/// exchange.
pub fn client_session(server_name: &str) -> (r: Result<TlsSession, HandshakeError>)
    ensures
        match tls::server_name_of(server_name@) {
            None => r matches Err(HandshakeError::InvalidServerName(name)) && name@ == server_name@,
            Some(name) => match r {
                Ok(s) => {
                    &&& is_session_for(&s, name)
                    &&& s.log() == Seq::<TlsEvent>::empty()
                },
                Err(e) => is_session_error(e),
            },
        },
{
    // Install the crypto provider.
    let _ = crypto::install_provider();
    let name = match tls::parse_server_name(server_name) {
        Some(name) => name,
        None => {
            return Err(HandshakeError::InvalidServerName(server_name.to_string()));
        },
    };
    let config = match rootless_config() {
        Some(config) => config,
        None => {
            return Err(HandshakeError::Internal("no usable crypto provider".to_string()));
        },
    };
    match TlsSession::client(config, name) {
        Ok(session) => Ok(session),
        Err(e) => Err(HandshakeError::Tls(e)),
    }
}

/// Law: two bytes are set aside for the length of a client's first packet, which
/// hold 14 bits. A longer one is refused: as too long for them, or where no
/// varint can hold it, as too large.
pub proof fn law_length_error(length: u64)
    ensures
        length < 0x4000 <==> length_error(length) is None,
        0x4000 <= length <= 0x3fff_ffff_ffff_ffff ==> (length_error(length) matches Some(
            VarIntError::BufferTooShort { needed, actual },
        ) && actual == 3 && needed == varint::varint_bytes(length).len()),
        length > 0x3fff_ffff_ffff_ffff ==> length_error(length) == Some(
            VarIntError::ValueTooLarge { value: length },
        ),
{
    varint::law_varint_written(length, Seq::empty());
}

/// Law: a call of [`client_initial`] that succeeds gives a packet of at least
/// 1200 bytes that a server reads as an Initial packet and opens to packet number
/// 0 and a ClientHello. A name that is none is refused.
pub proof fn law_client_initial(name: &str, r: Result<Vec<u8>, HandshakeError>)
    requires
        call_ensures(client_initial, (name,), r),
    ensures
        tls::server_name_of(name@) is None ==> r is Err,
        r matches Ok(p) ==> p@.len() >= 1200 && exists|
            dst_cid: Seq<u8>,
            src_cid: Seq<u8>,
            hello: Seq<u8>,
        | #[trigger] connection::is_first_packet(p@, dst_cid, src_cid, hello) && hello.len() > 0,
{
}

} // verus!
