use bytes::Bytes;
use deerquic::connection::Connection;
use deerquic::crypto::{client_initial_keys, install_provider, server_initial_keys};
use deerquic::error::{ConnectionError, TransportError};
use deerquic::frame::{write_frame, Frame};
use deerquic::packet::{parse_long_header, PacketError, PacketNumberSpace, VERSION_1};
use deerquic::protection::decrypt_initial;
use deerquic::tls::TlsSession;
use rustls::quic;
use std::sync::Arc;

#[derive(Debug)]
struct SkipVerify;

impl rustls::client::danger::ServerCertVerifier for SkipVerify {
    fn verify_server_cert(
        &self,
        _end_entity: &rustls::pki_types::CertificateDer<'_>,
        _intermediates: &[rustls::pki_types::CertificateDer<'_>],
        _server_name: &rustls::pki_types::ServerName<'_>,
        _ocsp_response: &[u8],
        _now: rustls::pki_types::UnixTime,
    ) -> Result<rustls::client::danger::ServerCertVerified, rustls::Error> {
        Ok(rustls::client::danger::ServerCertVerified::assertion())
    }

    fn verify_tls12_signature(
        &self,
        _message: &[u8],
        _cert: &rustls::pki_types::CertificateDer<'_>,
        _dss: &rustls::DigitallySignedStruct,
    ) -> Result<rustls::client::danger::HandshakeSignatureValid, rustls::Error> {
        Ok(rustls::client::danger::HandshakeSignatureValid::assertion())
    }

    fn verify_tls13_signature(
        &self,
        _message: &[u8],
        _cert: &rustls::pki_types::CertificateDer<'_>,
        _dss: &rustls::DigitallySignedStruct,
    ) -> Result<rustls::client::danger::HandshakeSignatureValid, rustls::Error> {
        Ok(rustls::client::danger::HandshakeSignatureValid::assertion())
    }

    fn supported_verify_schemes(&self) -> Vec<rustls::SignatureScheme> {
        vec![
            rustls::SignatureScheme::RSA_PKCS1_SHA256,
            rustls::SignatureScheme::ECDSA_NISTP256_SHA256,
            rustls::SignatureScheme::RSA_PSS_SHA256,
            rustls::SignatureScheme::ED25519,
        ]
    }
}

fn test_client_config() -> Arc<rustls::ClientConfig> {
    let _ = install_provider();
    Arc::new(
        rustls::ClientConfig::builder_with_protocol_versions(&[&rustls::version::TLS13])
            .dangerous()
            .with_custom_certificate_verifier(Arc::new(SkipVerify))
            .with_no_client_auth(),
    )
}

fn test_server_config() -> Arc<rustls::ServerConfig> {
    let cert = rcgen::generate_simple_self_signed(vec!["localhost".into()]).unwrap();
    let cert_der = cert.cert.der().clone();
    let key_der = cert.key_pair.serialize_der();
    let key = rustls::pki_types::PrivateKeyDer::Pkcs8(key_der.into());
    let config = rustls::ServerConfig::builder_with_protocol_versions(&[&rustls::version::TLS13])
        .with_no_client_auth()
        .with_single_cert(vec![cert_der], key)
        .unwrap();
    Arc::new(config)
}

#[test]
fn connect_produces_valid_initial() {
    let (_conn, packet) = Connection::connect("localhost", test_client_config()).expect("connect");
    assert!(packet.len() >= 1200);
    assert_eq!(packet[0] & 0x80, 0x80);
}

#[test]
fn connect_and_reingest() {
    let (_conn, packet) = Connection::connect("localhost", test_client_config()).unwrap();
    let (hdr, _hdr_len) = parse_long_header(&packet).unwrap();
    let dcid = &hdr.dst_cid.0;
    let server_keys = server_initial_keys(dcid).unwrap();
    let (frames, pn) = decrypt_initial(&packet, &hdr, &server_keys).unwrap();
    assert!(pn == 0, "PN should be 0");
    assert!(!frames.is_empty(), "should have frames");
    // Verify the CRYPTO frame contains ClientHello (starts with 0x01)
    for f in &frames {
        if let Frame::Crypto { offset, data } = f {
            assert_eq!(*offset, 0);
            assert!(data.starts_with(&[0x01]), "ClientHello starts with 0x01");
        }
    }
}

#[test]
fn hs_keys_match() {
    // Full flow: both sides get HS keys from TLS, verify they match
    let (mut client, client_initial) = Connection::connect("localhost", test_client_config()).unwrap();
    let server_config = test_server_config();
    let mut server = Connection::accept(&client_initial, server_config).unwrap();

    // Get ALL server packets
    let mut buf = vec![0u8; 4096];
    let mut server_pkts = Vec::new();
    loop {
        let n = server.egest(&mut buf).unwrap();
        if n == 0 {
            break;
        }
        server_pkts.push(buf[..n].to_vec());
    }

    // Client ingests first packet (Initial, contains ServerHello)
    client.ingest(&server_pkts[0]).unwrap();

    // Test HS keys RIGHT NOW, before ingesting the Handshake packet
    if client.handshake_space.has_keys() && server.handshake_space.has_keys() {
        let pt = b"hs key test before pkt1";
        let srv_local = server.handshake_space.local_keys().unwrap();
        let cli_remote = client.handshake_space.remote_keys().unwrap();

        let mut enc = pt.to_vec();
        let tag = srv_local
            .packet
            .encrypt_in_place(0, b"hdr", &mut enc)
            .unwrap();
        enc.extend_from_slice(tag.as_ref());
        let _dec = cli_remote
            .packet
            .decrypt_in_place(0, b"hdr", &mut enc)
            .unwrap();
    }

    // Now try ingesting the Handshake packet
    if server_pkts.len() > 1 {
        client.ingest(&server_pkts[1]).unwrap();
    }

    assert!(server.handshake_space.has_keys(), "server has HS keys");
    assert!(client.handshake_space.has_keys(), "client has HS keys");
    let plaintext = b"test data for key comparison";
    let srv_local = server.handshake_space.local_keys().unwrap();
    let cli_remote = client.handshake_space.remote_keys().unwrap();

    // Encrypt same plaintext with same PN+header using both keys.
    // If keys match, ciphertexts match (QUIC AEAD is deterministic).
    let mut enc1 = plaintext.to_vec();
    let t1 = srv_local
        .packet
        .encrypt_in_place(0, b"hdr", &mut enc1)
        .unwrap();
    let ct1 = enc1.clone();
    enc1.extend_from_slice(t1.as_ref());

    let mut enc2 = plaintext.to_vec();
    let t2 = cli_remote
        .packet
        .encrypt_in_place(0, b"hdr", &mut enc2)
        .unwrap();
    enc2.extend_from_slice(t2.as_ref());

    // Compare only the ciphertext portion (before tag)
    let ct1 = &enc1[..plaintext.len()];
    let ct2_part = &enc2[..plaintext.len()];
    assert_eq!(ct1, ct2_part, "ciphertexts must match if keys identical");

    // Also check decrypt using the srv_local-encrypted ciphertext
    let dec = cli_remote
        .packet
        .decrypt_in_place(0, b"hdr", &mut enc1)
        .unwrap();
    assert_eq!(dec, plaintext, "cross-decrypt after ct match");
}

#[test]
fn rustls_handshake_keys_match() {
    // Minimal rustls-only test: client and server exchange handshake data,
    // check that their HS keys can encrypt/decrypt each other.
    let _ = rustls::crypto::ring::default_provider().install_default();

    // Client setup
    let client_config = Arc::new(
        rustls::ClientConfig::builder_with_protocol_versions(&[&rustls::version::TLS13])
            .dangerous()
            .with_custom_certificate_verifier(Arc::new(SkipVerify))
            .with_no_client_auth(),
    );
    let server_name = rustls::pki_types::ServerName::try_from("localhost").unwrap();
    let mut client =
        quic::ClientConnection::new(client_config, quic::Version::V1, server_name, vec![])
            .unwrap();

    // Server setup
    let cert = rcgen::generate_simple_self_signed(vec!["localhost".into()]).unwrap();
    let cert_der = cert.cert.der().clone();
    let key_der = cert.key_pair.serialize_der();
    let key = rustls::pki_types::PrivateKeyDer::Pkcs8(key_der.into());
    let server_config = Arc::new(
        rustls::ServerConfig::builder_with_protocol_versions(&[&rustls::version::TLS13])
            .with_no_client_auth()
            .with_single_cert(vec![cert_der], key)
            .unwrap(),
    );
    let mut server =
        quic::ServerConnection::new(server_config, quic::Version::V1, vec![]).unwrap();

    // Step 1: Client sends ClientHello
    let mut ch = Vec::new();
    let _kc = client.write_hs(&mut ch);
    assert!(!ch.is_empty(), "ClientHello");

    // Step 2: Server reads ClientHello, produces response
    server.read_hs(&ch).unwrap();
    let mut sh = Vec::new();
    let server_kc1 = server.write_hs(&mut sh);
    let server_hs_keys = match server_kc1 {
        Some(quic::KeyChange::Handshake { keys }) => Some(keys),
        _ => None,
    };
    // Data from first write_hs is at Initial level
    let initial_data = sh;

    // Step 3: Server second write_hs (Handshake level after KeyChange)
    let mut hd = Vec::new();
    let _server_kc2 = server.write_hs(&mut hd);
    let _handshake_data = hd;

    // Step 4: Client reads server's Initial data
    if !initial_data.is_empty() {
        client.read_hs(&initial_data).unwrap();
    }
    let mut client_resp = Vec::new();
    let client_kc1 = client.write_hs(&mut client_resp);
    let client_hs_keys = match client_kc1 {
        Some(quic::KeyChange::Handshake { keys }) => Some(keys),
        _ => None,
    };

    // Step 5: If client got HS keys, test they match server's HS keys
    if let (Some(ref srv_keys), Some(ref cli_keys)) = (&server_hs_keys, &client_hs_keys) {
        // Server encrypts with local, client decrypts with remote
        let pt = b"test handshake data";
        let mut enc = pt.to_vec();
        let tag = srv_keys
            .local
            .packet
            .encrypt_in_place(0, b"hdr", &mut enc)
            .unwrap();
        enc.extend_from_slice(tag.as_ref());

        let dec = cli_keys
            .remote
            .packet
            .decrypt_in_place(0, b"hdr", &mut enc)
            .unwrap();
        assert_eq!(dec, pt, "HS keys cross-decrypt");

        // Also test: client local encrypt, server remote decrypt
        let mut enc2 = pt.to_vec();
        let tag2 = cli_keys
            .local
            .packet
            .encrypt_in_place(1, b"hdr2", &mut enc2)
            .unwrap();
        enc2.extend_from_slice(tag2.as_ref());
        let dec2 = srv_keys
            .remote
            .packet
            .decrypt_in_place(1, b"hdr2", &mut enc2)
            .unwrap();
        assert_eq!(dec2, pt, "HS keys cross-decrypt reverse");
    } else {
        panic!(
            "HS keys missing: server={}, client={}",
            server_hs_keys.is_some(),
            client_hs_keys.is_some()
        );
    }
}

#[test]
fn full_handshake() {
    assert!(true); // WIP
}

fn packets(conn: &mut Connection) -> Vec<Vec<u8>> {
    let mut buf = vec![0u8; 4096];
    let mut out = Vec::new();
    loop {
        let n = conn.egest(&mut buf).unwrap();
        if n == 0 {
            return out;
        }
        out.push(buf[..n].to_vec());
    }
}

fn established() -> (Connection, Connection) {
    let (mut client, initial) = Connection::connect("localhost", test_client_config()).unwrap();
    let mut server = Connection::accept(&initial, test_server_config()).unwrap();
    for _ in 0..8 {
        for p in packets(&mut server) {
            assert_eq!(client.ingest(&p).unwrap(), p.len());
        }
        for p in packets(&mut client) {
            assert_eq!(server.ingest(&p).unwrap(), p.len());
        }
    }
    (client, server)
}

#[test]
fn handshake_in_memory() {
    let (client, server) = established();
    assert!(client.is_established());
    assert!(server.is_established());
    assert!(!client.is_closed());
    assert_eq!(client.version(), VERSION_1);
    assert_eq!(server.version(), VERSION_1);
    assert!(client.close_reason().is_none());
    assert!(client.next_timeout().is_none());
    assert!(client.appdata_space.has_keys() && server.appdata_space.has_keys());
}

#[test]
fn server_confirms_the_handshake_once() {
    let (_client, initial) = Connection::connect("localhost", test_client_config()).unwrap();
    let mut server = Connection::accept(&initial, test_server_config()).unwrap();
    assert!(!server.is_established());
    let sent = packets(&mut server);
    // Initial, Handshake and the confirmation, in this order.
    assert_eq!(sent.len(), 3);
    assert_eq!(sent[0][0] & 0xf0, 0xc0);
    assert!(sent[0].len() >= 1200);
    assert_eq!(sent[1][0] & 0xf0, 0xe0);
    assert_eq!(sent[2][0] & 0xf0, 0xd0);
    assert!(server.is_established());
    assert!(packets(&mut server).is_empty());
    assert_eq!(server.initial_space.peek_send_pn(), 1);
    assert_eq!(server.handshake_space.peek_send_pn(), 1);
    assert_eq!(server.appdata_space.peek_send_pn(), 1);
}

#[test]
fn connection_ids_cross() {
    let (_client, initial) = Connection::connect("localhost", test_client_config()).unwrap();
    let (sent, _) = parse_long_header(&initial).unwrap();
    assert_eq!(sent.dst_cid.0.len(), 8);
    assert_eq!(sent.src_cid.0.len(), 8);
    let mut server = Connection::accept(&initial, test_server_config()).unwrap();
    let (reply, _) = parse_long_header(&packets(&mut server)[0]).unwrap();
    assert_eq!(reply.dst_cid, sent.src_cid);
    assert_eq!(reply.src_cid, sent.dst_cid);
}

#[test]
fn packet_that_does_not_fit_stays() {
    let (_client, initial) = Connection::connect("localhost", test_client_config()).unwrap();
    let mut server = Connection::accept(&initial, test_server_config()).unwrap();
    let mut small = [0u8; 100];
    let needed = match server.egest(&mut small).unwrap_err() {
        ConnectionError::Packet(PacketError::BufferTooShort { needed, actual: 100 }) => needed,
        other => panic!("expected a small buffer, got {other:?}"),
    };
    assert!(needed >= 1200);
    assert_eq!(small, [0u8; 100]);
    assert_eq!(server.initial_space.peek_send_pn(), 0);
    assert!(server.initial_space.has_pending_acks());
    // One byte less is still too small.
    let mut buf = vec![0u8; needed];
    assert!(server.egest(&mut buf[..needed - 1]).is_err());
    // The Initial packet comes whole, and the Handshake packet is next.
    assert_eq!(server.egest(&mut buf).unwrap(), needed);
    assert_eq!(buf[0] & 0xf0, 0xc0);
    assert_eq!(server.initial_space.peek_send_pn(), 1);
    let sent = packets(&mut server);
    assert_eq!(sent[0][0] & 0xf0, 0xe0);
}

#[test]
fn early_application_data_arrives() {
    let (mut client, initial) = Connection::connect("localhost", test_client_config()).unwrap();
    let mut server = Connection::accept(&initial, test_server_config()).unwrap();
    server.send_data(b"hello ");
    server.send_data(b"client");
    for p in packets(&mut server) {
        assert_eq!(client.ingest(&p).unwrap(), p.len());
    }
    assert!(client.is_established());
    let mut buf = [0xffu8; 8];
    assert_eq!(client.recv_data(&mut buf), 8);
    assert_eq!(&buf, b"hello cl");
    let mut buf = [0xffu8; 8];
    assert_eq!(client.recv_data(&mut buf), 4);
    assert_eq!(&buf, b"ient\xff\xff\xff\xff");
    assert_eq!(client.recv_data(&mut buf), 0);
}

#[test]
fn short_header_data_arrives() {
    for _ in 0..8 {
        let (mut client, mut server) = established();
        for text in [&b"ping"[..], b"and", b"pong", b"again"] {
            client.send_data(text);
            for p in packets(&mut client) {
                if p[0] < 0x80 {
                    assert_eq!(server.ingest(&p).unwrap(), p.len());
                }
            }
            let mut buf = [0u8; 16];
            assert_eq!(server.recv_data(&mut buf), text.len());
            assert_eq!(&buf[..text.len()], text);
        }
    }
}

#[test]
fn ids_of_different_lengths() {
    let mut tls = client_session();
    let (hello, _) = tls.write_hs();
    let (mut client, initial) =
        Connection::connect_with(tls, &hello, Some(vec![7; 5]), Some(vec![9; 12])).unwrap();
    let mut server = Connection::accept(&initial, test_server_config()).unwrap();
    for _ in 0..4 {
        for p in packets(&mut server) {
            let _ = client.ingest(&p);
        }
        for p in packets(&mut client) {
            let _ = server.ingest(&p);
        }
    }
    assert!(client.is_established() && server.is_established());
    client.send_data(b"to the server");
    server.send_data(b"to the client");
    for p in packets(&mut client).iter().filter(|p| p[0] < 0x80) {
        assert_eq!(&p[1..6], &[7; 5]);
        assert_eq!(server.ingest(p).unwrap(), p.len());
    }
    for p in packets(&mut server).iter().filter(|p| p[0] < 0x80) {
        assert_eq!(&p[1..13], &[9; 12]);
        assert_eq!(client.ingest(p).unwrap(), p.len());
    }
    let mut buf = [0u8; 32];
    assert_eq!(server.recv_data(&mut buf), 13);
    assert_eq!(&buf[..13], b"to the server");
    assert_eq!(client.recv_data(&mut buf), 13);
    assert_eq!(&buf[..13], b"to the client");
}

/// A 1-RTT packet from a peer whose connection ID has 8 bytes, with the given
/// first byte before protection and a packet number of one byte.
fn one_rtt_packet(from: &Connection, to: [u8; 8], first: u8, pn: u8, frames: &[Frame]) -> Vec<u8> {
    let keys = from.appdata_space.local_keys().unwrap();
    let mut payload = Vec::new();
    for f in frames {
        write_frame(f, &mut payload).unwrap();
    }
    payload.resize(payload.len().max(40), 0);
    let mut header = vec![first];
    header.extend_from_slice(&to);
    header.push(pn);
    let tag = keys.packet.encrypt_in_place(pn as u64, &header, &mut payload).unwrap();
    payload.extend_from_slice(tag.as_ref());
    let sample = payload[3..19].to_vec();
    let (head, field) = header.split_at_mut(9);
    keys.header.encrypt_in_place(&sample, &mut head[0], field).unwrap();
    header.extend_from_slice(&payload);
    header
}

#[test]
fn reserved_bits_are_tested_unmasked() {
    let (mut client, mut server) = established();
    client.send_data(b"x");
    let sent = packets(&mut client);
    let to: [u8; 8] = sent.last().unwrap()[1..9].try_into().unwrap();
    for pn in 100..140u8 {
        for first in [0x49u8, 0x51, 0x59] {
            let p = one_rtt_packet(&client, to, first, pn, &[Frame::Ping]);
            assert!(matches!(
                server.ingest(&p).unwrap_err(),
                ConnectionError::Packet(PacketError::ReservedBitsSet)
            ));
        }
        let p = one_rtt_packet(&client, to, 0x41, pn, &[Frame::Ping]);
        assert_eq!(server.ingest(&p).unwrap(), p.len());
        assert_eq!(server.appdata_space.largest_recv_pn(), pn as u64);
    }
}

#[test]
fn short_packet_too_short_to_open() {
    let (mut client, _server) = established();
    let mut p = vec![0x41u8];
    assert!(matches!(
        client.ingest(&p).unwrap_err(),
        ConnectionError::Packet(PacketError::BufferTooShort { needed: 9, actual: 1 })
    ));
    p.extend_from_slice(&[0; 20]);
    assert!(matches!(
        client.ingest(&p).unwrap_err(),
        ConnectionError::Packet(PacketError::BufferTooShort { needed: 29, actual: 21 })
    ));
    assert!(matches!(
        client.ingest(&[0x01; 40]).unwrap_err(),
        ConnectionError::Packet(PacketError::FixedBitNotSet)
    ));
    assert!(!client.is_closed());
    // Long enough to be sampled, but not authentic.
    p.extend_from_slice(&[0; 20]);
    assert!(client.ingest(&p).is_err());
    assert!(!client.is_closed());
}

#[test]
fn rejected_packets() {
    let (mut client, initial) = Connection::connect("localhost", test_client_config()).unwrap();
    assert_eq!(client.ingest(&[]).unwrap(), 0);
    assert!(matches!(
        client.ingest(&[0xc0, 0, 0]).unwrap_err(),
        ConnectionError::Packet(PacketError::BufferTooShort { needed: 5, actual: 3 })
    ));
    // Its own packet is not the server's.
    assert!(matches!(
        client.ingest(&initial).unwrap_err(),
        ConnectionError::Transport(TransportError::ProtocolViolation)
    ));
    // Retry and Version Negotiation.
    assert!(matches!(
        client.ingest(&[0xf0, 0, 0, 0, 1, 0, 0]).unwrap_err(),
        ConnectionError::Transport(TransportError::ProtocolViolation)
    ));
    assert!(matches!(
        client.ingest(&[0x80, 0, 0, 0, 0, 0, 0]).unwrap_err(),
        ConnectionError::Transport(TransportError::ProtocolViolation)
    ));
    // No keys for Handshake packets yet.
    assert!(matches!(
        client.ingest(&[0xe0, 0, 0, 0, 1, 0, 0, 1, 0]).unwrap_err(),
        ConnectionError::Transport(TransportError::InternalError)
    ));
    // An Initial packet too short to be sampled.
    assert!(matches!(
        client.ingest(&[0xc0, 0, 0, 0, 1, 0, 0, 0, 1, 0]).unwrap_err(),
        ConnectionError::Packet(PacketError::BufferTooShort { needed: 29, actual: 10 })
    ));
    assert_eq!(client.initial_space.largest_recv_pn(), 0);
    assert!(client.initial_space.time_since_last_recv().is_none());
}

#[test]
fn tampered_first_packet_is_not_accepted() {
    let (_client, mut initial) = Connection::connect("localhost", test_client_config()).unwrap();
    *initial.last_mut().unwrap() ^= 1;
    assert!(matches!(
        Connection::accept(&initial, test_server_config()).err().unwrap(),
        ConnectionError::Transport(TransportError::ProtocolViolation)
    ));
    assert!(matches!(
        Connection::accept(&[0x40], test_server_config()).err().unwrap(),
        ConnectionError::Packet(PacketError::InvalidHeaderForm { expected: 1, actual: 0 })
    ));
}

#[test]
fn invalid_server_name() {
    assert!(matches!(
        Connection::connect("not a name!", test_client_config()).err().unwrap(),
        ConnectionError::Transport(TransportError::InternalError)
    ));
}

/// An Initial packet from the server of the client that sent `initial`.
fn server_packet(initial: &[u8], pn: u8, frames: &[Frame]) -> Vec<u8> {
    let (hdr, _) = parse_long_header(initial).unwrap();
    let keys = server_initial_keys(&hdr.dst_cid.0).unwrap();
    let mut payload = Vec::new();
    for f in frames {
        write_frame(f, &mut payload).unwrap();
    }
    payload.resize(payload.len().max(100), 0);
    let mut header = vec![0xc0u8, 0, 0, 0, 1, hdr.src_cid.0.len() as u8];
    header.extend_from_slice(&hdr.src_cid.0);
    header.push(hdr.dst_cid.0.len() as u8);
    header.extend_from_slice(&hdr.dst_cid.0);
    header.push(0);
    let length = payload.len() + 17;
    header.extend_from_slice(&[0x40 | (length >> 8) as u8, length as u8]);
    let pn_offset = header.len();
    header.push(pn);
    let tag = keys
        .local
        .packet
        .encrypt_in_place(pn as u64, &header, &mut payload)
        .unwrap();
    payload.extend_from_slice(tag.as_ref());
    let mut first = header[0];
    let mut field = [pn];
    keys.local
        .header
        .encrypt_in_place(&payload[3..19], &mut first, &mut field)
        .unwrap();
    header[0] = first;
    header[pn_offset] = field[0];
    header.extend_from_slice(&payload);
    header
}

#[test]
fn close_from_the_peer() {
    let (mut client, initial) = Connection::connect("localhost", test_client_config()).unwrap();
    let p = server_packet(
        &initial,
        7,
        &[Frame::ConnectionClose {
            error_code: 0x0a,
            frame_type: Some(6),
            reason: bytes::Bytes::from_static(b"no"),
        }],
    );
    assert_eq!(client.ingest(&p).unwrap(), p.len());
    assert!(client.is_closed());
    assert!(matches!(
        client.close_reason(),
        Some(ConnectionError::Transport(TransportError::ProtocolViolation))
    ));
    assert_eq!(client.initial_space.largest_recv_pn(), 7);
    assert!(client.initial_space.time_since_last_recv().is_some());
    // A closed connection refuses everything.
    assert!(matches!(client.ingest(&p).unwrap_err(), ConnectionError::Closed));
    assert!(matches!(
        client.egest(&mut [0u8; 2048]).unwrap_err(),
        ConnectionError::Closed
    ));
    assert_eq!(client.initial_space.largest_recv_pn(), 7);
}

#[test]
fn close_with_an_unknown_code() {
    let (mut client, initial) = Connection::connect("localhost", test_client_config()).unwrap();
    let p = server_packet(
        &initial,
        0,
        &[Frame::ConnectionClose {
            error_code: 0x77,
            frame_type: None,
            reason: bytes::Bytes::new(),
        }],
    );
    client.ingest(&p).unwrap();
    assert!(matches!(
        client.close_reason(),
        Some(ConnectionError::Transport(TransportError::InternalError))
    ));
}

#[test]
fn received_packets_are_acknowledged() {
    let (mut client, initial) = Connection::connect("localhost", test_client_config()).unwrap();
    for pn in [3u8, 9, 5] {
        let p = server_packet(&initial, pn, &[Frame::Ping]);
        client.ingest(&p).unwrap();
    }
    assert_eq!(client.initial_space.largest_recv_pn(), 9);
    let sent = packets(&mut client);
    assert_eq!(sent.len(), 1);
    assert!(sent[0].len() >= 1200);
    let (hdr, _) = parse_long_header(&sent[0]).unwrap();
    let keys = server_initial_keys(&hdr.dst_cid.0).unwrap();
    let (frames, pn) = decrypt_initial(&sent[0], &hdr, &keys).unwrap();
    assert_eq!(pn, 1);
    match &frames[0] {
        Frame::Ack { largest_ack, ack_delay, ranges, ecn } => {
            assert_eq!((*largest_ack, *ack_delay), (9, 0));
            assert_eq!(ranges.len(), 1);
            assert_eq!((ranges[0].gap, ranges[0].range), (0, 2));
            assert!(ecn.is_none());
        }
        other => panic!("expected an ACK, got {other:?}"),
    }
    assert!(frames[1..].iter().all(|f| *f == Frame::Padding));
}

#[test]
fn out_of_order_handshake_data_is_dropped() {
    let (mut client, initial) = Connection::connect("localhost", test_client_config()).unwrap();
    let p = server_packet(
        &initial,
        0,
        &[Frame::Crypto {
            offset: 10,
            data: bytes::Bytes::from_static(b"garbage"),
        }],
    );
    assert_eq!(client.ingest(&p).unwrap(), p.len());
    // The same data at the expected offset reaches TLS, which refuses it.
    let p = server_packet(
        &initial,
        1,
        &[Frame::Crypto {
            offset: 0,
            data: bytes::Bytes::from_static(b"\xffgarbage"),
        }],
    );
    assert!(matches!(client.ingest(&p).unwrap_err(), ConnectionError::Tls(_)));
    assert_eq!(client.initial_space.largest_recv_pn(), 1);
}

#[test]
fn unparsable_frames_are_refused() {
    let (mut client, initial) = Connection::connect("localhost", test_client_config()).unwrap();
    let mut p = server_packet(&initial, 2, &[Frame::Ping]);
    assert!(client.ingest(&p).is_ok());
    p[20] ^= 0xff;
    assert!(client.ingest(&p).is_err());
    assert_eq!(client.initial_space.largest_recv_pn(), 2);
}

#[test]
fn initial_keys_of_the_two_sides_match() {
    let client = client_initial_keys(b"connection id").unwrap();
    let server = server_initial_keys(b"connection id").unwrap();
    let other = server_initial_keys(b"another id").unwrap();
    assert_eq!(client.local.packet.tag_len(), 16);
    assert_eq!(client.local.header.sample_len(), 16);
    for (from, to, stranger) in [
        (&client.local, &server.remote, &other.remote),
        (&server.local, &client.remote, &other.local),
    ] {
        let mut data = b"some payload".to_vec();
        let tag = from.packet.encrypt_in_place(5, b"header", &mut data).unwrap();
        assert_ne!(&data, b"some payload");
        data.extend_from_slice(tag.as_ref());
        assert!(stranger
            .packet
            .decrypt_in_place(5, b"header", &mut data.clone())
            .is_err());
        assert!(to
            .packet
            .decrypt_in_place(6, b"header", &mut data.clone())
            .is_err());
        let plain = to.packet.decrypt_in_place(5, b"header", &mut data).unwrap();
        assert_eq!(plain, b"some payload");
    }
}

fn client_session() -> TlsSession {
    let name = rustls::pki_types::ServerName::try_from("localhost").unwrap();
    TlsSession::client(test_client_config(), name).unwrap()
}

#[test]
fn first_packet_carries_what_it_is_given() {
    let mut tls = client_session();
    let (hello, _) = tls.write_hs();
    let (conn, packet) =
        Connection::connect_with(tls, &hello, Some(vec![7; 8]), Some(vec![9; 8])).unwrap();
    assert!(packet.len() >= 1200);
    assert_eq!(conn.version(), VERSION_1);
    assert!(!conn.is_established() && !conn.is_closed());
    assert_eq!(conn.initial_space.peek_send_pn(), 1);
    let (hdr, _) = parse_long_header(&packet).unwrap();
    assert_eq!(&hdr.dst_cid.0[..], &[7; 8]);
    assert_eq!(&hdr.src_cid.0[..], &[9; 8]);
    let keys = server_initial_keys(&[7; 8]).unwrap();
    let (frames, pn) = decrypt_initial(&packet, &hdr, &keys).unwrap();
    assert_eq!(pn, 0);
    match &frames[0] {
        Frame::Crypto { offset, data } => {
            assert_eq!(*offset, 0);
            assert_eq!(&data[..], &hello[..]);
        }
        other => panic!("expected CRYPTO, got {other:?}"),
    }
    assert!(frames[1..].iter().all(|f| *f == Frame::Padding));
}

#[test]
fn connecting_needs_both_ids() {
    for (dst, src) in [(None, Some(vec![9u8; 8])), (Some(vec![7u8; 8]), None)] {
        let mut tls = client_session();
        let (hello, _) = tls.write_hs();
        match Connection::connect_with(tls, &hello, dst, src) {
            Err(ConnectionError::Transport(e)) => assert_eq!(e, TransportError::InternalError),
            _ => panic!("expected an internal error"),
        }
    }
}

#[test]
fn refused_hello_is_not_accepted() {
    let (_client, packet) = Connection::connect("localhost", test_client_config()).unwrap();
    let (hdr, _) = parse_long_header(&packet).unwrap();
    let keys = server_initial_keys(&hdr.dst_cid.0).unwrap();
    let mut tls = TlsSession::server(test_server_config()).unwrap();
    let garbage = vec![0xffu8; 40];
    let outcome = tls.read_hs(&garbage);
    assert!(outcome.is_err());
    let expected = outcome.clone().unwrap_err();
    match Connection::accept_with(tls, outcome, &hdr, keys, &garbage) {
        Err(ConnectionError::Tls(e)) => assert_eq!(e, expected),
        _ => panic!("expected a TLS error"),
    }
}

#[test]
fn unusable_server_config_is_refused() {
    let _ = install_provider();
    let mut config = (*test_server_config()).clone();
    assert!(TlsSession::server(Arc::new(config.clone())).is_ok());
    config.max_early_data_size = 5;
    match TlsSession::server(Arc::new(config)) {
        Err(e) => assert_eq!(
            e,
            rustls::Error::General(
                "QUIC sessions must set a max early data of 0 or 2^32-1".into()
            )
        ),
        Ok(_) => panic!("expected an error"),
    }
}

#[test]
fn refused_configuration_accepts_nothing() {
    let (_client, packet) = Connection::connect("localhost", test_client_config()).unwrap();
    let mut config = (*test_server_config()).clone();
    config.max_early_data_size = 5;
    match Connection::accept(&packet, Arc::new(config)) {
        Err(ConnectionError::Tls(rustls::Error::General(text))) => {
            assert_eq!(text, "QUIC sessions must set a max early data of 0 or 2^32-1")
        }
        _ => panic!("expected a TLS error"),
    }
}

#[test]
fn close_frame_closes_for_good() {
    for (code, expected) in [
        (0x0, TransportError::NoError),
        (0xa, TransportError::ProtocolViolation),
        (0x4242_4242, TransportError::InternalError),
    ] {
        let (mut client, _server) = established();
        let close = Frame::ConnectionClose {
            error_code: code,
            frame_type: Some(6),
            reason: Bytes::from_static(b"over"),
        };
        let r = client.process_frames(&vec![close], PacketNumberSpace::ApplicationData);
        assert!(r.is_ok());
        assert!(client.is_closed() && !client.is_established());
        match client.close_reason() {
            Some(ConnectionError::Transport(e)) => assert_eq!(*e, expected),
            other => panic!("expected a transport error, got {other:?}"),
        }
        for _ in 0..2 {
            assert!(matches!(client.ingest(&[]).unwrap_err(), ConnectionError::Closed));
            assert!(matches!(client.ingest(&[0x40; 40]).unwrap_err(), ConnectionError::Closed));
            assert!(matches!(
                client.egest(&mut [0u8; 2048]).unwrap_err(),
                ConnectionError::Closed
            ));
        }
    }
}

#[test]
fn spaces_know_what_they_are() {
    let (client, server) = established();
    for id in [
        PacketNumberSpace::Initial,
        PacketNumberSpace::Handshake,
        PacketNumberSpace::ApplicationData,
    ] {
        assert_eq!(client.space_ref(id).id(), id);
        assert_eq!(server.space_ref(id).id(), id);
    }
    assert_eq!(client.appdata_space.id, PacketNumberSpace::ApplicationData);
}

#[test]
fn refused_hello_is_the_one_of_the_packet() {
    // A packet that opens, but whose CRYPTO frame holds no ClientHello.
    let tls = client_session();
    let (_client, packet) =
        Connection::connect_with(tls, &vec![0xff; 8], Some(vec![1; 8]), Some(vec![2; 8])).unwrap();
    let mut session = TlsSession::server(test_server_config()).ok().unwrap();
    let refusal = session.read_hs(&[0xff; 8]).unwrap_err();
    match Connection::accept(&packet, test_server_config()) {
        Err(ConnectionError::Tls(e)) => assert_eq!(e, refusal),
        _ => panic!("expected a TLS error"),
    }
}
