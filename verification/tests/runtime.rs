use deerquic::connection::Connection;
use deerquic::crypto::install_provider;
use deerquic::error::{ConnectionError, TransportError};
use deerquic::packet::PacketError;
use deerquic::runtime::{
    drive_verdict, handshake_verdict, EventLoop, IoAction, IoEvent, Verdict, MAX_DGRAM,
};
use std::collections::VecDeque;
use std::sync::Arc;

#[derive(Debug)]
struct SkipVerify;

impl rustls::client::danger::ServerCertVerifier for SkipVerify {
    fn verify_server_cert(
        &self,
        _end_entity: &rustls::pki_types::CertificateDer<'_>,
        _intermediates: &[rustls::pki_types::CertificateDer<'_>],
        _server_name: &rustls::pki_types::ServerName<'_>,
        _ocsp_response: &[u8],
        _now: rustls::pki_types::UnixTime,
    ) -> Result<rustls::client::danger::ServerCertVerified, rustls::Error> {
        Ok(rustls::client::danger::ServerCertVerified::assertion())
    }

    fn verify_tls12_signature(
        &self,
        _message: &[u8],
        _cert: &rustls::pki_types::CertificateDer<'_>,
        _dss: &rustls::DigitallySignedStruct,
    ) -> Result<rustls::client::danger::HandshakeSignatureValid, rustls::Error> {
        Ok(rustls::client::danger::HandshakeSignatureValid::assertion())
    }

    fn verify_tls13_signature(
        &self,
        _message: &[u8],
        _cert: &rustls::pki_types::CertificateDer<'_>,
        _dss: &rustls::DigitallySignedStruct,
    ) -> Result<rustls::client::danger::HandshakeSignatureValid, rustls::Error> {
        Ok(rustls::client::danger::HandshakeSignatureValid::assertion())
    }

    fn supported_verify_schemes(&self) -> Vec<rustls::SignatureScheme> {
        vec![
            rustls::SignatureScheme::RSA_PKCS1_SHA256,
            rustls::SignatureScheme::ECDSA_NISTP256_SHA256,
            rustls::SignatureScheme::RSA_PSS_SHA256,
            rustls::SignatureScheme::ED25519,
        ]
    }
}

fn test_client_config() -> Arc<rustls::ClientConfig> {
    let _ = install_provider();
    Arc::new(
        rustls::ClientConfig::builder_with_protocol_versions(&[&rustls::version::TLS13])
            .dangerous()
            .with_custom_certificate_verifier(Arc::new(SkipVerify))
            .with_no_client_auth(),
    )
}

fn test_server_config() -> Arc<rustls::ServerConfig> {
    let cert = rcgen::generate_simple_self_signed(vec!["localhost".into()]).unwrap();
    let cert_der = cert.cert.der().clone();
    let key_der = cert.key_pair.serialize_der();
    let key = rustls::pki_types::PrivateKeyDer::Pkcs8(key_der.into());
    let config = rustls::ServerConfig::builder_with_protocol_versions(&[&rustls::version::TLS13])
        .with_no_client_auth()
        .with_single_cert(vec![cert_der], key)
        .unwrap();
    Arc::new(config)
}

/// Runs one step of an event loop against queues of datagrams.
fn step(
    side: &mut EventLoop,
    inbox: &mut VecDeque<Vec<u8>>,
    outbox: &mut VecDeque<Vec<u8>>,
) -> Result<bool, ConnectionError> {
    let mut action = side.begin_step();
    loop {
        let event = match action {
            IoAction::Poll => {
                if inbox.is_empty() {
                    IoEvent::PollIdle
                } else {
                    IoEvent::PollReady
                }
            }
            IoAction::Receive => match inbox.pop_front() {
                Some(datagram) => {
                    side.recv_buf()[..datagram.len()].copy_from_slice(&datagram);
                    IoEvent::Received(datagram.len())
                }
                None => IoEvent::ReceiveFailed,
            },
            IoAction::Send(n) => {
                outbox.push_back(side.outgoing(n).to_vec());
                IoEvent::Sent
            }
            IoAction::Done(worked) => return Ok(worked),
            IoAction::Fail(e) => return Err(e),
            IoAction::Overrun => panic!("overrun"),
        };
        assert!(side.expects(event));
        action = side.on_event(event);
    }
}

fn pair() -> (EventLoop, EventLoop) {
    let (client, initial) = Connection::connect("localhost", test_client_config()).unwrap();
    let server = Connection::accept(&initial, test_server_config()).unwrap();
    (EventLoop::new(client), EventLoop::new(server))
}

#[test]
fn event_loops_complete_a_handshake() {
    let (mut client, mut server) = pair();
    let (mut to_client, mut to_server) = (VecDeque::new(), VecDeque::new());
    let mut steps = 0;
    loop {
        match drive_verdict(steps, client.is_established(), server.is_established()) {
            Verdict::Done => break,
            Verdict::Fail => panic!("handshake takes too long"),
            Verdict::Step => {}
        }
        let _ = step(&mut client, &mut to_client, &mut to_server);
        let _ = step(&mut server, &mut to_server, &mut to_client);
        steps += 1;
    }
    assert!(client.conn().is_established());
    assert!(server.conn().is_established());
    assert!(client.conn().appdata_space.has_keys());
}

#[test]
fn idle_step_does_no_work() {
    let (mut client, _) = pair();
    let (mut inbox, mut outbox) = (VecDeque::new(), VecDeque::new());
    assert!(!step(&mut client, &mut inbox, &mut outbox).unwrap());
    assert!(outbox.is_empty());
}

#[test]
fn failures_end_the_step() {
    let (mut client, mut server) = pair();
    assert!(matches!(client.begin_step(), IoAction::Poll));
    assert!(!client.expects(IoEvent::Sent));
    assert!(matches!(
        client.on_event(IoEvent::PollFailed),
        IoAction::Fail(ConnectionError::Transport(TransportError::InternalError))
    ));
    // The server has packets to send, and cannot.
    match server.begin_flush() {
        IoAction::Send(n) => assert_eq!(server.outgoing(n)[0] & 0xf0, 0xc0),
        _ => panic!("expected a packet"),
    }
    assert!(matches!(
        server.on_event(IoEvent::SendFailed),
        IoAction::Fail(ConnectionError::Transport(TransportError::InternalError))
    ));
    assert!(!server.expects(IoEvent::SendFailed));
}

#[test]
fn rejected_datagram_ends_the_step() {
    let (mut client, _) = pair();
    let mut inbox: VecDeque<Vec<u8>> = VecDeque::from(vec![vec![0xc0, 0], vec![0xc0, 0]]);
    let mut outbox = VecDeque::new();
    assert!(matches!(
        step(&mut client, &mut inbox, &mut outbox).unwrap_err(),
        ConnectionError::Packet(PacketError::BufferTooShort { needed: 5, actual: 2 })
    ));
    assert_eq!(inbox.len(), 1);
}

#[test]
fn empty_datagram_ends_receiving() {
    let (mut client, _) = pair();
    let mut inbox: VecDeque<Vec<u8>> = VecDeque::from(vec![vec![], vec![1]]);
    let mut outbox = VecDeque::new();
    assert!(step(&mut client, &mut inbox, &mut outbox).unwrap());
    assert_eq!(inbox.len(), 1);
    assert_eq!(client.recv_buf().len(), MAX_DGRAM);
    client.conn_mut().send_data(b"x");
    assert!(!client.is_established());
}

#[test]
fn handshake_limits() {
    assert_eq!(handshake_verdict(0, false), Verdict::Step);
    assert_eq!(handshake_verdict(0, true), Verdict::Done);
    assert_eq!(handshake_verdict(1000, false), Verdict::Step);
    assert_eq!(handshake_verdict(1001, false), Verdict::Fail);
    assert_eq!(handshake_verdict(1001, true), Verdict::Fail);
    assert_eq!(drive_verdict(1001, true, true), Verdict::Done);
    assert_eq!(drive_verdict(1001, true, false), Verdict::Fail);
    assert_eq!(drive_verdict(1000, false, true), Verdict::Step);
}
