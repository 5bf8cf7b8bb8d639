use deerquic::crypto::{install_outcome, install_provider, CryptoError};
use deerquic::error::{ConnectionError, TransportError};
use deerquic::frame::FrameError;
use deerquic::handshake::HandshakeError;
use deerquic::packet::PacketError;
use deerquic::varint::VarIntError;

#[test]
fn codes_round_trip() {
    for code in 0..0x300u64 {
        match TransportError::from_code(code) {
            Some(e) => {
                assert_eq!(e.to_code(), code);
                assert!(code <= 0x11 || (0x100..=0x1ff).contains(&code));
            }
            None => assert!(code > 0x11 && !(0x100..=0x1ff).contains(&code)),
        }
    }
    assert_eq!(TransportError::from_code(u64::MAX), None);
    assert_eq!(TransportError::from_code(0x0a), Some(TransportError::ProtocolViolation));
    assert_eq!(TransportError::from_code(0x11), Some(TransportError::VersionNegotiationError));
    assert_eq!(TransportError::from_code(0x128), Some(TransportError::CryptoError(0x28)));
    assert_eq!(TransportError::CryptoError(255).to_code(), 0x1ff);
}

#[test]
fn errors_in_words() {
    for (e, words) in [
        (TransportError::NoError, "no error"),
        (TransportError::InternalError, "internal error"),
        (TransportError::ConnectionRefused, "connection refused"),
        (TransportError::FlowControlError, "flow control error"),
        (TransportError::StreamLimitError, "stream limit error"),
        (TransportError::StreamStateError, "stream state error"),
        (TransportError::FinalSizeError, "final size error"),
        (TransportError::FrameEncodingError, "frame encoding error"),
        (TransportError::TransportParameterError, "transport parameter error"),
        (TransportError::ConnectionIdLimitError, "connection ID limit error"),
        (TransportError::ProtocolViolation, "protocol violation"),
        (TransportError::InvalidToken, "invalid token"),
        (TransportError::ApplicationError, "application error"),
        (TransportError::CryptoBufferExceeded, "crypto buffer exceeded"),
        (TransportError::KeyUpdateError, "key update error"),
        (TransportError::AeadLimitReached, "AEAD limit reached"),
        (TransportError::NoViablePath, "no viable path"),
        (TransportError::VersionNegotiationError, "version negotiation error"),
        (TransportError::CryptoError(0), "crypto error (alert 0)"),
        (TransportError::CryptoError(40), "crypto error (alert 40)"),
        (TransportError::CryptoError(109), "crypto error (alert 109)"),
        (TransportError::CryptoError(255), "crypto error (alert 255)"),
    ] {
        assert_eq!(e.message(), words);
    }
}

#[test]
fn errors_convert() {
    let internal = |e: ConnectionError| {
        matches!(e, ConnectionError::Transport(TransportError::InternalError))
    };
    assert!(internal(CryptoError::NoQuicSuite.into()));
    assert!(internal(VarIntError::ValueTooLarge { value: 1 }.into()));
    assert!(matches!(
        ConnectionError::from(FrameError::InvalidStream),
        ConnectionError::Frame(FrameError::InvalidStream)
    ));
    assert!(matches!(
        ConnectionError::from(PacketError::FixedBitNotSet),
        ConnectionError::Packet(PacketError::FixedBitNotSet)
    ));
    assert!(matches!(
        ConnectionError::from(rustls::Error::DecryptError),
        ConnectionError::Tls(rustls::Error::DecryptError)
    ));
    let nested = HandshakeError::from(CryptoError::ProviderInstall);
    assert!(matches!(
        ConnectionError::from(nested),
        ConnectionError::Handshake(HandshakeError::Crypto(CryptoError::ProviderInstall))
    ));
    assert!(matches!(
        HandshakeError::from(FrameError::UnknownType(9)),
        HandshakeError::Frame(FrameError::UnknownType(9))
    ));
    assert!(matches!(
        HandshakeError::from(VarIntError::ValueTooLarge { value: 2 }),
        HandshakeError::VarInt(VarIntError::ValueTooLarge { value: 2 })
    ));
    assert!(matches!(
        HandshakeError::from(rustls::Error::EncryptError),
        HandshakeError::Tls(rustls::Error::EncryptError)
    ));
}

#[test]
fn only_a_closed_connection_sends_no_close() {
    assert!(!ConnectionError::Closed.should_send_close());
    assert!(ConnectionError::Timeout("idle".into()).should_send_close());
    assert!(ConnectionError::Transport(TransportError::NoError).should_send_close());
    assert!(ConnectionError::Application { code: 1, reason: String::new() }.should_send_close());
}

#[test]
fn provider_is_installed_once() {
    let _ = install_provider();
    assert_eq!(install_provider(), Err(CryptoError::ProviderInstall));
    assert!(rustls::crypto::CryptoProvider::get_default().is_some());
    assert_eq!(install_outcome(true), Ok(()));
    assert_eq!(install_outcome(false), Err(CryptoError::ProviderInstall));
}
