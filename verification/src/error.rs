//! QUIC error codes and connection errors.

use vstd::prelude::*;

use crate::crypto::CryptoError;
use crate::frame::FrameError;
use crate::handshake::HandshakeError;
use crate::packet::PacketError;
use crate::varint::{VarInt, VarIntError};

verus! {

/// QUIC transport-level error codes.
#[derive(Debug, Clone, Copy, PartialEq, Eq)]
pub enum TransportError {
    NoError,
    InternalError,
    ConnectionRefused,
    FlowControlError,
    StreamLimitError,
    StreamStateError,
    FinalSizeError,
    FrameEncodingError,
    TransportParameterError,
    ConnectionIdLimitError,
    ProtocolViolation,
    InvalidToken,
    ApplicationError,
    CryptoBufferExceeded,
    KeyUpdateError,
    AeadLimitReached,
    NoViablePath,
    VersionNegotiationError,
    /// Cryptographic error (0x0100 to 0x01ff). The enclosed value is the
    /// TLS alert code offset from 0x0100.
    CryptoError(u8),
}

/// The code that stands for an error on the wire.
pub open spec fn transport_code(e: TransportError) -> u64 {
    match e {
        TransportError::NoError => 0x00,
        TransportError::InternalError => 0x01,
        TransportError::ConnectionRefused => 0x02,
        TransportError::FlowControlError => 0x03,
        TransportError::StreamLimitError => 0x04,
        TransportError::StreamStateError => 0x05,
        TransportError::FinalSizeError => 0x06,
        TransportError::FrameEncodingError => 0x07,
        TransportError::TransportParameterError => 0x08,
        TransportError::ConnectionIdLimitError => 0x09,
        TransportError::ProtocolViolation => 0x0a,
        TransportError::InvalidToken => 0x0b,
        TransportError::ApplicationError => 0x0c,
        TransportError::CryptoBufferExceeded => 0x0d,
        TransportError::KeyUpdateError => 0x0e,
        TransportError::AeadLimitReached => 0x0f,
        TransportError::NoViablePath => 0x10,
        TransportError::VersionNegotiationError => 0x11,
        TransportError::CryptoError(alert) => (0x0100 + alert) as u64,
    }
}

/// The error that a code stands for, if any.
pub open spec fn transport_error_of(code: u64) -> Option<TransportError> {
    match code {
        0x00 => Some(TransportError::NoError),
        0x01 => Some(TransportError::InternalError),
        0x02 => Some(TransportError::ConnectionRefused),
        0x03 => Some(TransportError::FlowControlError),
        0x04 => Some(TransportError::StreamLimitError),
        0x05 => Some(TransportError::StreamStateError),
        0x06 => Some(TransportError::FinalSizeError),
        0x07 => Some(TransportError::FrameEncodingError),
        0x08 => Some(TransportError::TransportParameterError),
        0x09 => Some(TransportError::ConnectionIdLimitError),
        0x0a => Some(TransportError::ProtocolViolation),
        0x0b => Some(TransportError::InvalidToken),
        0x0c => Some(TransportError::ApplicationError),
        0x0d => Some(TransportError::CryptoBufferExceeded),
        0x0e => Some(TransportError::KeyUpdateError),
        0x0f => Some(TransportError::AeadLimitReached),
        0x10 => Some(TransportError::NoViablePath),
        0x11 => Some(TransportError::VersionNegotiationError),
        _ => if 0x0100 <= code <= 0x01ff {
            Some(TransportError::CryptoError((code - 0x0100) as u8))
        } else {
            None
        },
    }
}

/// How an error reads, in words.
pub open spec fn transport_words(e: TransportError) -> Seq<char> {
    match e {
        TransportError::NoError => "no error"@,
        TransportError::InternalError => "internal error"@,
        TransportError::ConnectionRefused => "connection refused"@,
        TransportError::FlowControlError => "flow control error"@,
        TransportError::StreamLimitError => "stream limit error"@,
        TransportError::StreamStateError => "stream state error"@,
        TransportError::FinalSizeError => "final size error"@,
        TransportError::FrameEncodingError => "frame encoding error"@,
        TransportError::TransportParameterError => "transport parameter error"@,
        TransportError::ConnectionIdLimitError => "connection ID limit error"@,
        TransportError::ProtocolViolation => "protocol violation"@,
        TransportError::InvalidToken => "invalid token"@,
        TransportError::ApplicationError => "application error"@,
        TransportError::CryptoBufferExceeded => "crypto buffer exceeded"@,
        TransportError::KeyUpdateError => "key update error"@,
        TransportError::AeadLimitReached => "AEAD limit reached"@,
        TransportError::NoViablePath => "no viable path"@,
        TransportError::VersionNegotiationError => "version negotiation error"@,
        TransportError::CryptoError(alert) => "crypto error (alert "@ + decimal(alert as nat)
            + ")"@,
    }
}

/// The character of a decimal digit.
pub open spec fn digit(d: nat) -> char {
    (('0' as nat) + d) as char
}

/// `n` in decimal, without leading zeros.
pub open spec fn decimal(n: nat) -> Seq<char>
    decreases n,
{
    if n < 10 {
        seq![digit(n)]
    } else {
        decimal(n / 10).push(digit(n % 10))
    }
}

impl TransportError {
    /// Decode from a QUIC varint error code.
    pub fn from_code(code: VarInt) -> (r: Option<Self>)
        ensures
            r == transport_error_of(code),
    {
        match code {
            0x00 => Some(Self::NoError),
            0x01 => Some(Self::InternalError),
            0x02 => Some(Self::ConnectionRefused),
            0x03 => Some(Self::FlowControlError),
            0x04 => Some(Self::StreamLimitError),
            0x05 => Some(Self::StreamStateError),
            0x06 => Some(Self::FinalSizeError),
            0x07 => Some(Self::FrameEncodingError),
            0x08 => Some(Self::TransportParameterError),
            0x09 => Some(Self::ConnectionIdLimitError),
            0x0a => Some(Self::ProtocolViolation),
            0x0b => Some(Self::InvalidToken),
            0x0c => Some(Self::ApplicationError),
            0x0d => Some(Self::CryptoBufferExceeded),
            0x0e => Some(Self::KeyUpdateError),
            0x0f => Some(Self::AeadLimitReached),
            0x10 => Some(Self::NoViablePath),
            0x11 => Some(Self::VersionNegotiationError),
            _ => {
                if 0x0100 <= code && code <= 0x01ff {
                    Some(Self::CryptoError((code - 0x0100) as u8))
                } else {
                    None
                }
            },
        }
    }

    /// Encode to a QUIC varint.
    pub fn to_code(self) -> (code: VarInt)
        ensures
            code == transport_code(self),
    {
        match self {
            Self::NoError => 0x00,
            Self::InternalError => 0x01,
            Self::ConnectionRefused => 0x02,
            Self::FlowControlError => 0x03,
            Self::StreamLimitError => 0x04,
            Self::StreamStateError => 0x05,
            Self::FinalSizeError => 0x06,
            Self::FrameEncodingError => 0x07,
            Self::TransportParameterError => 0x08,
            Self::ConnectionIdLimitError => 0x09,
            Self::ProtocolViolation => 0x0a,
            Self::InvalidToken => 0x0b,
            Self::ApplicationError => 0x0c,
            Self::CryptoBufferExceeded => 0x0d,
            Self::KeyUpdateError => 0x0e,
            Self::AeadLimitReached => 0x0f,
            Self::NoViablePath => 0x10,
            Self::VersionNegotiationError => 0x11,
            Self::CryptoError(alert) => 0x0100 + alert as VarInt,
        }
    }

    /// The error in words.
    pub fn message(&self) -> (text: String)
        ensures
            text@ == transport_words(*self),
    {
        match self {
            Self::NoError => "no error".to_string(),
            Self::InternalError => "internal error".to_string(),
            Self::ConnectionRefused => "connection refused".to_string(),
            Self::FlowControlError => "flow control error".to_string(),
            Self::StreamLimitError => "stream limit error".to_string(),
            Self::StreamStateError => "stream state error".to_string(),
            Self::FinalSizeError => "final size error".to_string(),
            Self::FrameEncodingError => "frame encoding error".to_string(),
            Self::TransportParameterError => "transport parameter error".to_string(),
            Self::ConnectionIdLimitError => "connection ID limit error".to_string(),
            Self::ProtocolViolation => "protocol violation".to_string(),
            Self::InvalidToken => "invalid token".to_string(),
            Self::ApplicationError => "application error".to_string(),
            Self::CryptoBufferExceeded => "crypto buffer exceeded".to_string(),
            Self::KeyUpdateError => "key update error".to_string(),
            Self::AeadLimitReached => "AEAD limit reached".to_string(),
            Self::NoViablePath => "no viable path".to_string(),
            Self::VersionNegotiationError => "version negotiation error".to_string(),
            Self::CryptoError(alert) => {
                let mut text: String = "crypto error (alert ".to_string();
                append_decimal(&mut text, *alert);
                text.append(")");
                text
            },
        }
    }
}

/// The decimal digit `d` as text.
fn digit_text(d: u8) -> (t: &'static str)
    requires
        d < 10,
    ensures
        t@ == seq![digit(d as nat)],
{
    proof {
        reveal_strlit("0");
        reveal_strlit("1");
        reveal_strlit("2");
        reveal_strlit("3");
        reveal_strlit("4");
        reveal_strlit("5");
        reveal_strlit("6");
        reveal_strlit("7");
        reveal_strlit("8");
        reveal_strlit("9");
    }
    match d {
        0 => "0",
        1 => "1",
        2 => "2",
        3 => "3",
        4 => "4",
        5 => "5",
        6 => "6",
        7 => "7",
        8 => "8",
        _ => "9",
    }
}

/// Appends `n` in decimal.
fn append_decimal(text: &mut String, n: u8)
    ensures
        final(text)@ == old(text)@ + decimal(n as nat),
{
    reveal_with_fuel(decimal, 4);
    if n >= 100 {
        text.append(digit_text(n / 100));
    }
    if n >= 10 {
        text.append(digit_text(n / 10 % 10));
    }
    text.append(digit_text(n % 10));
    assert(text@ =~= old(text)@ + decimal(n as nat));
}

/// Law: every error is the one that its own code stands for.
pub proof fn law_transport_code_round_trip(e: TransportError)
    ensures
        transport_error_of(transport_code(e)) == Some(e),
{
}

/// Law: a code that stands for an error is that error's code.
pub proof fn law_transport_error_round_trip(code: u64)
    ensures
        transport_error_of(code) matches Some(e) ==> transport_code(e) == code,
{
}

/// Law: which code stands for which error. The codes from 0x100 to 0x1ff stand
/// for TLS alerts, by their low byte, and no other code stands for anything.
pub proof fn law_transport_codes(code: u64, alert: u8)
    ensures
        transport_code(TransportError::NoError) == 0,
        transport_code(TransportError::InternalError) == 1,
        transport_code(TransportError::ConnectionRefused) == 2,
        transport_code(TransportError::FlowControlError) == 3,
        transport_code(TransportError::StreamLimitError) == 4,
        transport_code(TransportError::StreamStateError) == 5,
        transport_code(TransportError::FinalSizeError) == 6,
        transport_code(TransportError::FrameEncodingError) == 7,
        transport_code(TransportError::TransportParameterError) == 8,
        transport_code(TransportError::ConnectionIdLimitError) == 9,
        transport_code(TransportError::ProtocolViolation) == 10,
        transport_code(TransportError::InvalidToken) == 11,
        transport_code(TransportError::ApplicationError) == 12,
        transport_code(TransportError::CryptoBufferExceeded) == 13,
        transport_code(TransportError::KeyUpdateError) == 14,
        transport_code(TransportError::AeadLimitReached) == 15,
        transport_code(TransportError::NoViablePath) == 16,
        transport_code(TransportError::VersionNegotiationError) == 17,
        transport_code(TransportError::CryptoError(alert)) == 256 + alert,
        transport_error_of(code) is Some <==> code <= 17 || 256 <= code < 512,
        transport_error_of(code) matches Some(e) ==> transport_code(e) == code,
{
}

/// Law: calls of the two conversions undo each other.
pub proof fn law_codes_convert(
    e: TransportError,
    code: VarInt,
    c: VarInt,
    r: Option<TransportError>,
    s: Option<TransportError>,
)
    requires
        call_ensures(TransportError::to_code, (e,), c),
        call_ensures(TransportError::from_code, (c,), r),
        call_ensures(TransportError::from_code, (code,), s),
    ensures
        c == transport_code(e),
        r == Some(e),
        s is Some <==> code <= 17 || 256 <= code < 512,
        s matches Some(f) ==> transport_code(f) == code,
{
    law_transport_code_round_trip(e);
    law_transport_codes(code, 0);
}

/// Top-level connection error.
#[derive(Debug)]
pub enum ConnectionError {
    /// A transport error.
    Transport(TransportError),
    /// An application error.
    Application { code: VarInt, reason: String },
    /// A TLS error.
    Tls(rustls::Error),
    /// A handshake error.
    Handshake(HandshakeError),
    /// A frame error.
    Frame(FrameError),
    /// A packet error.
    Packet(PacketError),
    /// A timer expired.
    Timeout(String),
    /// The connection is closed.
    Closed,
}

impl From<CryptoError> for ConnectionError {
    fn from(_e: CryptoError) -> (r: Self) {
        Self::Transport(TransportError::InternalError)
    }
}

impl vstd::std_specs::convert::FromSpecImpl<CryptoError> for ConnectionError {
    open spec fn obeys_from_spec() -> bool {
        true
    }

    open spec fn from_spec(_e: CryptoError) -> ConnectionError {
        ConnectionError::Transport(TransportError::InternalError)
    }
}

impl From<VarIntError> for ConnectionError {
    fn from(_e: VarIntError) -> (r: Self) {
        Self::Transport(TransportError::InternalError)
    }
}

impl vstd::std_specs::convert::FromSpecImpl<VarIntError> for ConnectionError {
    open spec fn obeys_from_spec() -> bool {
        true
    }

    open spec fn from_spec(_e: VarIntError) -> ConnectionError {
        ConnectionError::Transport(TransportError::InternalError)
    }
}

impl From<rustls::Error> for ConnectionError {
    fn from(e: rustls::Error) -> (r: Self) {
        Self::Tls(e)
    }
}

impl vstd::std_specs::convert::FromSpecImpl<rustls::Error> for ConnectionError {
    open spec fn obeys_from_spec() -> bool {
        true
    }

    open spec fn from_spec(e: rustls::Error) -> ConnectionError {
        ConnectionError::Tls(e)
    }
}

impl From<HandshakeError> for ConnectionError {
    fn from(e: HandshakeError) -> (r: Self) {
        Self::Handshake(e)
    }
}

impl vstd::std_specs::convert::FromSpecImpl<HandshakeError> for ConnectionError {
    open spec fn obeys_from_spec() -> bool {
        true
    }

    open spec fn from_spec(e: HandshakeError) -> ConnectionError {
        ConnectionError::Handshake(e)
    }
}

impl From<FrameError> for ConnectionError {
    fn from(e: FrameError) -> (r: Self) {
        Self::Frame(e)
    }
}

impl vstd::std_specs::convert::FromSpecImpl<FrameError> for ConnectionError {
    open spec fn obeys_from_spec() -> bool {
        true
    }

    open spec fn from_spec(e: FrameError) -> ConnectionError {
        ConnectionError::Frame(e)
    }
}

impl From<PacketError> for ConnectionError {
    fn from(e: PacketError) -> (r: Self) {
        Self::Packet(e)
    }
}

impl vstd::std_specs::convert::FromSpecImpl<PacketError> for ConnectionError {
    open spec fn obeys_from_spec() -> bool {
        true
    }

    open spec fn from_spec(e: PacketError) -> ConnectionError {
        ConnectionError::Packet(e)
    }
}

impl ConnectionError {
    /// Whether this error should cause a CONNECTION_CLOSE frame to be sent.
    pub fn should_send_close(&self) -> (close: bool)
        ensures
            close == !(*self is Closed),
    {
        match self {
            Self::Closed => false,
            _ => true,
        }
    }
}

/// Law: every error but that the connection is closed calls for CONNECTION_CLOSE.
pub proof fn law_should_send_close(e: &ConnectionError, close: bool)
    requires
        call_ensures(ConnectionError::should_send_close, (e,), close),
    ensures
        close <==> *e != ConnectionError::Closed,
{
}

} // verus!
