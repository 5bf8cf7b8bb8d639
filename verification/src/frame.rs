//! QUIC frame types and wire format.
//!
//! All 20 standard frame types. Each frame encodes its type as a minimal
//! varint (a single byte for all defined types).
//!
//! On the wire every frame is a type byte, a list of varints and a tail of
//! raw bytes: [`frame_lead`], [`frame_fields`] and [`frame_tail`] say which.
//! [`frame_at`] says what the front of a byte string parses to.

use bytes::Bytes;
use vstd::prelude::*;

use crate::buffer;
use crate::varint;
use crate::varint::{VarInt, VarIntError, VARINT_MAX};
use crate::wire;

verus! {

pub const FRAME_PADDING: u8 = 0x00;

pub const FRAME_PING: u8 = 0x01;

pub const FRAME_ACK: u8 = 0x02;

pub const FRAME_ACK_ECN: u8 = 0x03;

pub const FRAME_RESET_STREAM: u8 = 0x04;

pub const FRAME_STOP_SENDING: u8 = 0x05;

pub const FRAME_CRYPTO: u8 = 0x06;

pub const FRAME_NEW_TOKEN: u8 = 0x07;

/// The first of the eight STREAM types.
pub const FRAME_STREAM_BASE: u8 = 0x08;

pub const FRAME_MAX_DATA: u8 = 0x10;

pub const FRAME_MAX_STREAM_DATA: u8 = 0x11;

pub const FRAME_MAX_STREAMS_BIDI: u8 = 0x12;

pub const FRAME_MAX_STREAMS_UNI: u8 = 0x13;

pub const FRAME_DATA_BLOCKED: u8 = 0x14;

pub const FRAME_STREAM_DATA_BLOCKED: u8 = 0x15;

pub const FRAME_STREAMS_BLOCKED_BIDI: u8 = 0x16;

pub const FRAME_STREAMS_BLOCKED_UNI: u8 = 0x17;

pub const FRAME_NEW_CONNECTION_ID: u8 = 0x18;

pub const FRAME_RETIRE_CONNECTION_ID: u8 = 0x19;

pub const FRAME_PATH_CHALLENGE: u8 = 0x1a;

pub const FRAME_PATH_RESPONSE: u8 = 0x1b;

pub const FRAME_CONNECTION_CLOSE_QUIC: u8 = 0x1c;

pub const FRAME_CONNECTION_CLOSE_APP: u8 = 0x1d;

pub const FRAME_HANDSHAKE_DONE: u8 = 0x1e;

pub const STREAM_OFF_BIT: u8 = 0x04;

pub const STREAM_LEN_BIT: u8 = 0x02;

pub const STREAM_FIN_BIT: u8 = 0x01;

/// The largest frame type that a one-byte varint can carry.
pub const MAX_ONE_BYTE_TYPE: u64 = 63;

/// The longest connection ID.
pub const MAX_ID_LEN: usize = 20;

#[derive(Debug, Clone, Copy, PartialEq, Eq)]
pub enum FrameError {
    /// No frame has this type.
    UnknownType(u64),
    /// The type must use the minimal varint.
    NonMinimalType(u64),
    VarInt(VarIntError),
    /// The buffer ends before a field of `expected` bytes does.
    Underflow { frame_type: u64, expected: usize },
    /// A STREAM frame must have data when the LEN bit is set or absent.
    InvalidStream,
    /// PATH_CHALLENGE and PATH_RESPONSE data must be 8 bytes.
    InvalidPathData,
    /// The connection ID length is out of range (1..=20).
    InvalidCidLength(u8),
}

#[derive(Debug, Clone, Copy, PartialEq, Eq)]
pub struct AckRange {
    /// Number of contiguous unacknowledged packets preceding the acked range.
    pub gap: VarInt,
    /// Number of contiguous acknowledged packets in this range.
    pub range: VarInt,
}

#[derive(Debug, Clone, Copy, PartialEq, Eq)]
pub struct EcnCounts {
    pub ect0: VarInt,
    pub ect1: VarInt,
    pub ecn_ce: VarInt,
}

/// A connection ID (0 to 20 bytes).
#[derive(Debug, Clone, PartialEq, Eq, Hash)]
pub struct ConnectionId(pub Bytes);

impl View for ConnectionId {
    type V = Seq<u8>;

    open spec fn view(&self) -> Seq<u8> {
        buffer::bytes_content(&self.0)
    }
}

impl ConnectionId {
    /// Validate that length is within 0..=20.
    pub fn new(bytes: Bytes) -> (r: Result<Self, FrameError>)
        ensures
            buffer::bytes_content(&bytes).len() > 20 ==> r == Err::<ConnectionId, _>(
                FrameError::InvalidCidLength(buffer::bytes_content(&bytes).len() as u8),
            ),
            buffer::bytes_content(&bytes).len() <= 20 ==> r == Ok::<_, FrameError>(
                ConnectionId(bytes),
            ),
    {
        if bytes.len() > MAX_ID_LEN {
            return Err(FrameError::InvalidCidLength(bytes.len() as u8));
        }
        Ok(Self(bytes))
    }
}

#[derive(Debug, Clone, PartialEq, Eq)]
pub enum Frame {
    Padding,
    Ping,
    Ack { largest_ack: VarInt, ack_delay: VarInt, ranges: Vec<AckRange>, ecn: Option<EcnCounts> },
    ResetStream { stream_id: VarInt, error_code: VarInt, final_size: VarInt },
    StopSending { stream_id: VarInt, error_code: VarInt },
    Crypto { offset: VarInt, data: Bytes },
    NewToken { token: Bytes },
    Stream { stream_id: VarInt, offset: VarInt, data: Bytes, fin: bool },
    MaxData { maximum: VarInt },
    MaxStreamData { stream_id: VarInt, maximum: VarInt },
    MaxStreams { bidi: bool, maximum: VarInt },
    DataBlocked { limit: VarInt },
    StreamDataBlocked { stream_id: VarInt, limit: VarInt },
    StreamsBlocked { bidi: bool, limit: VarInt },
    NewConnectionId {
        sequence: VarInt,
        retire_prior_to: VarInt,
        id: ConnectionId,
        reset_token: [u8; 16],
    },
    RetireConnectionId { sequence: VarInt },
    PathChallenge { data: [u8; 8] },
    PathResponse { data: [u8; 8] },
    ConnectionClose { error_code: VarInt, frame_type: Option<VarInt>, reason: Bytes },
    HandshakeDone,
}

/// A frame with its byte strings spelled out.
pub enum FrameModel {
    Padding,
    Ping,
    Ack { largest_ack: u64, ack_delay: u64, ranges: Seq<AckRange>, ecn: Option<EcnCounts> },
    ResetStream { stream_id: u64, error_code: u64, final_size: u64 },
    StopSending { stream_id: u64, error_code: u64 },
    Crypto { offset: u64, data: Seq<u8> },
    NewToken { token: Seq<u8> },
    Stream { stream_id: u64, offset: u64, data: Seq<u8>, fin: bool },
    MaxData { maximum: u64 },
    MaxStreamData { stream_id: u64, maximum: u64 },
    MaxStreams { bidi: bool, maximum: u64 },
    DataBlocked { limit: u64 },
    StreamDataBlocked { stream_id: u64, limit: u64 },
    StreamsBlocked { bidi: bool, limit: u64 },
    NewConnectionId { sequence: u64, retire_prior_to: u64, id: Seq<u8>, reset_token: Seq<u8> },
    RetireConnectionId { sequence: u64 },
    PathChallenge { data: Seq<u8> },
    PathResponse { data: Seq<u8> },
    ConnectionClose { error_code: u64, frame_type: Option<u64>, reason: Seq<u8> },
    HandshakeDone,
}

impl View for Frame {
    type V = FrameModel;

    open spec fn view(&self) -> FrameModel {
        match *self {
            Frame::Padding => FrameModel::Padding,
            Frame::Ping => FrameModel::Ping,
            Frame::Ack { largest_ack, ack_delay, ranges, ecn } => FrameModel::Ack {
                largest_ack,
                ack_delay,
                ranges: ranges@,
                ecn,
            },
            Frame::ResetStream { stream_id, error_code, final_size } => FrameModel::ResetStream {
                stream_id,
                error_code,
                final_size,
            },
            Frame::StopSending { stream_id, error_code } => FrameModel::StopSending {
                stream_id,
                error_code,
            },
            Frame::Crypto { offset, data } => FrameModel::Crypto {
                offset,
                data: buffer::bytes_content(&data),
            },
            Frame::NewToken { token } => FrameModel::NewToken {
                token: buffer::bytes_content(&token),
            },
            Frame::Stream { stream_id, offset, data, fin } => FrameModel::Stream {
                stream_id,
                offset,
                data: buffer::bytes_content(&data),
                fin,
            },
            Frame::MaxData { maximum } => FrameModel::MaxData { maximum },
            Frame::MaxStreamData { stream_id, maximum } => FrameModel::MaxStreamData {
                stream_id,
                maximum,
            },
            Frame::MaxStreams { bidi, maximum } => FrameModel::MaxStreams { bidi, maximum },
            Frame::DataBlocked { limit } => FrameModel::DataBlocked { limit },
            Frame::StreamDataBlocked { stream_id, limit } => FrameModel::StreamDataBlocked {
                stream_id,
                limit,
            },
            Frame::StreamsBlocked { bidi, limit } => FrameModel::StreamsBlocked { bidi, limit },
            Frame::NewConnectionId { sequence, retire_prior_to, id, reset_token } =>
                FrameModel::NewConnectionId {
                sequence,
                retire_prior_to,
                id: id@,
                reset_token: reset_token@,
            },
            Frame::RetireConnectionId { sequence } => FrameModel::RetireConnectionId { sequence },
            Frame::PathChallenge { data } => FrameModel::PathChallenge { data: data@ },
            Frame::PathResponse { data } => FrameModel::PathResponse { data: data@ },
            Frame::ConnectionClose { error_code, frame_type, reason } =>
                FrameModel::ConnectionClose {
                error_code,
                frame_type,
                reason: buffer::bytes_content(&reason),
            },
            Frame::HandshakeDone => FrameModel::HandshakeDone,
        }
    }
}

// ---------------------------------------------------------------------------
// The format, read
// ---------------------------------------------------------------------------

/// A varint off the front of `s`, and what follows it.
pub open spec fn varint_field(s: Seq<u8>) -> Result<(u64, Seq<u8>), FrameError> {
    match varint::varint_at(s) {
        Err(e) => Err(FrameError::VarInt(e)),
        Ok((v, n)) => Ok((v, s.skip(n as int))),
    }
}

/// `n` varints off the front of `s`, and what follows them.
pub open spec fn varint_fields(s: Seq<u8>, n: nat) -> Result<(Seq<u64>, Seq<u8>), FrameError>
    decreases n,
{
    if n == 0 {
        Ok((Seq::empty(), s))
    } else {
        match varint_field(s) {
            Err(e) => Err(e),
            Ok((v, t)) => match varint_fields(t, (n - 1) as nat) {
                Err(e) => Err(e),
                Ok((vs, r)) => Ok((seq![v] + vs, r)),
            },
        }
    }
}

/// `n` raw bytes off the front of `s`, and what follows them.
pub open spec fn raw_field(s: Seq<u8>, n: usize) -> Result<(Seq<u8>, Seq<u8>), FrameError> {
    if s.len() < n {
        Err(FrameError::Underflow { frame_type: 0, expected: n })
    } else {
        Ok((s.take(n as int), s.skip(n as int)))
    }
}

/// A varint length and that many bytes off the front of `s`, and what follows.
pub open spec fn bytes_field(s: Seq<u8>) -> Result<(Seq<u8>, Seq<u8>), FrameError> {
    match varint_field(s) {
        Err(e) => Err(e),
        Ok((n, t)) => raw_field(t, n as usize),
    }
}

/// Consecutive varints, taken two by two as gap and range.
pub open spec fn range_pairs(vs: Seq<u64>) -> Seq<AckRange> {
    Seq::new(vs.len() / 2, |i: int| AckRange { gap: vs[2 * i], range: vs[2 * i + 1] })
}

/// The body of an ACK frame.
pub open spec fn ack_body(ecn: bool, s: Seq<u8>) -> Result<(FrameModel, Seq<u8>), FrameError> {
    match varint_fields(s, 4) {
        Err(e) => Err(e),
        Ok((head, t)) => match varint_fields(t, 2 * head[2] as nat) {
            Err(e) => Err(e),
            Ok((pairs, u)) => {
                let ranges = seq![AckRange { gap: 0, range: head[3] }] + range_pairs(pairs);
                if ecn {
                    match varint_fields(u, 3) {
                        Err(e) => Err(e),
                        Ok((c, r)) => Ok(
                            (
                                FrameModel::Ack {
                                    largest_ack: head[0],
                                    ack_delay: head[1],
                                    ranges,
                                    ecn: Some(EcnCounts { ect0: c[0], ect1: c[1], ecn_ce: c[2] }),
                                },
                                r,
                            ),
                        ),
                    }
                } else {
                    Ok(
                        (
                            FrameModel::Ack {
                                largest_ack: head[0],
                                ack_delay: head[1],
                                ranges,
                                ecn: None,
                            },
                            u,
                        ),
                    )
                }
            },
        },
    }
}

/// The body of a CRYPTO frame.
pub open spec fn crypto_body(s: Seq<u8>) -> Result<(FrameModel, Seq<u8>), FrameError> {
    match varint_field(s) {
        Err(e) => Err(e),
        Ok((offset, t)) => match bytes_field(t) {
            Err(e) => Err(e),
            Ok((data, r)) => Ok((FrameModel::Crypto { offset, data }, r)),
        },
    }
}

/// The body of a STREAM frame whose type has the given OFF, LEN and FIN bits.
/// Without a length the data runs to the end.
pub open spec fn stream_body(off: bool, len: bool, fin: bool, s: Seq<u8>) -> Result<
    (FrameModel, Seq<u8>),
    FrameError,
> {
    match varint_fields(s, if off {
        2
    } else {
        1
    }) {
        Err(e) => Err(e),
        Ok((head, t)) => {
            let stream_id = head[0];
            let offset = if off {
                head[1]
            } else {
                0
            };
            if len {
                match bytes_field(t) {
                    Err(e) => Err(e),
                    Ok((data, r)) => Ok((FrameModel::Stream { stream_id, offset, data, fin }, r)),
                }
            } else {
                Ok((FrameModel::Stream { stream_id, offset, data: t, fin }, Seq::empty()))
            }
        },
    }
}

/// The body of a NEW_CONNECTION_ID frame.
pub open spec fn new_id_body(s: Seq<u8>) -> Result<(FrameModel, Seq<u8>), FrameError> {
    match varint_fields(s, 2) {
        Err(e) => Err(e),
        Ok((head, t)) => match raw_field(t, 1) {
            Err(e) => Err(e),
            Ok((len, u)) => if len[0] < 1 || len[0] > 20 {
                Err(FrameError::InvalidCidLength(len[0]))
            } else {
                match raw_field(u, len[0] as usize) {
                    Err(e) => Err(e),
                    Ok((id, w)) => match raw_field(w, 16) {
                        Err(e) => Err(e),
                        Ok((reset_token, r)) => Ok(
                            (
                                FrameModel::NewConnectionId {
                                    sequence: head[0],
                                    retire_prior_to: head[1],
                                    id,
                                    reset_token,
                                },
                                r,
                            ),
                        ),
                    },
                }
            },
        },
    }
}

/// The body of a CONNECTION_CLOSE frame. Only the transport variant names the
/// frame type that triggered it.
pub open spec fn close_body(app: bool, s: Seq<u8>) -> Result<(FrameModel, Seq<u8>), FrameError> {
    match varint_fields(s, if app {
        1
    } else {
        2
    }) {
        Err(e) => Err(e),
        Ok((head, t)) => match bytes_field(t) {
            Err(e) => Err(e),
            Ok((reason, r)) => Ok(
                (
                    FrameModel::ConnectionClose {
                        error_code: head[0],
                        frame_type: if app {
                            None
                        } else {
                            Some(head[1])
                        },
                        reason,
                    },
                    r,
                ),
            ),
        },
    }
}

/// The body of a frame that is nothing but varints: how many, by its type.
pub open spec fn plain_count(ty: u8) -> nat {
    if ty == FRAME_RESET_STREAM {
        3
    } else if ty == FRAME_STOP_SENDING || ty == FRAME_MAX_STREAM_DATA || ty
        == FRAME_STREAM_DATA_BLOCKED {
        2
    } else {
        1
    }
}

/// The frame of a plain type, from its varints.
pub open spec fn plain_frame(ty: u8, v: Seq<u64>) -> FrameModel {
    if ty == FRAME_RESET_STREAM {
        FrameModel::ResetStream { stream_id: v[0], error_code: v[1], final_size: v[2] }
    } else if ty == FRAME_STOP_SENDING {
        FrameModel::StopSending { stream_id: v[0], error_code: v[1] }
    } else if ty == FRAME_MAX_DATA {
        FrameModel::MaxData { maximum: v[0] }
    } else if ty == FRAME_MAX_STREAM_DATA {
        FrameModel::MaxStreamData { stream_id: v[0], maximum: v[1] }
    } else if ty == FRAME_MAX_STREAMS_BIDI || ty == FRAME_MAX_STREAMS_UNI {
        FrameModel::MaxStreams { bidi: ty == FRAME_MAX_STREAMS_BIDI, maximum: v[0] }
    } else if ty == FRAME_DATA_BLOCKED {
        FrameModel::DataBlocked { limit: v[0] }
    } else if ty == FRAME_STREAM_DATA_BLOCKED {
        FrameModel::StreamDataBlocked { stream_id: v[0], limit: v[1] }
    } else if ty == FRAME_STREAMS_BLOCKED_BIDI || ty == FRAME_STREAMS_BLOCKED_UNI {
        FrameModel::StreamsBlocked { bidi: ty == FRAME_STREAMS_BLOCKED_BIDI, limit: v[0] }
    } else {
        FrameModel::RetireConnectionId { sequence: v[0] }
    }
}

/// The body of a frame of one of the types up to HANDSHAKE_DONE.
pub open spec fn frame_body(ty: u8, s: Seq<u8>) -> Result<(FrameModel, Seq<u8>), FrameError> {
    if ty == FRAME_PADDING {
        Ok((FrameModel::Padding, s))
    } else if ty == FRAME_PING {
        Ok((FrameModel::Ping, s))
    } else if ty == FRAME_ACK || ty == FRAME_ACK_ECN {
        ack_body(ty == FRAME_ACK_ECN, s)
    } else if ty == FRAME_CRYPTO {
        crypto_body(s)
    } else if ty == FRAME_NEW_TOKEN {
        match bytes_field(s) {
            Err(e) => Err(e),
            Ok((token, r)) => Ok((FrameModel::NewToken { token }, r)),
        }
    } else if FRAME_STREAM_BASE <= ty < FRAME_MAX_DATA {
        stream_body(ty % 8 >= 4, ty % 4 >= 2, ty % 2 == 1, s)
    } else if ty == FRAME_NEW_CONNECTION_ID {
        new_id_body(s)
    } else if ty == FRAME_PATH_CHALLENGE || ty == FRAME_PATH_RESPONSE {
        match raw_field(s, 8) {
            Err(e) => Err(e),
            Ok((data, r)) => if ty == FRAME_PATH_CHALLENGE {
                Ok((FrameModel::PathChallenge { data }, r))
            } else {
                Ok((FrameModel::PathResponse { data }, r))
            },
        }
    } else if ty == FRAME_CONNECTION_CLOSE_QUIC || ty == FRAME_CONNECTION_CLOSE_APP {
        close_body(ty == FRAME_CONNECTION_CLOSE_APP, s)
    } else if ty == FRAME_HANDSHAKE_DONE {
        Ok((FrameModel::HandshakeDone, s))
    } else {
        match varint_fields(s, plain_count(ty)) {
            Err(e) => Err(e),
            Ok((v, r)) => Ok((plain_frame(ty, v), r)),
        }
    }
}

/// The frame off the front of `s`, and what follows it.
pub open spec fn frame_at(s: Seq<u8>) -> Result<(FrameModel, Seq<u8>), FrameError> {
    match varint::varint_at(s) {
        Err(e) => Err(FrameError::VarInt(e)),
        Ok((ty, n)) => if ty <= MAX_ONE_BYTE_TYPE && n != 1 {
            Err(FrameError::NonMinimalType(ty))
        } else if ty > FRAME_HANDSHAKE_DONE {
            Err(FrameError::UnknownType(ty))
        } else {
            frame_body(ty as u8, s.skip(1))
        },
    }
}

// ---------------------------------------------------------------------------
// Parsing
// ---------------------------------------------------------------------------

/// Takes one byte off the front of `buf`.
pub fn read_u8(buf: &mut &[u8]) -> (r: Result<u8, FrameError>)
    ensures
        match raw_field(old(buf)@, 1) {
            Err(e) => r == Err::<u8, _>(e) && final(buf)@ == old(buf)@,
            Ok((b, rest)) => r == Ok::<_, FrameError>(b[0]) && final(buf)@ == rest,
        },
{
    if buf.len() == 0 {
        return Err(FrameError::Underflow { frame_type: 0, expected: 1 });
    }
    let v: u8 = buf[0];
    *buf = vstd::slice::slice_subrange(*buf, 1, buf.len());
    Ok(v)
}

/// Takes a varint off the front of `buf`.
pub fn read_varint(buf: &mut &[u8]) -> (r: Result<VarInt, FrameError>)
    ensures
        match varint_field(old(buf)@) {
            Err(e) => r == Err::<VarInt, _>(e) && final(buf)@ == old(buf)@,
            Ok((v, rest)) => r == Ok::<_, FrameError>(v) && final(buf)@ == rest && v <= VARINT_MAX,
        },
{
    proof {
        varint::law_varint_at_bounds(buf@);
    }
    match varint::decode(*buf) {
        Err(e) => Err(FrameError::VarInt(e)),
        Ok((v, n)) => {
            *buf = vstd::slice::slice_subrange(*buf, n, buf.len());
            Ok(v)
        },
    }
}

/// Takes `len` bytes off the front of `buf`.
pub fn read_bytes(buf: &mut &[u8], len: usize) -> (r: Result<Bytes, FrameError>)
    ensures
        match raw_field(old(buf)@, len) {
            Err(e) => r == Err::<Bytes, _>(e) && final(buf)@ == old(buf)@,
            Ok((b, rest)) => r matches Ok(data) && buffer::bytes_content(&data) == b
                && final(buf)@ == rest,
        },
{
    if buf.len() < len {
        return Err(FrameError::Underflow { frame_type: 0, expected: len });
    }
    let b = Bytes::copy_from_slice(vstd::slice::slice_subrange(*buf, 0, len));
    *buf = vstd::slice::slice_subrange(*buf, len, buf.len());
    Ok(b)
}

/// Fills `dst` with bytes off the front of `buf`.
pub fn read_exact(buf: &mut &[u8], dst: &mut [u8]) -> (r: Result<(), FrameError>)
    ensures
        final(dst)@.len() == old(dst)@.len(),
        match raw_field(old(buf)@, old(dst)@.len() as usize) {
            Err(e) => {
                &&& r == Err::<(), _>(e)
                &&& final(buf)@ == old(buf)@
                &&& final(dst)@ == old(dst)@
            },
            Ok((b, rest)) => {
                &&& r == Ok::<_, FrameError>(())
                &&& final(dst)@ == b
                &&& final(buf)@ == rest
            },
        },
{
    let len: usize = dst.len();
    if buf.len() < len {
        return Err(FrameError::Underflow { frame_type: 0, expected: len });
    }
    let mut i: usize = 0;
    while i < len
        invariant
            i <= len,
            len == dst@.len(),
            len <= buf@.len(),
            buf@ == old(buf)@,
            forall|j: int| 0 <= j < i ==> dst@[j] == buf@[j],
        decreases len - i,
    {
        dst[i] = buf[i];
        i += 1;
    }
    assert(dst@ =~= buf@.take(len as int));
    *buf = vstd::slice::slice_subrange(*buf, len, buf.len());
    Ok(())
}

/// Takes a varint length and that many bytes off the front of `buf`.
pub fn read_varint_bytes(buf: &mut &[u8]) -> (r: Result<Bytes, FrameError>)
    ensures
        match bytes_field(old(buf)@) {
            Err(e) => r == Err::<Bytes, _>(e) && final(buf)@ == match varint_field(old(buf)@) {
                Err(_) => old(buf)@,
                Ok((_, after_len)) => after_len,
            },
            Ok((b, rest)) => r matches Ok(data) && buffer::bytes_content(&data) == b
                && final(buf)@ == rest,
        },
{
    let len: u64 = read_varint(buf)?;
    read_bytes(buf, len as usize)
}

/// Reading `n` varints is reading the first and then the others.
proof fn lemma_fields_step(s: Seq<u8>, n: nat)
    requires
        n > 0,
    ensures
        varint_field(s) matches Err(e) ==> varint_fields(s, n) == Err::<(Seq<u64>, Seq<u8>), _>(e),
        varint_field(s) matches Ok((v, t)) ==> match varint_fields(t, (n - 1) as nat) {
            Err(e) => varint_fields(s, n) == Err::<(Seq<u64>, Seq<u8>), _>(e),
            Ok((vs, r)) => varint_fields(s, n) == Ok::<_, FrameError>((seq![v] + vs, r)),
        },
{
}

/// Takes `N` varints off the front of `buf`.
fn read_varints<const N: usize>(buf: &mut &[u8]) -> (r: Result<[VarInt; N], FrameError>)
    ensures
        match varint_fields(old(buf)@, N as nat) {
            Err(e) => r == Err::<[VarInt; N], _>(e),
            Ok((vs, rest)) => r matches Ok(vals) && vals@ == vs && final(buf)@ == rest,
        },
{
    let mut vals: [VarInt; N] = [0u64; N];
    let mut i: usize = 0;
    assert(vals@.take(0) =~= Seq::<u64>::empty());
    while i < N
        invariant
            i <= N,
            vals@.len() == N,
            match varint_fields(buf@, (N - i) as nat) {
                Err(e) => varint_fields(old(buf)@, N as nat) == Err::<(Seq<u64>, Seq<u8>), _>(e),
                Ok((vs, rest)) => varint_fields(old(buf)@, N as nat) == Ok::<_, FrameError>(
                    (vals@.take(i as int) + vs, rest),
                ),
            },
        decreases N - i,
    {
        let ghost before = buf@;
        let ghost done = vals@.take(i as int);
        proof {
            lemma_fields_step(before, (N - i) as nat);
        }
        let v: u64 = read_varint(buf)?;
        vals[i] = v;
        i += 1;
        proof {
            assert(vals@.take(i as int) =~= done.push(v));
            if let Ok((vs, rest)) = varint_fields(buf@, (N - i) as nat) {
                assert(done + (seq![v] + vs) =~= vals@.take(i as int) + vs);
            }
        }
    }
    assert(vals@.take(N as int) + Seq::<u64>::empty() =~= vals@);
    Ok(vals)
}

/// `ranges` as the varints that spell it.
pub open spec fn flat_ranges(ranges: Seq<AckRange>) -> Seq<u64> {
    Seq::new(
        2 * ranges.len(),
        |i: int|
            if i % 2 == 0 {
                ranges[i / 2].gap
            } else {
                ranges[i / 2].range
            },
    )
}

/// Pairing up the varints of a list of ranges gives the ranges back.
proof fn lemma_pairs_of_flat(ranges: Seq<AckRange>)
    ensures
        range_pairs(flat_ranges(ranges)) == ranges,
{
    let vs = flat_ranges(ranges);
    assert forall|i: int| 0 <= i < ranges.len() implies range_pairs(vs)[i] == ranges[i] by {
        assert((2 * i) % 2 == 0 && (2 * i + 1) % 2 == 1);
        assert((2 * i) / 2 == i && (2 * i + 1) / 2 == i);
    }
    assert(range_pairs(vs) =~= ranges);
}

/// Takes `count` gap and range pairs off the front of `buf`.
fn read_ranges(buf: &mut &[u8], first_range: VarInt, count: VarInt) -> (r: Result<
    Vec<AckRange>,
    FrameError,
>)
    ensures
        match varint_fields(old(buf)@, 2 * count as nat) {
            Err(e) => r == Err::<Vec<AckRange>, _>(e),
            Ok((vs, rest)) => {
                &&& r matches Ok(ranges)
                &&& ranges@ == seq![AckRange { gap: 0, range: first_range }] + range_pairs(vs)
                &&& final(buf)@ == rest
            },
        },
{
    let mut ranges: Vec<AckRange> = Vec::new();
    ranges.push(AckRange { gap: 0, range: first_range });
    let mut i: u64 = 0;
    let ghost mut done: Seq<u64> = Seq::empty();
    assert(ranges@ =~= seq![AckRange { gap: 0, range: first_range }] + range_pairs(done));
    while i < count
        invariant
            i <= count,
            done.len() == 2 * i,
            ranges@ == seq![AckRange { gap: 0, range: first_range }] + range_pairs(done),
            match varint_fields(buf@, (2 * (count - i)) as nat) {
                Err(e) => varint_fields(old(buf)@, 2 * count as nat) == Err::<
                    (Seq<u64>, Seq<u8>),
                    _,
                >(e),
                Ok((vs, rest)) => varint_fields(old(buf)@, 2 * count as nat) == Ok::<_, FrameError>(
                    (done + vs, rest),
                ),
            },
        decreases count - i,
    {
        let ghost before = buf@;
        proof {
            lemma_fields_step(before, (2 * (count - i)) as nat);
        }
        let gap: u64 = read_varint(buf)?;
        let ghost middle = buf@;
        proof {
            lemma_fields_step(middle, (2 * (count - i) - 1) as nat);
        }
        let range: u64 = read_varint(buf)?;
        ranges.push(AckRange { gap, range });
        i += 1;
        proof {
            let was = done;
            done = done.push(gap).push(range);
            assert(ranges@ =~= seq![AckRange { gap: 0, range: first_range }] + range_pairs(done));
            if let Ok((vs, rest)) = varint_fields(buf@, (2 * (count - i)) as nat) {
                assert(was + (seq![gap] + (seq![range] + vs)) =~= done + vs);
            }
        }
    }
    assert(done + Seq::<u64>::empty() =~= done);
    Ok(ranges)
}

/// Parses the body of an ACK frame.
fn parse_ack(ecn: bool, buf: &mut &[u8]) -> (r: Result<Frame, FrameError>)
    ensures
        match ack_body(ecn, old(buf)@) {
            Err(e) => r == Err::<Frame, _>(e),
            Ok((m, rest)) => r matches Ok(f) && f@ == m && final(buf)@ == rest,
        },
{
    let head = read_varints::<4>(buf)?;
    let ranges = read_ranges(buf, head[3], head[2])?;
    let counts: Option<EcnCounts> = if ecn {
        let c = read_varints::<3>(buf)?;
        Some(EcnCounts { ect0: c[0], ect1: c[1], ecn_ce: c[2] })
    } else {
        None
    };
    Ok(Frame::Ack { largest_ack: head[0], ack_delay: head[1], ranges, ecn: counts })
}

/// Parses the body of a STREAM frame of type `ty`.
fn parse_stream(ty: u8, buf: &mut &[u8]) -> (r: Result<Frame, FrameError>)
    requires
        FRAME_STREAM_BASE <= ty < FRAME_MAX_DATA,
    ensures
        match stream_body(ty % 8 >= 4, ty % 4 >= 2, ty % 2 == 1, old(buf)@) {
            Err(e) => r == Err::<Frame, _>(e),
            Ok((m, rest)) => r matches Ok(f) && f@ == m && final(buf)@ == rest,
        },
{
    let off: bool = (ty & STREAM_OFF_BIT) != 0;
    let len: bool = (ty & STREAM_LEN_BIT) != 0;
    let fin: bool = (ty & STREAM_FIN_BIT) != 0;
    proof {
        assert({
            &&& ((ty & 4) != 0) == (ty % 8 >= 4)
            &&& ((ty & 2) != 0) == (ty % 4 >= 2)
            &&& ((ty & 1) != 0) == (ty % 2 == 1)
        }) by (bit_vector);
        reveal_with_fuel(varint_fields, 3);
    }
    let stream_id: u64 = read_varint(buf)?;
    let offset: u64 = if off {
        read_varint(buf)?
    } else {
        0
    };
    let data: Bytes = if len {
        read_varint_bytes(buf)?
    } else {
        // Consume remaining bytes.
        let d = Bytes::copy_from_slice(*buf);
        *buf = vstd::slice::slice_subrange(*buf, buf.len(), buf.len());
        d
    };
    Ok(Frame::Stream { stream_id, offset, data, fin })
}

/// Parses the body of a NEW_CONNECTION_ID frame.
fn parse_new_connection_id(buf: &mut &[u8]) -> (r: Result<Frame, FrameError>)
    ensures
        match new_id_body(old(buf)@) {
            Err(e) => r == Err::<Frame, _>(e),
            Ok((m, rest)) => r matches Ok(f) && f@ == m && final(buf)@ == rest,
        },
{
    let head = read_varints::<2>(buf)?;
    let cid_len: u8 = read_u8(buf)?;
    if cid_len < 1 || cid_len > 20 {
        return Err(FrameError::InvalidCidLength(cid_len));
    }
    let cid_bytes = read_bytes(buf, cid_len as usize)?;
    let id = ConnectionId::new(cid_bytes)?;
    let mut reset_token: [u8; 16] = [0u8; 16];
    read_exact(buf, &mut reset_token)?;
    Ok(
        Frame::NewConnectionId {
            sequence: head[0],
            retire_prior_to: head[1],
            id,
            reset_token,
        },
    )
}

/// Parses the body of a CONNECTION_CLOSE frame.
fn parse_connection_close(app: bool, buf: &mut &[u8]) -> (r: Result<Frame, FrameError>)
    ensures
        match close_body(app, old(buf)@) {
            Err(e) => r == Err::<Frame, _>(e),
            Ok((m, rest)) => r matches Ok(f) && f@ == m && final(buf)@ == rest,
        },
{
    reveal_with_fuel(varint_fields, 3);
    let error_code: u64 = read_varint(buf)?;
    let frame_type: Option<VarInt> = if !app {
        Some(read_varint(buf)?)
    } else {
        None
    };
    let reason = read_varint_bytes(buf)?;
    Ok(Frame::ConnectionClose { error_code, frame_type, reason })
}

/// Parses the body of a frame that is nothing but varints.
fn parse_plain(ty: u8, buf: &mut &[u8]) -> (r: Result<Frame, FrameError>)
    requires
        FRAME_RESET_STREAM <= ty <= FRAME_STOP_SENDING || FRAME_MAX_DATA <= ty
            <= FRAME_STREAMS_BLOCKED_UNI || ty == FRAME_RETIRE_CONNECTION_ID,
    ensures
        match varint_fields(old(buf)@, plain_count(ty)) {
            Err(e) => r == Err::<Frame, _>(e),
            Ok((v, rest)) => r matches Ok(f) && f@ == plain_frame(ty, v) && final(buf)@ == rest,
        },
{
    if ty == FRAME_RESET_STREAM {
        let v = read_varints::<3>(buf)?;
        return Ok(Frame::ResetStream { stream_id: v[0], error_code: v[1], final_size: v[2] });
    }
    if ty == FRAME_STOP_SENDING || ty == FRAME_MAX_STREAM_DATA || ty == FRAME_STREAM_DATA_BLOCKED {
        let v = read_varints::<2>(buf)?;
        if ty == FRAME_STOP_SENDING {
            return Ok(Frame::StopSending { stream_id: v[0], error_code: v[1] });
        }
        if ty == FRAME_MAX_STREAM_DATA {
            return Ok(Frame::MaxStreamData { stream_id: v[0], maximum: v[1] });
        }
        return Ok(Frame::StreamDataBlocked { stream_id: v[0], limit: v[1] });
    }
    let v = read_varints::<1>(buf)?;
    if ty == FRAME_MAX_DATA {
        return Ok(Frame::MaxData { maximum: v[0] });
    }
    if ty == FRAME_MAX_STREAMS_BIDI || ty == FRAME_MAX_STREAMS_UNI {
        return Ok(Frame::MaxStreams { bidi: ty == FRAME_MAX_STREAMS_BIDI, maximum: v[0] });
    }
    if ty == FRAME_DATA_BLOCKED {
        return Ok(Frame::DataBlocked { limit: v[0] });
    }
    if ty == FRAME_STREAMS_BLOCKED_BIDI || ty == FRAME_STREAMS_BLOCKED_UNI {
        return Ok(Frame::StreamsBlocked { bidi: ty == FRAME_STREAMS_BLOCKED_BIDI, limit: v[0] });
    }
    Ok(Frame::RetireConnectionId { sequence: v[0] })
}

/// Parses the body of a frame whose one-byte type has been read.
fn parse_body(ty: u8, buf: &mut &[u8]) -> (r: Result<Frame, FrameError>)
    requires
        ty <= FRAME_HANDSHAKE_DONE,
    ensures
        match frame_body(ty, old(buf)@) {
            Err(e) => r == Err::<Frame, _>(e),
            Ok((m, rest)) => r matches Ok(f) && f@ == m && final(buf)@ == rest,
        },
{
    if ty == FRAME_PADDING {
        return Ok(Frame::Padding);
    }
    if ty == FRAME_PING {
        return Ok(Frame::Ping);
    }
    if ty == FRAME_ACK || ty == FRAME_ACK_ECN {
        return parse_ack(ty == FRAME_ACK_ECN, buf);
    }
    if ty == FRAME_CRYPTO {
        let offset: u64 = read_varint(buf)?;
        let data = read_varint_bytes(buf)?;
        return Ok(Frame::Crypto { offset, data });
    }
    if ty == FRAME_NEW_TOKEN {
        let token = read_varint_bytes(buf)?;
        return Ok(Frame::NewToken { token });
    }
    if FRAME_STREAM_BASE <= ty && ty < FRAME_MAX_DATA {
        return parse_stream(ty, buf);
    }
    if ty == FRAME_NEW_CONNECTION_ID {
        return parse_new_connection_id(buf);
    }
    if ty == FRAME_PATH_CHALLENGE || ty == FRAME_PATH_RESPONSE {
        let mut data: [u8; 8] = [0u8; 8];
        read_exact(buf, &mut data)?;
        if ty == FRAME_PATH_CHALLENGE {
            return Ok(Frame::PathChallenge { data });
        }
        return Ok(Frame::PathResponse { data });
    }
    if ty == FRAME_CONNECTION_CLOSE_QUIC || ty == FRAME_CONNECTION_CLOSE_APP {
        return parse_connection_close(ty == FRAME_CONNECTION_CLOSE_APP, buf);
    }
    if ty == FRAME_HANDSHAKE_DONE {
        return Ok(Frame::HandshakeDone);
    }
    parse_plain(ty, buf)
}

/// Whether `r` is what is left of `s` once some of its front is gone.
pub open spec fn is_tail(r: Seq<u8>, s: Seq<u8>) -> bool {
    r.len() <= s.len() && r == s.skip(s.len() - r.len())
}

proof fn lemma_tail_trans(r: Seq<u8>, t: Seq<u8>, s: Seq<u8>)
    requires
        is_tail(r, t),
        is_tail(t, s),
    ensures
        is_tail(r, s),
{
    assert(t.skip(t.len() - r.len()) =~= s.skip(s.len() - r.len()));
}

proof fn lemma_varint_field_tail(s: Seq<u8>)
    ensures
        varint_field(s) matches Ok((v, r)) ==> is_tail(r, s) && r.len() < s.len() && v <= VARINT_MAX,
{
    varint::law_varint_at_bounds(s);
}

proof fn lemma_varint_fields_tail(s: Seq<u8>, n: nat)
    ensures
        varint_fields(s, n) matches Ok((vs, r)) ==> is_tail(r, s) && vs.len() == n,
        varint_fields(s, n) matches Ok((vs, r)) ==> forall|i: int|
            0 <= i < n ==> vs[i] <= VARINT_MAX,
    decreases n,
{
    if n == 0 {
        assert(s.skip(0) =~= s);
    } else {
        lemma_varint_field_tail(s);
        if let Ok((v, t)) = varint_field(s) {
            lemma_varint_fields_tail(t, (n - 1) as nat);
            if let Ok((vs, r)) = varint_fields(t, (n - 1) as nat) {
                lemma_tail_trans(r, t, s);
            }
        }
    }
}

proof fn lemma_bytes_field_tail(s: Seq<u8>)
    ensures
        bytes_field(s) matches Ok((b, r)) ==> is_tail(r, s),
{
    lemma_varint_field_tail(s);
    if let Ok((n, t)) = varint_field(s) {
        if let Ok((b, r)) = raw_field(t, n as usize) {
            lemma_tail_trans(r, t, s);
        }
    }
}

proof fn lemma_ack_body_tail(ecn: bool, s: Seq<u8>)
    ensures
        ack_body(ecn, s) matches Ok((m, r)) ==> is_tail(r, s),
{
    lemma_varint_fields_tail(s, 4);
    if let Ok((head, t)) = varint_fields(s, 4) {
        lemma_varint_fields_tail(t, 2 * head[2] as nat);
        if let Ok((pairs, u)) = varint_fields(t, 2 * head[2] as nat) {
            lemma_tail_trans(u, t, s);
            lemma_varint_fields_tail(u, 3);
            if let Ok((c, r)) = varint_fields(u, 3) {
                lemma_tail_trans(r, u, s);
            }
        }
    }
}

proof fn lemma_crypto_body_tail(s: Seq<u8>)
    ensures
        crypto_body(s) matches Ok((m, r)) ==> is_tail(r, s),
{
    lemma_varint_field_tail(s);
    if let Ok((offset, t)) = varint_field(s) {
        lemma_bytes_field_tail(t);
        if let Ok((data, r)) = bytes_field(t) {
            lemma_tail_trans(r, t, s);
        }
    }
}

proof fn lemma_stream_body_tail(off: bool, len: bool, fin: bool, s: Seq<u8>)
    ensures
        stream_body(off, len, fin, s) matches Ok((m, r)) ==> is_tail(r, s),
{
    let n: nat = if off {
        2
    } else {
        1
    };
    lemma_varint_fields_tail(s, n);
    if let Ok((head, t)) = varint_fields(s, n) {
        lemma_bytes_field_tail(t);
        if let Ok((data, r)) = bytes_field(t) {
            lemma_tail_trans(r, t, s);
        }
        assert(s.skip(s.len() as int) =~= Seq::<u8>::empty());
    }
}

proof fn lemma_new_id_body_tail(s: Seq<u8>)
    ensures
        new_id_body(s) matches Ok((m, r)) ==> is_tail(r, s),
{
    lemma_varint_fields_tail(s, 2);
    if let Ok((head, t)) = varint_fields(s, 2) {
        if let Ok((len, u)) = raw_field(t, 1) {
            lemma_tail_trans(u, t, s);
            if let Ok((id, w)) = raw_field(u, len[0] as usize) {
                lemma_tail_trans(w, u, s);
                if let Ok((token, r)) = raw_field(w, 16) {
                    lemma_tail_trans(r, w, s);
                }
            }
        }
    }
}

proof fn lemma_close_body_tail(app: bool, s: Seq<u8>)
    ensures
        close_body(app, s) matches Ok((m, r)) ==> is_tail(r, s),
{
    let n: nat = if app {
        1
    } else {
        2
    };
    lemma_varint_fields_tail(s, n);
    if let Ok((head, t)) = varint_fields(s, n) {
        lemma_bytes_field_tail(t);
        if let Ok((reason, r)) = bytes_field(t) {
            lemma_tail_trans(r, t, s);
        }
    }
}

proof fn lemma_frame_body_tail(ty: u8, s: Seq<u8>)
    ensures
        frame_body(ty, s) matches Ok((m, r)) ==> is_tail(r, s),
{
    lemma_ack_body_tail(ty == FRAME_ACK_ECN, s);
    lemma_crypto_body_tail(s);
    lemma_bytes_field_tail(s);
    lemma_stream_body_tail(ty % 8 >= 4, ty % 4 >= 2, ty % 2 == 1, s);
    lemma_new_id_body_tail(s);
    lemma_close_body_tail(ty == FRAME_CONNECTION_CLOSE_APP, s);
    lemma_varint_fields_tail(s, plain_count(ty));
    assert(s.skip(0) =~= s);
}

/// Law: a parsed frame takes at least one byte, and what follows it is what
/// its bytes leave of the input.
pub proof fn law_frame_progress(s: Seq<u8>)
    ensures
        frame_at(s) matches Ok((m, r)) ==> r.len() < s.len() && is_tail(r, s),
{
    varint::law_varint_at_bounds(s);
    if let Ok((ty, n)) = varint::varint_at(s) {
        lemma_frame_body_tail(ty as u8, s.skip(1));
        if let Ok((m, r)) = frame_body(ty as u8, s.skip(1)) {
            lemma_tail_trans(r, s.skip(1), s);
        }
    }
}

/// `s` with `more` in place of its tail `r`.
spec fn retailed(s: Seq<u8>, r: Seq<u8>, more: Seq<u8>) -> Seq<u8> {
    s.take(s.len() - r.len()) + more
}

proof fn lemma_retailed_trans(s: Seq<u8>, t: Seq<u8>, r: Seq<u8>, more: Seq<u8>)
    requires
        is_tail(t, s),
        is_tail(r, t),
    ensures
        retailed(s, r, more) == retailed(s, t, retailed(t, r, more)),
{
    assert(retailed(s, r, more) =~= retailed(s, t, retailed(t, r, more)));
}

proof fn lemma_varint_field_retailed(s: Seq<u8>, more: Seq<u8>)
    ensures
        varint_field(s) matches Ok((v, r)) ==> varint_field(retailed(s, r, more)) == Ok::<
            _,
            FrameError,
        >((v, more)),
{
    varint::law_varint_at_bounds(s);
    if let Ok((v, n)) = varint::varint_at(s) {
        varint::law_varint_no_lookahead(s, more);
        let r = s.skip(n as int);
        assert(s.len() - r.len() == n);
        assert(retailed(s, r, more).skip(n as int) =~= more);
    }
}

proof fn lemma_varint_fields_retailed(s: Seq<u8>, n: nat, more: Seq<u8>)
    ensures
        varint_fields(s, n) matches Ok((vs, r)) ==> varint_fields(retailed(s, r, more), n) == Ok::<
            _,
            FrameError,
        >((vs, more)),
    decreases n,
{
    if n == 0 {
        assert(retailed(s, s, more) =~= more);
    } else if let Ok((v, t)) = varint_field(s) {
        lemma_varint_field_tail(s);
        lemma_varint_fields_tail(t, (n - 1) as nat);
        lemma_varint_fields_retailed(t, (n - 1) as nat, more);
        if let Ok((vs, r)) = varint_fields(t, (n - 1) as nat) {
            lemma_retailed_trans(s, t, r, more);
            lemma_varint_field_retailed(s, retailed(t, r, more));
        }
    }
}

proof fn lemma_raw_field_retailed(s: Seq<u8>, n: usize, more: Seq<u8>)
    ensures
        raw_field(s, n) matches Ok((b, r)) ==> is_tail(r, s) && raw_field(
            retailed(s, r, more),
            n,
        ) == Ok::<_, FrameError>((b, more)),
{
    if let Ok((b, r)) = raw_field(s, n) {
        let t = retailed(s, r, more);
        assert(t.take(n as int) =~= b);
        assert(t.skip(n as int) =~= more);
    }
}

proof fn lemma_bytes_field_retailed(s: Seq<u8>, more: Seq<u8>)
    ensures
        bytes_field(s) matches Ok((b, r)) ==> bytes_field(retailed(s, r, more)) == Ok::<
            _,
            FrameError,
        >((b, more)),
{
    lemma_varint_field_tail(s);
    if let Ok((n, t)) = varint_field(s) {
        lemma_raw_field_retailed(t, n as usize, more);
        if let Ok((b, r)) = raw_field(t, n as usize) {
            lemma_retailed_trans(s, t, r, more);
            lemma_varint_field_retailed(s, retailed(t, r, more));
        }
    }
}

proof fn lemma_ack_body_retailed(ecn: bool, s: Seq<u8>, more: Seq<u8>)
    ensures
        ack_body(ecn, s) matches Ok((m, r)) ==> ack_body(ecn, retailed(s, r, more)) == Ok::<
            _,
            FrameError,
        >((m, more)),
{
    lemma_varint_fields_tail(s, 4);
    if let Ok((head, t)) = varint_fields(s, 4) {
        let n = 2 * head[2] as nat;
        lemma_varint_fields_tail(t, n);
        if let Ok((pairs, u)) = varint_fields(t, n) {
            if ecn {
                lemma_varint_fields_tail(u, 3);
                lemma_varint_fields_retailed(u, 3, more);
                if let Ok((c, r)) = varint_fields(u, 3) {
                    let u2 = retailed(u, r, more);
                    lemma_tail_trans(r, u, t);
                    lemma_retailed_trans(t, u, r, more);
                    lemma_retailed_trans(s, t, r, more);
                    lemma_varint_fields_retailed(t, n, u2);
                    lemma_varint_fields_retailed(s, 4, retailed(t, u, u2));
                }
            } else {
                lemma_retailed_trans(s, t, u, more);
                lemma_varint_fields_retailed(t, n, more);
                lemma_varint_fields_retailed(s, 4, retailed(t, u, more));
            }
        }
    }
}

proof fn lemma_crypto_body_retailed(s: Seq<u8>, more: Seq<u8>)
    ensures
        crypto_body(s) matches Ok((m, r)) ==> crypto_body(retailed(s, r, more)) == Ok::<
            _,
            FrameError,
        >((m, more)),
{
    lemma_varint_field_tail(s);
    if let Ok((offset, t)) = varint_field(s) {
        lemma_bytes_field_tail(t);
        lemma_bytes_field_retailed(t, more);
        if let Ok((data, r)) = bytes_field(t) {
            lemma_retailed_trans(s, t, r, more);
            lemma_varint_field_retailed(s, retailed(t, r, more));
        }
    }
}

proof fn lemma_stream_body_retailed(off: bool, fin: bool, s: Seq<u8>, more: Seq<u8>)
    ensures
        stream_body(off, true, fin, s) matches Ok((m, r)) ==> stream_body(
            off,
            true,
            fin,
            retailed(s, r, more),
        ) == Ok::<_, FrameError>((m, more)),
{
    let n: nat = if off {
        2
    } else {
        1
    };
    lemma_varint_fields_tail(s, n);
    if let Ok((head, t)) = varint_fields(s, n) {
        lemma_bytes_field_tail(t);
        lemma_bytes_field_retailed(t, more);
        if let Ok((data, r)) = bytes_field(t) {
            lemma_retailed_trans(s, t, r, more);
            lemma_varint_fields_retailed(s, n, retailed(t, r, more));
        }
    }
}

proof fn lemma_new_id_body_retailed(s: Seq<u8>, more: Seq<u8>)
    ensures
        new_id_body(s) matches Ok((m, r)) ==> new_id_body(retailed(s, r, more)) == Ok::<
            _,
            FrameError,
        >((m, more)),
{
    lemma_varint_fields_tail(s, 2);
    if let Ok((head, t)) = varint_fields(s, 2) {
        lemma_raw_field_retailed(t, 1, more);
        if let Ok((len, u)) = raw_field(t, 1) {
            let n = len[0] as usize;
            lemma_raw_field_retailed(u, n, more);
            if let Ok((id, w)) = raw_field(u, n) {
                lemma_raw_field_retailed(w, 16, more);
                if let Ok((token, r)) = raw_field(w, 16) {
                    let w2 = retailed(w, r, more);
                    let u2 = retailed(u, w, w2);
                    let t2 = retailed(t, u, u2);
                    lemma_raw_field_retailed(u, n, w2);
                    lemma_raw_field_retailed(t, 1, u2);
                    lemma_varint_fields_retailed(s, 2, t2);
                    lemma_tail_trans(r, w, u);
                    lemma_tail_trans(r, u, t);
                    lemma_retailed_trans(u, w, r, more);
                    lemma_retailed_trans(t, u, r, more);
                    lemma_retailed_trans(s, t, r, more);
                }
            }
        }
    }
}

proof fn lemma_close_body_retailed(app: bool, s: Seq<u8>, more: Seq<u8>)
    ensures
        close_body(app, s) matches Ok((m, r)) ==> close_body(app, retailed(s, r, more)) == Ok::<
            _,
            FrameError,
        >((m, more)),
{
    let n: nat = if app {
        1
    } else {
        2
    };
    lemma_varint_fields_tail(s, n);
    if let Ok((head, t)) = varint_fields(s, n) {
        lemma_bytes_field_tail(t);
        lemma_bytes_field_retailed(t, more);
        if let Ok((reason, r)) = bytes_field(t) {
            lemma_retailed_trans(s, t, r, more);
            lemma_varint_fields_retailed(s, n, retailed(t, r, more));
        }
    }
}

/// Whether a frame of a type has no end of its own: a STREAM frame without a
/// length.
pub open spec fn is_open_ended(ty: u8) -> bool {
    FRAME_STREAM_BASE <= ty < FRAME_MAX_DATA && ty % 4 < 2
}

proof fn lemma_frame_body_retailed(ty: u8, s: Seq<u8>, more: Seq<u8>)
    requires
        !is_open_ended(ty),
    ensures
        frame_body(ty, s) matches Ok((m, r)) ==> frame_body(ty, retailed(s, r, more)) == Ok::<
            _,
            FrameError,
        >((m, more)),
{
    lemma_ack_body_retailed(ty == FRAME_ACK_ECN, s, more);
    lemma_crypto_body_retailed(s, more);
    lemma_bytes_field_retailed(s, more);
    lemma_stream_body_retailed(ty % 8 >= 4, ty % 2 == 1, s, more);
    lemma_new_id_body_retailed(s, more);
    lemma_raw_field_retailed(s, 8, more);
    lemma_close_body_retailed(ty == FRAME_CONNECTION_CLOSE_APP, s, more);
    lemma_varint_fields_retailed(s, plain_count(ty), more);
    assert(retailed(s, s, more) =~= more);
}

/// Law: parsing a frame reads nothing beyond the bytes that it consumes. A
/// STREAM frame without a length, whose data runs to the end, consumes all.
pub proof fn law_frame_no_lookahead(s: Seq<u8>, more: Seq<u8>)
    requires
        s.len() > 0 ==> !is_open_ended(s[0]),
    ensures
        frame_at(s) matches Ok((m, r)) ==> frame_at(s.take(s.len() - r.len()) + more) == Ok::<
            _,
            FrameError,
        >((m, more)),
{
    law_frame_progress(s);
    if let Ok((m, r)) = frame_at(s) {
        let t = s.skip(1);
        let u = retailed(s, r, more);
        lemma_one_byte_type(s);
        lemma_frame_body_tail(s[0], t);
        lemma_frame_body_retailed(s[0], t, more);
        assert(u[0] == s[0]);
        assert(u.take(1) =~= s.take(1));
        assert(u.skip(1) =~= retailed(t, r, more));
    }
}

/// A parsed frame's type is its first byte.
proof fn lemma_one_byte_type(s: Seq<u8>)
    ensures
        frame_at(s) is Ok ==> s.len() > 0 && varint::varint_at(s) == Ok::<_, VarIntError>(
            (s[0] as u64, 1nat),
        ),
{
    varint::law_varint_at_bounds(s);
    if frame_at(s) is Ok {
        wire::lemma_be_value_small(s.take(1));
    }
}

/// Law: parsing a frame needs every byte that it consumes, unless it is a STREAM
/// frame without a length, whose data runs to the end.
pub proof fn law_frame_needs_all(s: Seq<u8>, k: int)
    requires
        s.len() > 0 ==> !is_open_ended(s[0]),
        frame_at(s) matches Ok((m, r)) && 0 <= k < s.len() - r.len(),
    ensures
        frame_at(s.take(k)) is Err,
{
    reveal(frame_read);
    lemma_read_needs_all(s, k);
}

/// [`frame_at`], for proofs that need not look into it.
#[verifier::opaque]
spec fn frame_read(s: Seq<u8>) -> Result<(FrameModel, Seq<u8>), FrameError> {
    frame_at(s)
}

proof fn lemma_read_no_lookahead(s: Seq<u8>, more: Seq<u8>)
    requires
        s.len() > 0 ==> !is_open_ended(s[0]),
    ensures
        frame_read(s) matches Ok((m, r)) ==> r.len() < s.len() && is_tail(r, s) && frame_read(
            s.take(s.len() - r.len()) + more,
        ) == Ok::<_, FrameError>((m, more)),
{
    reveal(frame_read);
    law_frame_progress(s);
    law_frame_no_lookahead(s, more);
}

proof fn lemma_read_needs_all(s: Seq<u8>, k: int)
    requires
        s.len() > 0 ==> !is_open_ended(s[0]),
        frame_read(s) matches Ok((m, r)) && 0 <= k < s.len() - r.len(),
    ensures
        frame_read(s.take(k)) is Err,
{
    let t = s.take(k);
    if let Ok((m, r)) = frame_read(t) {
        lemma_read_no_lookahead(t, r + s.skip(k));
        assert(t.take(t.len() - r.len()) + (r + s.skip(k)) =~= s);
    }
}

/// Law: the data of a STREAM frame without a length runs to the end, wherever
/// that is.
pub proof fn law_open_ended_frame(s: Seq<u8>, more: Seq<u8>)
    requires
        s.len() > 0,
        is_open_ended(s[0]),
    ensures
        frame_at(s) matches Ok((m, r)) ==> {
            &&& m matches FrameModel::Stream { stream_id, offset, data, fin }
            &&& r.len() == 0
            &&& frame_at(s + more) == Ok::<_, FrameError>(
                (
                    FrameModel::Stream { stream_id, offset, data: data + more, fin },
                    Seq::<u8>::empty(),
                ),
            )
        },
{
    if let Ok((m, r)) = frame_at(s) {
        let t = s.skip(1);
        let n: nat = if s[0] % 8 >= 4 {
            2
        } else {
            1
        };
        lemma_one_byte_type(s);
        lemma_varint_fields_tail(t, n);
        if let Ok((head, data)) = varint_fields(t, n) {
            lemma_varint_fields_retailed(t, n, data + more);
            assert(retailed(t, data, data + more) =~= t + more);
            assert((s + more).skip(1) =~= t + more);
            assert((s + more).take(1) =~= s.take(1));
        }
    }
}

/// A parsed CRYPTO frame has an offset and a length that varints carried.
pub proof fn lemma_crypto_frame_bounds(s: Seq<u8>)
    ensures
        frame_at(s) matches Ok((FrameModel::Crypto { offset, data }, _)) ==> offset <= VARINT_MAX
            && data.len() <= VARINT_MAX,
{
    varint::law_varint_at_bounds(s);
    if let Ok((ty, _)) = varint::varint_at(s) {
        let body = s.skip(1);
        if ty == FRAME_CRYPTO {
            lemma_varint_field_tail(body);
            if let Ok((offset, t)) = varint_field(body) {
                lemma_varint_field_tail(t);
            }
        }
    }
}

/// Parse a single frame from `buf`. Returns the frame and bytes consumed.
pub fn parse_frame(buf: &[u8]) -> (r: Result<(Frame, usize), FrameError>)
    ensures
        match frame_at(buf@) {
            Err(e) => r == Err::<(Frame, usize), _>(e),
            Ok((m, rest)) => {
                &&& r matches Ok((f, n))
                &&& f@ == m
                &&& n == buf@.len() - rest.len()
                &&& 1 <= n <= buf@.len()
                &&& rest == buf@.skip(n as int)
            },
        },
{
    proof {
        law_frame_progress(buf@);
        varint::law_varint_at_bounds(buf@);
    }
    let (frame_type, type_len) = match varint::decode(buf) {
        Ok(decoded) => decoded,
        Err(e) => {
            return Err(FrameError::VarInt(e));
        },
    };
    // The type must use the minimal varint; all standard types fit in 1 byte.
    if frame_type <= MAX_ONE_BYTE_TYPE && type_len != 1 {
        return Err(FrameError::NonMinimalType(frame_type));
    }
    if frame_type > FRAME_HANDSHAKE_DONE as u64 {
        return Err(FrameError::UnknownType(frame_type));
    }
    let mut rest: &[u8] = vstd::slice::slice_subrange(buf, 1, buf.len());
    assert(rest@ =~= buf@.skip(1));
    let frame = parse_body(frame_type as u8, &mut rest)?;
    Ok((frame, buf.len() - rest.len()))
}

// ---------------------------------------------------------------------------
// The format, written
// ---------------------------------------------------------------------------

/// The type byte of a frame.
pub open spec fn frame_lead(m: FrameModel) -> u8 {
    match m {
        FrameModel::Padding => FRAME_PADDING,
        FrameModel::Ping => FRAME_PING,
        FrameModel::Ack { ecn, .. } => if ecn is Some {
            FRAME_ACK_ECN
        } else {
            FRAME_ACK
        },
        FrameModel::ResetStream { .. } => FRAME_RESET_STREAM,
        FrameModel::StopSending { .. } => FRAME_STOP_SENDING,
        FrameModel::Crypto { .. } => FRAME_CRYPTO,
        FrameModel::NewToken { .. } => FRAME_NEW_TOKEN,
        FrameModel::Stream { offset, data, fin, .. } => stream_lead(offset > 0, data.len() > 0, fin),
        FrameModel::MaxData { .. } => FRAME_MAX_DATA,
        FrameModel::MaxStreamData { .. } => FRAME_MAX_STREAM_DATA,
        FrameModel::MaxStreams { bidi, .. } => if bidi {
            FRAME_MAX_STREAMS_BIDI
        } else {
            FRAME_MAX_STREAMS_UNI
        },
        FrameModel::DataBlocked { .. } => FRAME_DATA_BLOCKED,
        FrameModel::StreamDataBlocked { .. } => FRAME_STREAM_DATA_BLOCKED,
        FrameModel::StreamsBlocked { bidi, .. } => if bidi {
            FRAME_STREAMS_BLOCKED_BIDI
        } else {
            FRAME_STREAMS_BLOCKED_UNI
        },
        FrameModel::NewConnectionId { .. } => FRAME_NEW_CONNECTION_ID,
        FrameModel::RetireConnectionId { .. } => FRAME_RETIRE_CONNECTION_ID,
        FrameModel::PathChallenge { .. } => FRAME_PATH_CHALLENGE,
        FrameModel::PathResponse { .. } => FRAME_PATH_RESPONSE,
        FrameModel::ConnectionClose { frame_type, .. } => if frame_type is Some {
            FRAME_CONNECTION_CLOSE_QUIC
        } else {
            FRAME_CONNECTION_CLOSE_APP
        },
        FrameModel::HandshakeDone => FRAME_HANDSHAKE_DONE,
    }
}

/// The type byte of a STREAM frame with the given OFF, LEN and FIN bits.
pub open spec fn stream_lead(off: bool, len: bool, fin: bool) -> u8 {
    (FRAME_STREAM_BASE + if off {
        4int
    } else {
        0
    } + if len {
        2int
    } else {
        0
    } + if fin {
        1int
    } else {
        0
    }) as u8
}

/// The varints of an ACK frame with at least one range.
pub open spec fn ack_fields(
    largest_ack: u64,
    ack_delay: u64,
    ranges: Seq<AckRange>,
    ecn: Option<EcnCounts>,
) -> Seq<u64> {
    seq![largest_ack, ack_delay, (ranges.len() - 1) as u64, ranges[0].range] + flat_ranges(
        ranges.skip(1),
    ) + match ecn {
        Some(c) => seq![c.ect0, c.ect1, c.ecn_ce],
        None => Seq::empty(),
    }
}

/// The varints that follow the type byte.
pub open spec fn frame_fields(m: FrameModel) -> Seq<u64> {
    match m {
        FrameModel::Ack { largest_ack, ack_delay, ranges, ecn } => ack_fields(
            largest_ack,
            ack_delay,
            ranges,
            ecn,
        ),
        FrameModel::ResetStream { stream_id, error_code, final_size } => seq![
            stream_id,
            error_code,
            final_size,
        ],
        FrameModel::StopSending { stream_id, error_code } => seq![stream_id, error_code],
        FrameModel::Crypto { offset, data } => seq![offset, data.len() as u64],
        FrameModel::NewToken { token } => seq![token.len() as u64],
        FrameModel::Stream { stream_id, offset, data, .. } => seq![stream_id] + (if offset > 0 {
            seq![offset]
        } else {
            Seq::empty()
        }) + (if data.len() > 0 {
            seq![data.len() as u64]
        } else {
            Seq::empty()
        }),
        FrameModel::MaxData { maximum } => seq![maximum],
        FrameModel::MaxStreamData { stream_id, maximum } => seq![stream_id, maximum],
        FrameModel::MaxStreams { maximum, .. } => seq![maximum],
        FrameModel::DataBlocked { limit } => seq![limit],
        FrameModel::StreamDataBlocked { stream_id, limit } => seq![stream_id, limit],
        FrameModel::StreamsBlocked { limit, .. } => seq![limit],
        FrameModel::NewConnectionId { sequence, retire_prior_to, .. } => seq![
            sequence,
            retire_prior_to,
        ],
        FrameModel::RetireConnectionId { sequence } => seq![sequence],
        FrameModel::ConnectionClose { error_code, frame_type, reason } => seq![error_code] + (
        match frame_type {
            Some(ty) => seq![ty],
            None => Seq::empty(),
        }) + seq![reason.len() as u64],
        _ => Seq::empty(),
    }
}

/// The raw bytes at the end.
pub open spec fn frame_tail(m: FrameModel) -> Seq<u8> {
    match m {
        FrameModel::Crypto { data, .. } => data,
        FrameModel::NewToken { token } => token,
        FrameModel::Stream { data, .. } => data,
        FrameModel::NewConnectionId { id, reset_token, .. } => seq![id.len() as u8] + id
            + reset_token,
        FrameModel::PathChallenge { data } => data,
        FrameModel::PathResponse { data } => data,
        FrameModel::ConnectionClose { reason, .. } => reason,
        _ => Seq::empty(),
    }
}

/// Varints, one after the other.
pub open spec fn fields_bytes(vals: Seq<u64>) -> Seq<u8>
    decreases vals.len(),
{
    if vals.len() == 0 {
        Seq::empty()
    } else {
        varint::varint_bytes(vals[0]) + fields_bytes(vals.skip(1))
    }
}

/// A frame on the wire.
pub open spec fn frame_bytes(m: FrameModel) -> Seq<u8> {
    seq![frame_lead(m)] + fields_bytes(frame_fields(m)) + frame_tail(m)
}

/// How many values at the front of `vals` a varint can carry.
pub open spec fn sound_prefix(vals: Seq<u64>) -> nat
    decreases vals.len(),
{
    if vals.len() == 0 || vals[0] > VARINT_MAX {
        0
    } else {
        1 + sound_prefix(vals.skip(1))
    }
}

// ---------------------------------------------------------------------------
// Writing
// ---------------------------------------------------------------------------

/// A longer list of varints is the shorter one and one more.
proof fn lemma_fields_push(vals: Seq<u64>, v: u64)
    ensures
        fields_bytes(vals.push(v)) == fields_bytes(vals) + varint::varint_bytes(v),
    decreases vals.len(),
{
    if vals.len() == 0 {
        assert(vals.push(v).skip(1) =~= Seq::<u64>::empty());
        assert(fields_bytes(vals.push(v).skip(1)) =~= Seq::<u8>::empty());
        assert(fields_bytes(vals.push(v)) =~= fields_bytes(vals) + varint::varint_bytes(v));
    } else {
        lemma_fields_push(vals.skip(1), v);
        assert(vals.push(v).skip(1) =~= vals.skip(1).push(v));
        assert(fields_bytes(vals.push(v)) =~= fields_bytes(vals) + varint::varint_bytes(v));
    }
}

/// The values before the first that is too large.
proof fn lemma_sound_prefix(vals: Seq<u64>, k: nat)
    requires
        k <= vals.len(),
        forall|i: int| 0 <= i < k ==> vals[i] <= VARINT_MAX,
        k < vals.len() ==> vals[k as int] > VARINT_MAX,
    ensures
        sound_prefix(vals) == k,
    decreases vals.len(),
{
    if k > 0 {
        lemma_sound_prefix(vals.skip(1), (k - 1) as nat);
    }
}

/// Appends varints, up to the first value that is too large for one.
fn put_varints(buf: &mut Vec<u8>, vals: &[VarInt]) -> (r: Result<(), FrameError>)
    ensures
        sound_prefix(vals@) <= vals@.len(),
        sound_prefix(vals@) == vals@.len() ==> {
            &&& r == Ok::<(), FrameError>(())
            &&& final(buf)@ == old(buf)@ + fields_bytes(vals@)
        },
        sound_prefix(vals@) < vals@.len() ==> {
            let k = sound_prefix(vals@) as int;
            &&& r == Err::<(), _>(
                FrameError::VarInt(VarIntError::ValueTooLarge { value: vals@[k] }),
            )
            &&& final(buf)@ == old(buf)@ + fields_bytes(vals@.take(k))
        },
{
    let mut i: usize = 0;
    assert(vals@.take(0) =~= Seq::<u64>::empty());
    assert(buf@ + Seq::<u8>::empty() =~= buf@);
    while i < vals.len()
        invariant
            i <= vals@.len(),
            buf@ == old(buf)@ + fields_bytes(vals@.take(i as int)),
            forall|j: int| 0 <= j < i ==> vals@[j] <= VARINT_MAX,
        decreases vals@.len() - i,
    {
        let v: u64 = vals[i];
        match varint::put_varint(buf, v) {
            Ok(()) => {},
            Err(e) => {
                proof {
                    lemma_sound_prefix(vals@, i as nat);
                }
                return Err(FrameError::VarInt(e));
            },
        }
        proof {
            assert(vals@.take(i + 1) =~= vals@.take(i as int).push(v));
            lemma_fields_push(vals@.take(i as int), v);
            assert(buf@ =~= old(buf)@ + fields_bytes(vals@.take(i + 1)));
        }
        i += 1;
    }
    proof {
        lemma_sound_prefix(vals@, i as nat);
        assert(vals@.take(i as int) =~= vals@);
    }
    Ok(())
}

/// The type byte of a frame.
fn lead_of(frame: &Frame) -> (lead: u8)
    ensures
        lead == frame_lead(frame@),
{
    match frame {
        Frame::Padding => FRAME_PADDING,
        Frame::Ping => FRAME_PING,
        Frame::Ack { ecn, .. } => if ecn.is_some() {
            FRAME_ACK_ECN
        } else {
            FRAME_ACK
        },
        Frame::ResetStream { .. } => FRAME_RESET_STREAM,
        Frame::StopSending { .. } => FRAME_STOP_SENDING,
        Frame::Crypto { .. } => FRAME_CRYPTO,
        Frame::NewToken { .. } => FRAME_NEW_TOKEN,
        Frame::Stream { offset, data, fin, .. } => {
            let mut ft: u8 = FRAME_STREAM_BASE;
            if *fin {
                ft = ft | STREAM_FIN_BIT;
            }
            if *offset > 0 {
                ft = ft | STREAM_OFF_BIT;
            }
            // The length is written whenever there is data: the frame need not
            // be the last of its packet.
            if !data.is_empty() {
                ft = ft | STREAM_LEN_BIT;
            }
            proof {
                assert({
                    &&& 8u8 | 1 == 9 && 8u8 | 4 == 12 && 9u8 | 4 == 13
                    &&& 8u8 | 2 == 10 && 9u8 | 2 == 11 && 12u8 | 2 == 14 && 13u8 | 2 == 15
                }) by (bit_vector);
            }
            ft
        },
        Frame::MaxData { .. } => FRAME_MAX_DATA,
        Frame::MaxStreamData { .. } => FRAME_MAX_STREAM_DATA,
        Frame::MaxStreams { bidi, .. } => if *bidi {
            FRAME_MAX_STREAMS_BIDI
        } else {
            FRAME_MAX_STREAMS_UNI
        },
        Frame::DataBlocked { .. } => FRAME_DATA_BLOCKED,
        Frame::StreamDataBlocked { .. } => FRAME_STREAM_DATA_BLOCKED,
        Frame::StreamsBlocked { bidi, .. } => if *bidi {
            FRAME_STREAMS_BLOCKED_BIDI
        } else {
            FRAME_STREAMS_BLOCKED_UNI
        },
        Frame::NewConnectionId { .. } => FRAME_NEW_CONNECTION_ID,
        Frame::RetireConnectionId { .. } => FRAME_RETIRE_CONNECTION_ID,
        Frame::PathChallenge { .. } => FRAME_PATH_CHALLENGE,
        Frame::PathResponse { .. } => FRAME_PATH_RESPONSE,
        Frame::ConnectionClose { frame_type, .. } => if frame_type.is_some() {
            FRAME_CONNECTION_CLOSE_QUIC
        } else {
            FRAME_CONNECTION_CLOSE_APP
        },
        Frame::HandshakeDone => FRAME_HANDSHAKE_DONE,
    }
}

/// The varints of an ACK frame.
fn ack_field_list(
    largest_ack: VarInt,
    ack_delay: VarInt,
    ranges: &Vec<AckRange>,
    ecn: &Option<EcnCounts>,
) -> (v: Vec<VarInt>)
    requires
        ranges@.len() > 0,
    ensures
        v@ == ack_fields(largest_ack, ack_delay, ranges@, *ecn),
{
    let mut v: Vec<VarInt> = Vec::new();
    v.push(largest_ack);
    v.push(ack_delay);
    // The range count leaves out the first range, which is separate.
    v.push((ranges.len() - 1) as VarInt);
    v.push(ranges[0].range);
    let ghost head = seq![
        largest_ack,
        ack_delay,
        (ranges@.len() - 1) as u64,
        ranges@[0].range,
    ];
    let mut i: usize = 1;
    assert(v@ =~= head + flat_ranges(ranges@.subrange(1, 1)));
    while i < ranges.len()
        invariant
            1 <= i <= ranges@.len(),
            head.len() == 4,
            v@ == head + flat_ranges(ranges@.subrange(1, i as int)),
        decreases ranges@.len() - i,
    {
        v.push(ranges[i].gap);
        v.push(ranges[i].range);
        i += 1;
        proof {
            let done = ranges@.subrange(1, i as int);
            assert(flat_ranges(done) =~= flat_ranges(ranges@.subrange(1, i - 1)).push(
                ranges@[i - 1].gap,
            ).push(ranges@[i - 1].range));
            assert(v@ =~= head + flat_ranges(done));
        }
    }
    assert(ranges@.subrange(1, i as int) =~= ranges@.skip(1));
    if let Some(c) = ecn {
        v.push(c.ect0);
        v.push(c.ect1);
        v.push(c.ecn_ce);
    }
    assert(v@ =~= ack_fields(largest_ack, ack_delay, ranges@, *ecn));
    v
}

/// The varints that follow the type byte.
fn field_list(frame: &Frame) -> (v: Vec<VarInt>)
    requires
        frame matches Frame::Ack { ranges, .. } ==> ranges@.len() > 0,
    ensures
        v@ == frame_fields(frame@),
{
    let v: Vec<VarInt> = match frame {
        Frame::Ack { largest_ack, ack_delay, ranges, ecn } => ack_field_list(
            *largest_ack,
            *ack_delay,
            ranges,
            ecn,
        ),
        Frame::ResetStream { stream_id, error_code, final_size } => vec![
            *stream_id,
            *error_code,
            *final_size,
        ],
        Frame::StopSending { stream_id, error_code } => vec![*stream_id, *error_code],
        Frame::Crypto { offset, data } => vec![*offset, data.len() as VarInt],
        Frame::NewToken { token } => vec![token.len() as VarInt],
        Frame::Stream { stream_id, offset, data, .. } => {
            let mut v: Vec<VarInt> = vec![*stream_id];
            if *offset > 0 {
                v.push(*offset);
            }
            if !data.is_empty() {
                v.push(data.len() as VarInt);
            }
            v
        },
        Frame::MaxData { maximum } => vec![*maximum],
        Frame::MaxStreamData { stream_id, maximum } => vec![*stream_id, *maximum],
        Frame::MaxStreams { maximum, .. } => vec![*maximum],
        Frame::DataBlocked { limit } => vec![*limit],
        Frame::StreamDataBlocked { stream_id, limit } => vec![*stream_id, *limit],
        Frame::StreamsBlocked { limit, .. } => vec![*limit],
        Frame::NewConnectionId { sequence, retire_prior_to, .. } => vec![
            *sequence,
            *retire_prior_to,
        ],
        Frame::RetireConnectionId { sequence } => vec![*sequence],
        Frame::ConnectionClose { error_code, frame_type, reason } => {
            let mut v: Vec<VarInt> = vec![*error_code];
            if let Some(ty) = frame_type {
                v.push(*ty);
            }
            v.push(reason.len() as VarInt);
            v
        },
        _ => Vec::new(),
    };
    assert(v@ =~= frame_fields(frame@));
    v
}

/// Appends the raw bytes at the end of a frame.
fn put_tail(frame: &Frame, buf: &mut Vec<u8>)
    ensures
        final(buf)@ == old(buf)@ + frame_tail(frame@),
{
    match frame {
        Frame::Crypto { data, .. } => buf.extend_from_slice(buffer::bytes_slice(data)),
        Frame::NewToken { token } => buf.extend_from_slice(buffer::bytes_slice(token)),
        Frame::Stream { data, .. } => buf.extend_from_slice(buffer::bytes_slice(data)),
        Frame::NewConnectionId { id, reset_token, .. } => {
            buf.push(id.0.len() as u8);
            buf.extend_from_slice(buffer::bytes_slice(&id.0));
            buf.extend_from_slice(reset_token);
        },
        Frame::PathChallenge { data } => buf.extend_from_slice(data),
        Frame::PathResponse { data } => buf.extend_from_slice(data),
        Frame::ConnectionClose { reason, .. } => buf.extend_from_slice(buffer::bytes_slice(reason)),
        _ => {},
    }
    assert(buf@ =~= old(buf)@ + frame_tail(frame@));
}

/// Write `frame` at the end of `buf`. Returns bytes written.
///
/// A field that no varint can carry stops the writing: what stands before it
/// has been appended by then.
pub fn write_frame(frame: &Frame, buf: &mut Vec<u8>) -> (r: Result<usize, FrameError>)
    requires
        frame matches Frame::Ack { ranges, .. } ==> ranges@.len() > 0,
    ensures
        sound_prefix(frame_fields(frame@)) <= frame_fields(frame@).len(),
        sound_prefix(frame_fields(frame@)) == frame_fields(frame@).len() ==> {
            &&& r matches Ok(n)
            &&& n == frame_bytes(frame@).len()
            &&& final(buf)@ == old(buf)@ + frame_bytes(frame@)
        },
        sound_prefix(frame_fields(frame@)) < frame_fields(frame@).len() ==> {
            let fields = frame_fields(frame@);
            let k = sound_prefix(fields) as int;
            &&& r == Err::<usize, _>(
                FrameError::VarInt(VarIntError::ValueTooLarge { value: fields[k] }),
            )
            &&& final(buf)@ == old(buf)@ + (seq![frame_lead(frame@)] + fields_bytes(
                fields.take(k),
            ))
        },
{
    let start: usize = buf.len();
    let ghost before = buf@;
    let fields = field_list(frame);
    buf.push(lead_of(frame));
    let ghost led = buf@;
    match put_varints(buf, &fields) {
        Ok(()) => {},
        Err(e) => {
            proof {
                let k = sound_prefix(frame_fields(frame@)) as int;
                assert(buf@ =~= before + (seq![frame_lead(frame@)] + fields_bytes(
                    frame_fields(frame@).take(k),
                )));
            }
            return Err(e);
        },
    }
    put_tail(frame, buf);
    assert(buf@ =~= before + frame_bytes(frame@));
    Ok(buf.len() - start)
}

// ---------------------------------------------------------------------------
// Reading back what was written
// ---------------------------------------------------------------------------

/// Frames whose every part has a place on the wire. An ACK has at least one
/// range, whose gap is not written; lengths and fields fit in a varint; IDs,
/// tokens and path data have their fixed sizes.
pub open spec fn frame_writable(m: FrameModel) -> bool {
    &&& forall|i: int| 0 <= i < frame_fields(m).len() ==> frame_fields(m)[i] <= VARINT_MAX
    &&& frame_tail(m).len() <= usize::MAX
    &&& frame_tail(m).len() <= VARINT_MAX
    &&& m matches FrameModel::Ack { ranges, .. } ==> 1 <= ranges.len() <= VARINT_MAX
        && ranges[0].gap == 0
    &&& m matches FrameModel::NewConnectionId { id, reset_token, .. } ==> 1 <= id.len() <= 20
        && reset_token.len() == 16
    &&& m matches FrameModel::PathChallenge { data } ==> data.len() == 8
    &&& m matches FrameModel::PathResponse { data } ==> data.len() == 8
}

proof fn lemma_varint_field_back(v: u64, rest: Seq<u8>)
    requires
        v <= VARINT_MAX,
    ensures
        varint_field(varint::varint_bytes(v) + rest) == Ok::<_, FrameError>((v, rest)),
{
    varint::law_varint_round_trip(v, rest);
    assert((varint::varint_bytes(v) + rest).skip(varint::varint_len(v) as int) =~= rest);
}

proof fn lemma_varint_fields_back(vals: Seq<u64>, rest: Seq<u8>)
    requires
        forall|i: int| 0 <= i < vals.len() ==> vals[i] <= VARINT_MAX,
    ensures
        varint_fields(fields_bytes(vals) + rest, vals.len()) == Ok::<_, FrameError>((vals, rest)),
    decreases vals.len(),
{
    if vals.len() == 0 {
        assert(fields_bytes(vals) + rest =~= rest);
        assert(vals =~= Seq::<u64>::empty());
    } else {
        let more = vals.skip(1);
        lemma_varint_fields_back(more, rest);
        lemma_varint_field_back(vals[0], fields_bytes(more) + rest);
        assert(fields_bytes(vals) + rest =~= varint::varint_bytes(vals[0]) + (fields_bytes(more)
            + rest));
        assert(seq![vals[0]] + more =~= vals);
    }
}

proof fn lemma_fields_concat(a: Seq<u64>, b: Seq<u64>)
    ensures
        fields_bytes(a + b) == fields_bytes(a) + fields_bytes(b),
    decreases a.len(),
{
    if a.len() == 0 {
        assert(a + b =~= b);
        assert(fields_bytes(a) + fields_bytes(b) =~= fields_bytes(b));
    } else {
        lemma_fields_concat(a.skip(1), b);
        assert((a + b).skip(1) =~= a.skip(1) + b);
        assert(fields_bytes(a + b) =~= fields_bytes(a) + fields_bytes(b));
    }
}

proof fn lemma_raw_field_back(b: Seq<u8>, rest: Seq<u8>, n: usize)
    requires
        b.len() == n,
    ensures
        raw_field(b + rest, n) == Ok::<_, FrameError>((b, rest)),
{
    assert((b + rest).take(n as int) =~= b);
    assert((b + rest).skip(n as int) =~= rest);
}

proof fn lemma_bytes_field_back(b: Seq<u8>, rest: Seq<u8>)
    requires
        b.len() <= usize::MAX,
        b.len() <= VARINT_MAX,
    ensures
        bytes_field(varint::varint_bytes(b.len() as u64) + (b + rest)) == Ok::<_, FrameError>(
            (b, rest),
        ),
{
    lemma_varint_field_back(b.len() as u64, b + rest);
    lemma_raw_field_back(b, rest, b.len() as usize);
}

proof fn lemma_one_field(v: u64)
    ensures
        fields_bytes(seq![v]) == varint::varint_bytes(v),
{
    assert(seq![v].skip(1) =~= Seq::<u64>::empty());
    assert(fields_bytes(seq![v].skip(1)) =~= Seq::<u8>::empty());
    assert(fields_bytes(seq![v]) =~= varint::varint_bytes(v));
}

proof fn lemma_ack_back(
    largest_ack: u64,
    ack_delay: u64,
    ranges: Seq<AckRange>,
    ecn: Option<EcnCounts>,
    rest: Seq<u8>,
)
    requires
        frame_writable(FrameModel::Ack { largest_ack, ack_delay, ranges, ecn }),
    ensures
        ack_body(
            ecn is Some,
            fields_bytes(ack_fields(largest_ack, ack_delay, ranges, ecn)) + rest,
        ) == Ok::<_, FrameError>(
            (FrameModel::Ack { largest_ack, ack_delay, ranges, ecn }, rest),
        ),
{
    let m = FrameModel::Ack { largest_ack, ack_delay, ranges, ecn };
    let all = ack_fields(largest_ack, ack_delay, ranges, ecn);
    assert(frame_fields(m) == all);
    let head = seq![largest_ack, ack_delay, (ranges.len() - 1) as u64, ranges[0].range];
    let pairs = flat_ranges(ranges.skip(1));
    let counts: Seq<u64> = match ecn {
        Some(c) => seq![c.ect0, c.ect1, c.ecn_ce],
        None => Seq::empty(),
    };
    assert(all == head + pairs + counts);
    let after_pairs = fields_bytes(counts) + rest;
    let after_head = fields_bytes(pairs) + after_pairs;
    assert(fields_bytes(all) + rest == fields_bytes(head) + after_head) by {
        lemma_fields_concat(head + pairs, counts);
        lemma_fields_concat(head, pairs);
        assert(fields_bytes(all) + rest =~= fields_bytes(head) + after_head);
    }
    assert(varint_fields(fields_bytes(head) + after_head, 4) == Ok::<_, FrameError>(
        (head, after_head),
    )) by {
        assert forall|i: int| 0 <= i < 4 implies head[i] <= VARINT_MAX by {
            assert(all[i] == head[i]);
        }
        lemma_varint_fields_back(head, after_head);
    }
    assert(varint_fields(after_head, pairs.len()) == Ok::<_, FrameError>((pairs, after_pairs))) by {
        assert forall|i: int| 0 <= i < pairs.len() implies pairs[i] <= VARINT_MAX by {
            assert(all[4 + i] == pairs[i]);
        }
        lemma_varint_fields_back(pairs, after_pairs);
    }
    assert(pairs.len() == 2 * head[2] as nat);
    assert(seq![AckRange { gap: 0, range: head[3] }] + range_pairs(pairs) == ranges) by {
        lemma_pairs_of_flat(ranges.skip(1));
        assert(seq![AckRange { gap: 0, range: ranges[0].range }] + ranges.skip(1) =~= ranges);
    }
    if ecn is Some {
        assert(varint_fields(after_pairs, 3) == Ok::<_, FrameError>((counts, rest))) by {
            assert forall|i: int| 0 <= i < counts.len() implies counts[i] <= VARINT_MAX by {
                assert(all[4 + pairs.len() + i] == counts[i]);
            }
            lemma_varint_fields_back(counts, rest);
        }
    } else {
        assert(after_pairs =~= rest);
    }
}

proof fn lemma_stream_back(stream_id: u64, offset: u64, data: Seq<u8>, fin: bool, rest: Seq<u8>)
    requires
        frame_writable(FrameModel::Stream { stream_id, offset, data, fin }),
        data.len() == 0 ==> rest.len() == 0,
    ensures
        ({
            let m = FrameModel::Stream { stream_id, offset, data, fin };
            stream_body(
                offset > 0,
                data.len() > 0,
                fin,
                fields_bytes(frame_fields(m)) + (data + rest),
            ) == Ok::<_, FrameError>((m, rest))
        }),
{
    let m = FrameModel::Stream { stream_id, offset, data, fin };
    let all = frame_fields(m);
    let head: Seq<u64> = if offset > 0 {
        seq![stream_id, offset]
    } else {
        seq![stream_id]
    };
    assert(all[0] == stream_id);
    if offset > 0 {
        assert(all[1] == offset);
    }
    if data.len() > 0 {
        let n = data.len() as u64;
        assert(all =~= head + seq![n]);
        lemma_fields_concat(head, seq![n]);
        lemma_one_field(n);
        let t = varint::varint_bytes(n) + (data + rest);
        assert(fields_bytes(all) + (data + rest) =~= fields_bytes(head) + t);
        lemma_varint_fields_back(head, t);
        lemma_bytes_field_back(data, rest);
    } else {
        assert(all =~= head);
        assert(data + rest =~= Seq::<u8>::empty());
        lemma_varint_fields_back(head, data + rest);
        assert(data =~= data + rest);
        assert(rest =~= Seq::<u8>::empty());
    }
}

proof fn lemma_new_id_back(
    sequence: u64,
    retire_prior_to: u64,
    id: Seq<u8>,
    reset_token: Seq<u8>,
    rest: Seq<u8>,
)
    requires
        frame_writable(
            FrameModel::NewConnectionId { sequence, retire_prior_to, id, reset_token },
        ),
    ensures
        ({
            let m = FrameModel::NewConnectionId { sequence, retire_prior_to, id, reset_token };
            new_id_body(fields_bytes(frame_fields(m)) + (frame_tail(m) + rest)) == Ok::<
                _,
                FrameError,
            >((m, rest))
        }),
{
    let m = FrameModel::NewConnectionId { sequence, retire_prior_to, id, reset_token };
    let all = frame_fields(m);
    let len = seq![id.len() as u8];
    lemma_varint_fields_back(all, frame_tail(m) + rest);
    assert(frame_tail(m) + rest =~= len + (id + (reset_token + rest)));
    lemma_raw_field_back(len, id + (reset_token + rest), 1);
    lemma_raw_field_back(id, reset_token + rest, id.len() as usize);
    lemma_raw_field_back(reset_token, rest, 16);
}

proof fn lemma_close_back(
    error_code: u64,
    frame_type: Option<u64>,
    reason: Seq<u8>,
    rest: Seq<u8>,
)
    requires
        frame_writable(FrameModel::ConnectionClose { error_code, frame_type, reason }),
    ensures
        ({
            let m = FrameModel::ConnectionClose { error_code, frame_type, reason };
            close_body(
                frame_type is None,
                fields_bytes(frame_fields(m)) + (reason + rest),
            ) == Ok::<_, FrameError>((m, rest))
        }),
{
    let m = FrameModel::ConnectionClose { error_code, frame_type, reason };
    let all = frame_fields(m);
    let head: Seq<u64> = match frame_type {
        Some(ty) => seq![error_code, ty],
        None => seq![error_code],
    };
    let n = reason.len() as u64;
    assert(all =~= head + seq![n]);
    assert forall|i: int| 0 <= i < head.len() implies head[i] <= VARINT_MAX by {
        assert(all[i] == head[i]);
    }
    lemma_fields_concat(head, seq![n]);
    lemma_one_field(n);
    let t = varint::varint_bytes(n) + (reason + rest);
    assert(fields_bytes(all) + (reason + rest) =~= fields_bytes(head) + t);
    lemma_varint_fields_back(head, t);
    lemma_bytes_field_back(reason, rest);
}

proof fn lemma_crypto_back(offset: u64, data: Seq<u8>, rest: Seq<u8>)
    requires
        frame_writable(FrameModel::Crypto { offset, data }),
    ensures
        crypto_body(
            fields_bytes(frame_fields(FrameModel::Crypto { offset, data })) + (data + rest),
        ) == Ok::<_, FrameError>((FrameModel::Crypto { offset, data }, rest)),
{
    let m = FrameModel::Crypto { offset, data };
    let all = frame_fields(m);
    let n = data.len() as u64;
    assert(all[0] == offset);
    assert(all =~= seq![offset] + seq![n]);
    lemma_fields_concat(seq![offset], seq![n]);
    lemma_one_field(offset);
    lemma_one_field(n);
    let t = varint::varint_bytes(n) + (data + rest);
    assert(fields_bytes(all) + (data + rest) =~= varint::varint_bytes(offset) + t);
    lemma_varint_field_back(offset, t);
    lemma_bytes_field_back(data, rest);
}

/// Whether a frame is nothing but varints.
spec fn is_plain(m: FrameModel) -> bool {
    let ty = frame_lead(m);
    FRAME_RESET_STREAM <= ty <= FRAME_STOP_SENDING || FRAME_MAX_DATA <= ty
        <= FRAME_STREAMS_BLOCKED_UNI || ty == FRAME_RETIRE_CONNECTION_ID
}

proof fn lemma_plain_frame(m: FrameModel)
    requires
        is_plain(m),
    ensures
        frame_fields(m).len() == plain_count(frame_lead(m)),
        plain_frame(frame_lead(m), frame_fields(m)) == m,
        frame_tail(m).len() == 0,
{
}

proof fn lemma_body_back(m: FrameModel, rest: Seq<u8>)
    requires
        frame_writable(m),
        m matches FrameModel::Stream { data, .. } ==> data.len() > 0 || rest.len() == 0,
    ensures
        frame_body(frame_lead(m), fields_bytes(frame_fields(m)) + (frame_tail(m) + rest)) == Ok::<
            _,
            FrameError,
        >((m, rest)),
{
    let all = frame_fields(m);
    let s = fields_bytes(all) + (frame_tail(m) + rest);
    match m {
        FrameModel::Ack { largest_ack, ack_delay, ranges, ecn } => {
            lemma_ack_back(largest_ack, ack_delay, ranges, ecn, rest);
            assert(frame_tail(m) + rest =~= rest);
        },
        FrameModel::Crypto { offset, data } => {
            lemma_crypto_back(offset, data, rest);
        },
        FrameModel::NewToken { token } => {
            lemma_one_field(token.len() as u64);
            lemma_bytes_field_back(token, rest);
        },
        FrameModel::Stream { stream_id, offset, data, fin } => {
            lemma_stream_back(stream_id, offset, data, fin, rest);
        },
        FrameModel::NewConnectionId { sequence, retire_prior_to, id, reset_token } => {
            lemma_new_id_back(sequence, retire_prior_to, id, reset_token, rest);
        },
        FrameModel::PathChallenge { data } => {
            assert(s =~= data + rest);
            lemma_raw_field_back(data, rest, 8);
        },
        FrameModel::PathResponse { data } => {
            assert(s =~= data + rest);
            lemma_raw_field_back(data, rest, 8);
        },
        FrameModel::ConnectionClose { error_code, frame_type, reason } => {
            lemma_close_back(error_code, frame_type, reason, rest);
        },
        FrameModel::Padding | FrameModel::Ping | FrameModel::HandshakeDone => {
            assert(s =~= rest);
        },
        _ => {
            assert(is_plain(m));
            lemma_plain_frame(m);
            lemma_varint_fields_back(all, frame_tail(m) + rest);
            assert(frame_tail(m) + rest =~= rest);
        },
    }
}

/// Law: parsing a written frame gives the frame back and leaves what follows
/// it. An empty STREAM frame carries no length, so nothing may follow it.
pub proof fn law_frame_round_trip(m: FrameModel, rest: Seq<u8>)
    requires
        frame_writable(m),
        m matches FrameModel::Stream { data, .. } ==> data.len() > 0 || rest.len() == 0,
    ensures
        frame_at(frame_bytes(m) + rest) == Ok::<_, FrameError>((m, rest)),
        sound_prefix(frame_fields(m)) == frame_fields(m).len(),
{
    let s = frame_bytes(m) + rest;
    let lead = frame_lead(m);
    let body = fields_bytes(frame_fields(m)) + (frame_tail(m) + rest);
    assert(s[0] == lead);
    assert(lead <= FRAME_HANDSHAKE_DONE);
    assert(s.take(1) =~= seq![lead]);
    crate::wire::lemma_be_value_small(s.take(1));
    assert(varint::varint_at(s) == Ok::<_, VarIntError>((lead as u64, 1nat)));
    assert(s.skip(1) =~= body);
    lemma_body_back(m, rest);
    lemma_sound_prefix(frame_fields(m), frame_fields(m).len());
}

// ---------------------------------------------------------------------------
// The layout of each frame
// ---------------------------------------------------------------------------

/// Whether the bytes of `e` are one varint, in whichever length, of value `v`.
pub open spec fn spells(e: Seq<u8>, v: u64) -> bool {
    varint::varint_at(e) == Ok::<(u64, nat), VarIntError>((v, e.len()))
}

/// Byte strings, one after the other.
pub open spec fn joined(es: Seq<Seq<u8>>) -> Seq<u8>
    decreases es.len(),
{
    if es.len() == 0 {
        Seq::empty()
    } else {
        es[0] + joined(es.skip(1))
    }
}

proof fn lemma_spelled(e: Seq<u8>, v: u64, rest: Seq<u8>)
    requires
        spells(e, v),
    ensures
        varint_field(e + rest) == Ok::<_, FrameError>((v, rest)),
{
    varint::law_varint_no_lookahead(e, rest);
    assert(e.take(e.len() as int) =~= e);
    assert((e + rest).skip(e.len() as int) =~= rest);
}

proof fn lemma_spelled_fields(es: Seq<Seq<u8>>, vs: Seq<u64>, rest: Seq<u8>)
    requires
        es.len() == vs.len(),
        forall|i: int| 0 <= i < es.len() ==> spells(#[trigger] es[i], vs[i]),
    ensures
        varint_fields(joined(es) + rest, vs.len()) == Ok::<_, FrameError>((vs, rest)),
    decreases es.len(),
{
    if es.len() == 0 {
        assert(joined(es) + rest =~= rest);
        assert(vs =~= Seq::<u64>::empty());
    } else {
        let t = joined(es.skip(1)) + rest;
        assert(joined(es) + rest =~= es[0] + t);
        lemma_spelled(es[0], vs[0], t);
        assert forall|i: int| 0 <= i < es.skip(1).len() implies spells(
            #[trigger] es.skip(1)[i],
            vs.skip(1)[i],
        ) by {
            assert(spells(es[i + 1], vs[i + 1]));
        }
        lemma_spelled_fields(es.skip(1), vs.skip(1), rest);
        assert(seq![vs[0]] + vs.skip(1) =~= vs);
    }
}

proof fn lemma_one_spelled(e: Seq<u8>, v: u64, rest: Seq<u8>)
    requires
        spells(e, v),
    ensures
        varint_fields(e + rest, 1) == Ok::<_, FrameError>((seq![v], rest)),
{
    let es = seq![e];
    reveal_with_fuel(joined, 2);
    assert(joined(es) + rest =~= e + rest);
    lemma_spelled_fields(es, seq![v], rest);
}

proof fn lemma_two_spelled(e: Seq<u8>, f: Seq<u8>, v: u64, w: u64, rest: Seq<u8>)
    requires
        spells(e, v),
        spells(f, w),
    ensures
        varint_fields(e + f + rest, 2) == Ok::<_, FrameError>((seq![v, w], rest)),
{
    let es = seq![e, f];
    reveal_with_fuel(joined, 3);
    assert(es.skip(1) =~= seq![f]);
    assert(joined(es) + rest =~= e + f + rest);
    lemma_spelled_fields(es, seq![v, w], rest);
}

proof fn lemma_three_spelled(
    e: Seq<u8>,
    f: Seq<u8>,
    g: Seq<u8>,
    v: u64,
    w: u64,
    x: u64,
    rest: Seq<u8>,
)
    requires
        spells(e, v),
        spells(f, w),
        spells(g, x),
    ensures
        varint_fields(e + f + g + rest, 3) == Ok::<_, FrameError>((seq![v, w, x], rest)),
{
    let es = seq![e, f, g];
    reveal_with_fuel(joined, 4);
    assert(es.skip(1) =~= seq![f, g]);
    assert(es.skip(1).skip(1) =~= seq![g]);
    assert(joined(es) + rest =~= e + f + g + rest);
    lemma_spelled_fields(es, seq![v, w, x], rest);
}

proof fn lemma_spelled_bytes(e: Seq<u8>, data: Seq<u8>, rest: Seq<u8>)
    requires
        spells(e, data.len() as u64),
        data.len() <= usize::MAX,
    ensures
        bytes_field(e + data + rest) == Ok::<_, FrameError>((data, rest)),
{
    let t = data + rest;
    assert(e + data + rest =~= e + t);
    lemma_spelled(e, data.len() as u64, t);
    assert(t.take(data.len() as int) =~= data);
    assert(t.skip(data.len() as int) =~= rest);
}

/// A frame that starts with one of the type bytes is read by it.
proof fn lemma_typed(ty: u8, body: Seq<u8>)
    requires
        ty <= 0x1e,
    ensures
        frame_at(seq![ty] + body) == frame_body(ty, body),
{
    let s = seq![ty] + body;
    varint::law_varint_value(s);
    assert(s.skip(1) =~= body);
}

/// Law: PADDING, PING and HANDSHAKE_DONE are their type bytes, 0x00, 0x01 and
/// 0x1e, and nothing else.
pub proof fn law_bare_frame_layout(rest: Seq<u8>)
    ensures
        frame_at(seq![0x00u8] + rest) == Ok::<_, FrameError>((FrameModel::Padding, rest)),
        frame_at(seq![0x01u8] + rest) == Ok::<_, FrameError>((FrameModel::Ping, rest)),
        frame_at(seq![0x1eu8] + rest) == Ok::<_, FrameError>((FrameModel::HandshakeDone, rest)),
{
    lemma_typed(0x00, rest);
    lemma_typed(0x01, rest);
    lemma_typed(0x1e, rest);
}

/// Law: the frames that hold one number: MAX_DATA, MAX_STREAMS, DATA_BLOCKED,
/// STREAMS_BLOCKED and RETIRE_CONNECTION_ID are their type byte and the number.
/// The even type of a pair is the one for bidirectional streams.
#[verifier::rlimit(80)]
#[verifier::spinoff_prover]
pub proof fn law_one_number_layout(e: Seq<u8>, v: u64, rest: Seq<u8>)
    requires
        spells(e, v),
    ensures
        frame_at(seq![0x10u8] + e + rest) == Ok::<_, FrameError>(
            (FrameModel::MaxData { maximum: v }, rest),
        ),
        frame_at(seq![0x12u8] + e + rest) == Ok::<_, FrameError>(
            (FrameModel::MaxStreams { bidi: true, maximum: v }, rest),
        ),
        frame_at(seq![0x13u8] + e + rest) == Ok::<_, FrameError>(
            (FrameModel::MaxStreams { bidi: false, maximum: v }, rest),
        ),
        frame_at(seq![0x14u8] + e + rest) == Ok::<_, FrameError>(
            (FrameModel::DataBlocked { limit: v }, rest),
        ),
        frame_at(seq![0x16u8] + e + rest) == Ok::<_, FrameError>(
            (FrameModel::StreamsBlocked { bidi: true, limit: v }, rest),
        ),
        frame_at(seq![0x17u8] + e + rest) == Ok::<_, FrameError>(
            (FrameModel::StreamsBlocked { bidi: false, limit: v }, rest),
        ),
        frame_at(seq![0x19u8] + e + rest) == Ok::<_, FrameError>(
            (FrameModel::RetireConnectionId { sequence: v }, rest),
        ),
{
    lemma_one_spelled(e, v, rest);
    assert forall|ty: u8| #[trigger] (seq![ty] + e) + rest == seq![ty] + (e + rest) by {
        assert((seq![ty] + e) + rest =~= seq![ty] + (e + rest));
    }
    lemma_typed(0x10, e + rest);
    lemma_typed(0x12, e + rest);
    lemma_typed(0x13, e + rest);
    lemma_typed(0x14, e + rest);
    lemma_typed(0x16, e + rest);
    lemma_typed(0x17, e + rest);
    lemma_typed(0x19, e + rest);
}

/// Law: the frames that hold a stream and a number, in this order: STOP_SENDING
/// with an error code, MAX_STREAM_DATA with a maximum, and STREAM_DATA_BLOCKED
/// with a limit.
#[verifier::rlimit(80)]
#[verifier::spinoff_prover]
pub proof fn law_stream_number_layout(e: Seq<u8>, f: Seq<u8>, id: u64, v: u64, rest: Seq<u8>)
    requires
        spells(e, id),
        spells(f, v),
    ensures
        frame_at(seq![0x05u8] + e + f + rest) == Ok::<_, FrameError>(
            (FrameModel::StopSending { stream_id: id, error_code: v }, rest),
        ),
        frame_at(seq![0x11u8] + e + f + rest) == Ok::<_, FrameError>(
            (FrameModel::MaxStreamData { stream_id: id, maximum: v }, rest),
        ),
        frame_at(seq![0x15u8] + e + f + rest) == Ok::<_, FrameError>(
            (FrameModel::StreamDataBlocked { stream_id: id, limit: v }, rest),
        ),
{
    lemma_two_spelled(e, f, id, v, rest);
    let body = e + f + rest;
    assert(seq![0x05u8] + e + f + rest =~= seq![0x05u8] + body);
    assert(seq![0x11u8] + e + f + rest =~= seq![0x11u8] + body);
    assert(seq![0x15u8] + e + f + rest =~= seq![0x15u8] + body);
    lemma_typed(0x05, body);
    lemma_typed(0x11, body);
    lemma_typed(0x15, body);
}

/// Law: RESET_STREAM is the type byte 0x04, the stream, the error code and the
/// final size, in this order.
#[verifier::rlimit(80)]
#[verifier::spinoff_prover]
pub proof fn law_reset_stream_layout(
    e: Seq<u8>,
    f: Seq<u8>,
    g: Seq<u8>,
    id: u64,
    code: u64,
    size: u64,
    rest: Seq<u8>,
)
    requires
        spells(e, id),
        spells(f, code),
        spells(g, size),
    ensures
        frame_at(seq![0x04u8] + e + f + g + rest) == Ok::<_, FrameError>(
            (FrameModel::ResetStream { stream_id: id, error_code: code, final_size: size }, rest),
        ),
{
    lemma_three_spelled(e, f, g, id, code, size, rest);
    let body = e + f + g + rest;
    assert(seq![0x04u8] + e + f + g + rest =~= seq![0x04u8] + body);
    lemma_typed(0x04, body);
}

/// Law: CRYPTO is the type byte 0x06, the offset, the length of the data and the
/// data; NEW_TOKEN is the type byte 0x07, the length of the token and the token.
#[verifier::rlimit(80)]
#[verifier::spinoff_prover]
pub proof fn law_data_frame_layout(
    e: Seq<u8>,
    f: Seq<u8>,
    offset: u64,
    data: Seq<u8>,
    rest: Seq<u8>,
)
    requires
        spells(e, offset),
        spells(f, data.len() as u64),
        data.len() <= usize::MAX,
    ensures
        frame_at(seq![0x06u8] + e + f + data + rest) == Ok::<_, FrameError>(
            (FrameModel::Crypto { offset, data }, rest),
        ),
        frame_at(seq![0x07u8] + f + data + rest) == Ok::<_, FrameError>(
            (FrameModel::NewToken { token: data }, rest),
        ),
{
    let t = f + data + rest;
    lemma_spelled_bytes(f, data, rest);
    lemma_spelled(e, offset, t);
    assert(seq![0x06u8] + e + f + data + rest =~= seq![0x06u8] + (e + t));
    assert(seq![0x07u8] + f + data + rest =~= seq![0x07u8] + t);
    lemma_typed(0x06, e + t);
    lemma_typed(0x07, t);
}

/// The body of a STREAM frame, part by part.
proof fn lemma_stream_parts(
    off: bool,
    len: bool,
    fin: bool,
    e: Seq<u8>,
    f: Seq<u8>,
    g: Seq<u8>,
    id: u64,
    offset: u64,
    data: Seq<u8>,
    rest: Seq<u8>,
)
    requires
        spells(e, id),
        off ==> spells(f, offset),
        !off ==> f.len() == 0 && offset == 0,
        len ==> spells(g, data.len() as u64),
        !len ==> g.len() == 0 && rest.len() == 0,
        data.len() <= usize::MAX,
    ensures
        stream_body(off, len, fin, e + f + (g + data + rest)) == Ok::<_, FrameError>(
            (FrameModel::Stream { stream_id: id, offset, data, fin }, rest),
        ),
{
    let t = g + data + rest;
    if off {
        lemma_two_spelled(e, f, id, offset, t);
    } else {
        assert(e + f + t =~= e + t);
        lemma_one_spelled(e, id, t);
    }
    if len {
        lemma_spelled_bytes(g, data, rest);
    } else {
        assert(t =~= data);
        assert(rest =~= Seq::<u8>::empty());
    }
}

proof fn lemma_stream_typed(off: bool, len: bool, fin: bool, ty: u8, body: Seq<u8>)
    requires
        ty == 0x08 + (if off {
            4int
        } else {
            0
        }) + (if len {
            2int
        } else {
            0
        }) + (if fin {
            1int
        } else {
            0
        }),
    ensures
        frame_read(seq![ty] + body) == stream_body(off, len, fin, body),
{
    reveal(frame_read);
    lemma_typed(ty, body);
    assert(ty % 8 >= 4 <==> off);
    assert(ty % 4 >= 2 <==> len);
    assert(ty % 2 == 1 <==> fin);
}

proof fn lemma_stream_read(
    off: bool,
    len: bool,
    fin: bool,
    ty: u8,
    e: Seq<u8>,
    f: Seq<u8>,
    g: Seq<u8>,
    id: u64,
    offset: u64,
    data: Seq<u8>,
    rest: Seq<u8>,
)
    requires
        ty == 0x08 + (if off {
            4int
        } else {
            0
        }) + (if len {
            2int
        } else {
            0
        }) + (if fin {
            1int
        } else {
            0
        }),
        spells(e, id),
        off ==> spells(f, offset),
        !off ==> f.len() == 0 && offset == 0,
        len ==> spells(g, data.len() as u64),
        !len ==> g.len() == 0 && rest.len() == 0,
        data.len() <= usize::MAX,
    ensures
        frame_read(seq![ty] + e + f + g + data + rest) == Ok::<_, FrameError>(
            (FrameModel::Stream { stream_id: id, offset, data, fin }, rest),
        ),
{
    let body = e + f + (g + data + rest);
    lemma_stream_parts(off, len, fin, e, f, g, id, offset, data, rest);
    assert(seq![ty] + e + f + g + data + rest =~= seq![ty] + body);
    lemma_stream_typed(off, len, fin, ty, body);
}

/// Law: STREAM is a type byte from 0x08 to 0x0f, the stream, the offset if the
/// bit 0x04 of the type is set, the length of the data if the bit 0x02 is set,
/// and the data. Without an offset the data starts at 0, and without a length it
/// runs to the end. The bit 0x01 is the end of the stream.
#[verifier::rlimit(80)]
#[verifier::spinoff_prover]
pub proof fn law_stream_frame_layout(
    off: bool,
    len: bool,
    fin: bool,
    e: Seq<u8>,
    f: Seq<u8>,
    g: Seq<u8>,
    id: u64,
    offset: u64,
    data: Seq<u8>,
    rest: Seq<u8>,
)
    requires
        spells(e, id),
        off ==> spells(f, offset),
        !off ==> f.len() == 0 && offset == 0,
        len ==> spells(g, data.len() as u64),
        !len ==> g.len() == 0 && rest.len() == 0,
        data.len() <= usize::MAX,
    ensures
        ({
            let ty = (0x08 + (if off {
                4int
            } else {
                0
            }) + (if len {
                2int
            } else {
                0
            }) + (if fin {
                1int
            } else {
                0
            })) as u8;
            frame_at(seq![ty] + e + f + g + data + rest) == Ok::<_, FrameError>(
                (FrameModel::Stream { stream_id: id, offset, data, fin }, rest),
            )
        }),
{
    let ty = (0x08 + (if off {
        4int
    } else {
        0
    }) + (if len {
        2int
    } else {
        0
    }) + (if fin {
        1int
    } else {
        0
    })) as u8;
    reveal(frame_read);
    lemma_stream_read(off, len, fin, ty, e, f, g, id, offset, data, rest);
}

/// Law: NEW_CONNECTION_ID is the type byte 0x18, the sequence number, the number
/// to retire up to, one byte with the length of the ID, the ID and a token of 16
/// bytes. An ID of no bytes, or of more than 20, is refused.
#[verifier::rlimit(80)]
#[verifier::spinoff_prover]
pub proof fn law_new_id_layout(
    e: Seq<u8>,
    f: Seq<u8>,
    sequence: u64,
    retire_prior_to: u64,
    len: u8,
    id: Seq<u8>,
    reset_token: Seq<u8>,
    rest: Seq<u8>,
)
    requires
        spells(e, sequence),
        spells(f, retire_prior_to),
        reset_token.len() == 16,
        id.len() == len,
    ensures
        frame_at(seq![0x18u8] + e + f + seq![len] + id + reset_token + rest) == if 1 <= len <= 20 {
            Ok::<_, FrameError>(
                (
                    FrameModel::NewConnectionId { sequence, retire_prior_to, id, reset_token },
                    rest,
                ),
            )
        } else {
            Err(FrameError::InvalidCidLength(len))
        },
{
    let w = reset_token + rest;
    let u = id + w;
    let t = seq![len] + u;
    lemma_two_spelled(e, f, sequence, retire_prior_to, t);
    assert(seq![0x18u8] + e + f + seq![len] + id + reset_token + rest =~= seq![0x18u8] + (e + f
        + t));
    lemma_typed(0x18, e + f + t);
    assert(t.take(1) =~= seq![len]);
    assert(t.skip(1) =~= u);
    assert(u.take(len as int) =~= id);
    assert(u.skip(len as int) =~= w);
    assert(w.take(16) =~= reset_token);
    assert(w.skip(16) =~= rest);
}

/// Law: PATH_CHALLENGE and PATH_RESPONSE are the type bytes 0x1a and 0x1b and
/// eight bytes of data.
#[verifier::rlimit(80)]
#[verifier::spinoff_prover]
pub proof fn law_path_frame_layout(data: Seq<u8>, rest: Seq<u8>)
    requires
        data.len() == 8,
    ensures
        frame_at(seq![0x1au8] + data + rest) == Ok::<_, FrameError>(
            (FrameModel::PathChallenge { data }, rest),
        ),
        frame_at(seq![0x1bu8] + data + rest) == Ok::<_, FrameError>(
            (FrameModel::PathResponse { data }, rest),
        ),
{
    let t = data + rest;
    assert(seq![0x1au8] + data + rest =~= seq![0x1au8] + t);
    assert(seq![0x1bu8] + data + rest =~= seq![0x1bu8] + t);
    lemma_typed(0x1a, t);
    lemma_typed(0x1b, t);
    assert(t.take(8) =~= data);
    assert(t.skip(8) =~= rest);
}

/// The bodies of CONNECTION_CLOSE frames, part by part.
proof fn lemma_close_parts(
    e: Seq<u8>,
    f: Seq<u8>,
    g: Seq<u8>,
    code: u64,
    ty: u64,
    reason: Seq<u8>,
    rest: Seq<u8>,
)
    requires
        spells(e, code),
        spells(f, ty),
        spells(g, reason.len() as u64),
        reason.len() <= usize::MAX,
    ensures
        close_body(false, e + f + (g + reason + rest)) == Ok::<_, FrameError>(
            (FrameModel::ConnectionClose { error_code: code, frame_type: Some(ty), reason }, rest),
        ),
        close_body(true, e + (g + reason + rest)) == Ok::<_, FrameError>(
            (FrameModel::ConnectionClose { error_code: code, frame_type: None, reason }, rest),
        ),
{
    let t = g + reason + rest;
    lemma_spelled_bytes(g, reason, rest);
    lemma_two_spelled(e, f, code, ty, t);
    lemma_one_spelled(e, code, t);
}

/// Law: CONNECTION_CLOSE is the type byte 0x1c, the error code, the frame type,
/// the length of the reason and the reason; of an application it is the type
/// byte 0x1d, and has no frame type.
#[verifier::rlimit(80)]
#[verifier::spinoff_prover]
pub proof fn law_close_frame_layout(
    e: Seq<u8>,
    f: Seq<u8>,
    g: Seq<u8>,
    code: u64,
    ty: u64,
    reason: Seq<u8>,
    rest: Seq<u8>,
)
    requires
        spells(e, code),
        spells(f, ty),
        spells(g, reason.len() as u64),
        reason.len() <= usize::MAX,
    ensures
        frame_at(seq![0x1cu8] + e + f + g + reason + rest) == Ok::<_, FrameError>(
            (FrameModel::ConnectionClose { error_code: code, frame_type: Some(ty), reason }, rest),
        ),
        frame_at(seq![0x1du8] + e + g + reason + rest) == Ok::<_, FrameError>(
            (FrameModel::ConnectionClose { error_code: code, frame_type: None, reason }, rest),
        ),
{
    let t = g + reason + rest;
    lemma_close_parts(e, f, g, code, ty, reason, rest);
    assert(seq![0x1cu8] + e + f + g + reason + rest == seq![0x1cu8] + (e + f + t)) by {
        assert(seq![0x1cu8] + e + f + g + reason + rest =~= seq![0x1cu8] + (e + f + t));
    }
    assert(seq![0x1du8] + e + g + reason + rest == seq![0x1du8] + (e + t)) by {
        assert(seq![0x1du8] + e + g + reason + rest =~= seq![0x1du8] + (e + t));
    }
    lemma_typed(0x1c, e + f + t);
    lemma_typed(0x1d, e + t);
    assert(frame_body(0x1c, e + f + t) == close_body(false, e + f + t));
    assert(frame_body(0x1d, e + t) == close_body(true, e + t));
}

/// The varints of the ranges that follow the first.
pub open spec fn range_numbers(more: Seq<AckRange>) -> Seq<u64> {
    Seq::new(
        2 * more.len(),
        |j: int|
            if j % 2 == 0 {
                more[j / 2].gap
            } else {
                more[j / 2].range
            },
    )
}

/// Whether byte strings spell numbers, one by one.
pub open spec fn spell_all(es: Seq<Seq<u8>>, vs: Seq<u64>) -> bool {
    &&& es.len() == vs.len()
    &&& forall|i: int| 0 <= i < es.len() ==> spells(#[trigger] es[i], vs[i])
}

/// The bodies of ACK frames, part by part.
proof fn lemma_ack_parts(
    h: Seq<Seq<u8>>,
    largest_ack: u64,
    ack_delay: u64,
    first: u64,
    es: Seq<Seq<u8>>,
    more: Seq<AckRange>,
    c: Seq<Seq<u8>>,
    counts: EcnCounts,
    rest: Seq<u8>,
)
    requires
        spell_all(h, seq![largest_ack, ack_delay, more.len() as u64, first]),
        more.len() <= VARINT_MAX,
        spell_all(es, range_numbers(more)),
        spell_all(c, seq![counts.ect0, counts.ect1, counts.ecn_ce]),
    ensures
        ({
            let ranges = seq![AckRange { gap: 0, range: first }] + more;
            &&& ack_body(false, joined(h) + (joined(es) + rest)) == Ok::<_, FrameError>(
                (FrameModel::Ack { largest_ack, ack_delay, ranges, ecn: None }, rest),
            )
            &&& ack_body(true, joined(h) + (joined(es) + (joined(c) + rest))) == Ok::<
                _,
                FrameError,
            >((FrameModel::Ack { largest_ack, ack_delay, ranges, ecn: Some(counts) }, rest))
        }),
{
    let vs = range_numbers(more);
    let head = seq![largest_ack, ack_delay, more.len() as u64, first];
    let tail = joined(c) + rest;
    assert(range_pairs(vs) =~= more);
    lemma_spelled_fields(es, vs, rest);
    lemma_spelled_fields(es, vs, tail);
    lemma_spelled_fields(h, head, joined(es) + rest);
    lemma_spelled_fields(h, head, joined(es) + tail);
    lemma_spelled_fields(c, seq![counts.ect0, counts.ect1, counts.ecn_ce], rest);
}

/// Law: ACK is the type byte 0x02, the largest acknowledged number, the delay,
/// how many ranges follow the first, the first range, and of each range that
/// follows the gap before it and the range. With the type byte 0x03 the three
/// ECN counts come last: ECT(0), ECT(1) and CE.
#[verifier::rlimit(80)]
#[verifier::spinoff_prover]
pub proof fn law_ack_layout(
    h: Seq<Seq<u8>>,
    largest_ack: u64,
    ack_delay: u64,
    first: u64,
    es: Seq<Seq<u8>>,
    more: Seq<AckRange>,
    c: Seq<Seq<u8>>,
    counts: EcnCounts,
    rest: Seq<u8>,
)
    requires
        spell_all(h, seq![largest_ack, ack_delay, more.len() as u64, first]),
        more.len() <= VARINT_MAX,
        spell_all(es, range_numbers(more)),
        spell_all(c, seq![counts.ect0, counts.ect1, counts.ecn_ce]),
    ensures
        ({
            let ranges = seq![AckRange { gap: 0, range: first }] + more;
            &&& frame_at(seq![0x02u8] + joined(h) + joined(es) + rest) == Ok::<_, FrameError>(
                (FrameModel::Ack { largest_ack, ack_delay, ranges, ecn: None }, rest),
            )
            &&& frame_at(seq![0x03u8] + joined(h) + joined(es) + joined(c) + rest) == Ok::<
                _,
                FrameError,
            >((FrameModel::Ack { largest_ack, ack_delay, ranges, ecn: Some(counts) }, rest))
        }),
{
    let plain = joined(h) + (joined(es) + rest);
    let counted = joined(h) + (joined(es) + (joined(c) + rest));
    lemma_ack_parts(h, largest_ack, ack_delay, first, es, more, c, counts, rest);
    assert(seq![0x02u8] + joined(h) + joined(es) + rest == seq![0x02u8] + plain) by {
        assert(seq![0x02u8] + joined(h) + joined(es) + rest =~= seq![0x02u8] + plain);
    }
    assert(seq![0x03u8] + joined(h) + joined(es) + joined(c) + rest == seq![0x03u8] + counted) by {
        assert(seq![0x03u8] + joined(h) + joined(es) + joined(c) + rest =~= seq![0x03u8] + counted);
    }
    lemma_typed(0x02, plain);
    lemma_typed(0x03, counted);
    assert(frame_body(0x02, plain) == ack_body(false, plain));
    assert(frame_body(0x03, counted) == ack_body(true, counted));
}

/// Law: no frame starts with any other byte. A type that takes more than one
/// byte is refused: as not minimal, where one byte could carry it.
pub proof fn law_other_types_refused(s: Seq<u8>)
    ensures
        s.len() == 0 || s[0] > 0x1e ==> frame_at(s) is Err,
        s.len() > 0 && 0x1e < s[0] < 0x40 ==> frame_at(s) == Err::<(FrameModel, Seq<u8>), _>(
            FrameError::UnknownType(s[0] as u64),
        ),
        s.len() > 0 && s[0] >= 0x40 ==> (varint::varint_at(s) matches Ok((v, _)) ==> frame_at(s)
            == Err::<(FrameModel, Seq<u8>), _>(
            if v < 0x40 {
                FrameError::NonMinimalType(v)
            } else {
                FrameError::UnknownType(v)
            },
        )),
{
    varint::law_varint_value(s);
}

/// Law: a list of varints is written one after the other.
pub proof fn law_fields_in_order(a: Seq<u64>, b: Seq<u64>, v: u64)
    ensures
        fields_bytes(a + b) == fields_bytes(a) + fields_bytes(b),
        fields_bytes(seq![v]) == varint::varint_bytes(v),
        fields_bytes(Seq::<u64>::empty()) == Seq::<u8>::empty(),
{
    lemma_fields_concat(a, b);
    lemma_one_field(v);
}

/// Law: what is written of each frame: its type byte, its numbers in order, each
/// in the shortest varint, and its bytes.
#[verifier::rlimit(60)]
pub proof fn law_frame_written(m: FrameModel)
    ensures
        match m {
            FrameModel::Padding => frame_bytes(m) == seq![0x00u8],
            FrameModel::Ping => frame_bytes(m) == seq![0x01u8],
            FrameModel::HandshakeDone => frame_bytes(m) == seq![0x1eu8],
            FrameModel::Ack { largest_ack, ack_delay, ranges, ecn } => ranges.len() > 0 ==> {
                let numbers = seq![
                    largest_ack,
                    ack_delay,
                    (ranges.len() - 1) as u64,
                    ranges[0].range,
                ] + range_numbers(ranges.skip(1));
                match ecn {
                    None => frame_bytes(m) == seq![0x02u8] + fields_bytes(numbers),
                    Some(c) => frame_bytes(m) == seq![0x03u8] + fields_bytes(
                        numbers + seq![c.ect0, c.ect1, c.ecn_ce],
                    ),
                }
            },
            FrameModel::ResetStream { stream_id, error_code, final_size } => frame_bytes(m)
                == seq![0x04u8] + fields_bytes(seq![stream_id, error_code, final_size]),
            FrameModel::StopSending { stream_id, error_code } => frame_bytes(m) == seq![0x05u8]
                + fields_bytes(seq![stream_id, error_code]),
            FrameModel::Crypto { offset, data } => frame_bytes(m) == seq![0x06u8] + fields_bytes(
                seq![offset, data.len() as u64],
            ) + data,
            FrameModel::NewToken { token } => frame_bytes(m) == seq![0x07u8] + fields_bytes(
                seq![token.len() as u64],
            ) + token,
            FrameModel::Stream { stream_id, offset, data, fin } => {
                let last = if fin {
                    1int
                } else {
                    0
                };
                frame_bytes(m) == if offset == 0 && data.len() == 0 {
                    seq![(0x08 + last) as u8] + fields_bytes(seq![stream_id])
                } else if offset == 0 {
                    seq![(0x0a + last) as u8] + fields_bytes(seq![stream_id, data.len() as u64])
                        + data
                } else if data.len() == 0 {
                    seq![(0x0c + last) as u8] + fields_bytes(seq![stream_id, offset])
                } else {
                    seq![(0x0e + last) as u8] + fields_bytes(
                        seq![stream_id, offset, data.len() as u64],
                    ) + data
                }
            },
            FrameModel::MaxData { maximum } => frame_bytes(m) == seq![0x10u8] + fields_bytes(
                seq![maximum],
            ),
            FrameModel::MaxStreamData { stream_id, maximum } => frame_bytes(m) == seq![0x11u8]
                + fields_bytes(seq![stream_id, maximum]),
            FrameModel::MaxStreams { bidi, maximum } => frame_bytes(m) == seq![
                if bidi {
                    0x12u8
                } else {
                    0x13u8
                },
            ] + fields_bytes(seq![maximum]),
            FrameModel::DataBlocked { limit } => frame_bytes(m) == seq![0x14u8] + fields_bytes(
                seq![limit],
            ),
            FrameModel::StreamDataBlocked { stream_id, limit } => frame_bytes(m) == seq![0x15u8]
                + fields_bytes(seq![stream_id, limit]),
            FrameModel::StreamsBlocked { bidi, limit } => frame_bytes(m) == seq![
                if bidi {
                    0x16u8
                } else {
                    0x17u8
                },
            ] + fields_bytes(seq![limit]),
            FrameModel::NewConnectionId { sequence, retire_prior_to, id, reset_token } =>
                frame_bytes(m) == seq![0x18u8] + fields_bytes(seq![sequence, retire_prior_to])
                + seq![id.len() as u8] + id + reset_token,
            FrameModel::RetireConnectionId { sequence } => frame_bytes(m) == seq![0x19u8]
                + fields_bytes(seq![sequence]),
            FrameModel::PathChallenge { data } => frame_bytes(m) == seq![0x1au8] + data,
            FrameModel::PathResponse { data } => frame_bytes(m) == seq![0x1bu8] + data,
            FrameModel::ConnectionClose { error_code, frame_type, reason } => frame_bytes(m)
                == match frame_type {
                Some(ty) => seq![0x1cu8] + fields_bytes(seq![error_code, ty, reason.len() as u64])
                    + reason,
                None => seq![0x1du8] + fields_bytes(seq![error_code, reason.len() as u64])
                    + reason,
            },
        },
{
    let none = Seq::<u8>::empty();
    assert(fields_bytes(Seq::<u64>::empty()) =~= none);
    match m {
        FrameModel::Ack { largest_ack, ack_delay, ranges, ecn } => {
            if ranges.len() > 0 {
                assert(flat_ranges(ranges.skip(1)) =~= range_numbers(ranges.skip(1)));
                let numbers = seq![
                    largest_ack,
                    ack_delay,
                    (ranges.len() - 1) as u64,
                    ranges[0].range,
                ] + range_numbers(ranges.skip(1));
                assert(numbers + Seq::<u64>::empty() =~= numbers);
                assert(frame_bytes(m) =~= seq![frame_lead(m)] + fields_bytes(frame_fields(m)));
            }
        },
        FrameModel::Stream { stream_id, offset, data, .. } => {
            let fields = frame_fields(m);
            if offset == 0 && data.len() == 0 {
                assert(fields =~= seq![stream_id]);
                assert(data =~= none);
            } else if offset == 0 {
                assert(fields =~= seq![stream_id, data.len() as u64]);
            } else if data.len() == 0 {
                assert(fields =~= seq![stream_id, offset]);
                assert(data =~= none);
            } else {
                assert(fields =~= seq![stream_id, offset, data.len() as u64]);
            }
            assert(frame_bytes(m) =~= seq![frame_lead(m)] + fields_bytes(fields) + data);
            if data.len() == 0 {
                assert(frame_bytes(m) =~= seq![frame_lead(m)] + fields_bytes(fields));
            }
        },
        FrameModel::NewConnectionId { .. } => {
            assert(frame_bytes(m) =~= seq![frame_lead(m)] + fields_bytes(frame_fields(m))
                + frame_tail(m));
        },
        FrameModel::ConnectionClose { error_code, frame_type, reason } => {
            if let Some(ty) = frame_type {
                assert(frame_fields(m) =~= seq![error_code, ty, reason.len() as u64]);
            } else {
                assert(frame_fields(m) =~= seq![error_code, reason.len() as u64]);
            }
        },
        FrameModel::Padding | FrameModel::Ping | FrameModel::HandshakeDone => {
            assert(frame_bytes(m) =~= seq![frame_lead(m)]);
        },
        FrameModel::PathChallenge { data } | FrameModel::PathResponse { data } => {
            assert(frame_bytes(m) =~= seq![frame_lead(m)] + data);
        },
        _ => {
            assert(frame_bytes(m) =~= seq![frame_lead(m)] + fields_bytes(frame_fields(m))
                + frame_tail(m));
            if frame_tail(m).len() == 0 {
                assert(frame_bytes(m) =~= seq![frame_lead(m)] + fields_bytes(frame_fields(m)));
            }
        },
    }
}

/// Law: the model of a frame has the frame's own fields, and the contents of its
/// byte strings.
pub proof fn law_frame_models(f: Frame)
    ensures
        match f {
            Frame::Padding => f@ == FrameModel::Padding,
            Frame::Ping => f@ == FrameModel::Ping,
            Frame::HandshakeDone => f@ == FrameModel::HandshakeDone,
            Frame::Ack { largest_ack, ack_delay, ranges, ecn } => f@ == (FrameModel::Ack {
                largest_ack,
                ack_delay,
                ranges: ranges@,
                ecn,
            }),
            Frame::ResetStream { stream_id, error_code, final_size } => f@
                == (FrameModel::ResetStream { stream_id, error_code, final_size }),
            Frame::StopSending { stream_id, error_code } => f@ == (FrameModel::StopSending {
                stream_id,
                error_code,
            }),
            Frame::Crypto { offset, data } => f@ == (FrameModel::Crypto {
                offset,
                data: buffer::bytes_content(&data),
            }),
            Frame::NewToken { token } => f@ == (FrameModel::NewToken {
                token: buffer::bytes_content(&token),
            }),
            Frame::Stream { stream_id, offset, data, fin } => f@ == (FrameModel::Stream {
                stream_id,
                offset,
                data: buffer::bytes_content(&data),
                fin,
            }),
            Frame::MaxData { maximum } => f@ == (FrameModel::MaxData { maximum }),
            Frame::MaxStreamData { stream_id, maximum } => f@ == (FrameModel::MaxStreamData {
                stream_id,
                maximum,
            }),
            Frame::MaxStreams { bidi, maximum } => f@ == (FrameModel::MaxStreams { bidi, maximum }),
            Frame::DataBlocked { limit } => f@ == (FrameModel::DataBlocked { limit }),
            Frame::StreamDataBlocked { stream_id, limit } => f@ == (FrameModel::StreamDataBlocked {
                stream_id,
                limit,
            }),
            Frame::StreamsBlocked { bidi, limit } => f@ == (FrameModel::StreamsBlocked {
                bidi,
                limit,
            }),
            Frame::NewConnectionId { sequence, retire_prior_to, id, reset_token } => f@
                == (FrameModel::NewConnectionId {
                sequence,
                retire_prior_to,
                id: buffer::bytes_content(&id.0),
                reset_token: reset_token@,
            }),
            Frame::RetireConnectionId { sequence } => f@ == (FrameModel::RetireConnectionId {
                sequence,
            }),
            Frame::PathChallenge { data } => f@ == (FrameModel::PathChallenge { data: data@ }),
            Frame::PathResponse { data } => f@ == (FrameModel::PathResponse { data: data@ }),
            Frame::ConnectionClose { error_code, frame_type, reason } => f@
                == (FrameModel::ConnectionClose {
                error_code,
                frame_type,
                reason: buffer::bytes_content(&reason),
            }),
        },
{
}

/// Law: fields are taken off the front. One that the input is too short for is
/// refused: a varint with its own error, raw bytes with how many were wanted.
pub proof fn law_fields_taken(a: Seq<u8>, rest: Seq<u8>, n: usize)
    ensures
        a.len() == n ==> raw_field(a + rest, n) == Ok::<_, FrameError>((a, rest)),
        a.len() < n ==> raw_field(a, n) == Err::<(Seq<u8>, Seq<u8>), _>(
            FrameError::Underflow { frame_type: 0, expected: n },
        ),
        varint::varint_at(a) matches Err(e) ==> varint_field(a) == Err::<(u64, Seq<u8>), _>(
            FrameError::VarInt(e),
        ) && bytes_field(a) == Err::<(Seq<u8>, Seq<u8>), _>(FrameError::VarInt(e)),
        varint::varint_at(a) matches Ok((v, k)) ==> (varint_field(a) matches Ok((w, r)) && w == v
            && r == a.skip(k as int)),
{
    assert((a + rest).take(a.len() as int) =~= a);
    assert((a + rest).skip(a.len() as int) =~= rest);
}

/// Law: the numbers of a frame that can be written are those before the first
/// that is above 2^62 - 1.
pub proof fn law_sound_prefix(vals: Seq<u64>)
    ensures
        sound_prefix(vals) <= vals.len(),
        forall|i: int|
            0 <= i < sound_prefix(vals) ==> #[trigger] vals[i] <= 0x3fff_ffff_ffff_ffff,
        sound_prefix(vals) < vals.len() ==> vals[sound_prefix(vals) as int]
            > 0x3fff_ffff_ffff_ffff,
    decreases vals.len(),
{
    if vals.len() > 0 && vals[0] <= VARINT_MAX {
        law_sound_prefix(vals.skip(1));
        assert forall|i: int| 0 <= i < sound_prefix(vals) implies #[trigger] vals[i]
            <= 0x3fff_ffff_ffff_ffff by {
            if i > 0 {
                assert(vals.skip(1)[i - 1] == vals[i]);
            }
        }
    }
}

/// Law: a frame that was written is parsed back from what was written, whatever
/// follows, in as many bytes as were written. What stood in the buffer before is
/// still there.
pub proof fn law_write_parse(
    f: &Frame,
    buf: &mut Vec<u8>,
    n: usize,
    read: &[u8],
    rest: Seq<u8>,
    r: Result<(Frame, usize), FrameError>,
)
    requires
        frame_writable(f@),
        f@ matches FrameModel::Stream { data, .. } ==> data.len() > 0 || rest.len() == 0,
        call_ensures(write_frame, (f, buf), Ok::<usize, FrameError>(n)),
        read@ == final(buf)@.skip(old(buf)@.len() as int) + rest,
        call_ensures(parse_frame, (read,), r),
    ensures
        final(buf)@.len() == old(buf)@.len() + n,
        final(buf)@.take(old(buf)@.len() as int) == old(buf)@,
        r matches Ok((g, k)) && g@ == f@ && k == n,
{
    law_frame_round_trip(f@, rest);
    assert(final(buf)@.skip(old(buf)@.len() as int) =~= frame_bytes(f@));
    assert(final(buf)@.take(old(buf)@.len() as int) =~= old(buf)@);
}

/// Law: a call of [`parse_frame`] reads the frame off the front of its input, and
/// consumes what that leaves out.
pub proof fn law_parse_reads(buf: &[u8], r: Result<(Frame, usize), FrameError>)
    requires
        call_ensures(parse_frame, (buf,), r),
    ensures
        r matches Ok((f, n)) ==> n <= buf@.len() && frame_at(buf@) == Ok::<_, FrameError>(
            (f@, buf@.skip(n as int)),
        ),
        r matches Err(e) ==> frame_at(buf@) == Err::<(FrameModel, Seq<u8>), _>(e),
{
}

/// Law: a connection ID has at most 20 bytes, and holds the bytes that it was
/// made of.
pub proof fn law_connection_id(bytes: Bytes, r: Result<ConnectionId, FrameError>)
    requires
        call_ensures(ConnectionId::new, (bytes,), r),
    ensures
        r is Ok <==> buffer::bytes_content(&bytes).len() <= 20,
        r matches Ok(id) ==> id@ == buffer::bytes_content(&bytes),
{
}

} // verus!
