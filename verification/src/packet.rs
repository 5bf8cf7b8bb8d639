//! QUIC packet header types and wire format.
//!
//! Supports long header (Initial, 0-RTT, Handshake, Retry, Version
//! Negotiation) and short header (1-RTT) packets, plus packet number decoding.
//!
//! [`long_header_at`] and [`short_header_at`] say what the front of a byte
//! string parses to, [`long_front`] and [`short_front`] what is written.

use bytes::Bytes;
use vstd::prelude::*;

use crate::buffer;
use crate::frame::{ConnectionId, FrameError};
use crate::varint;
use crate::varint::{VarInt, VarIntError, VARINT_MAX};
use crate::wire;

verus! {

/// Maximum connection ID length.
pub const MAX_CID_LEN: u8 = 20;

/// QUIC version 1.
pub const VERSION_1: u32 = 0x0000_0001;

/// QUIC version 2.
pub const VERSION_2: u32 = 0x6b33_43cf;

/// Packet numbers are below this (2^62).
pub const PN_LIMIT: u64 = 0x4000_0000_0000_0000;

/// Version used in Version Negotiation packets.
pub const VERSION_NEGOTIATION: u32 = 0x0000_0000;

#[derive(Debug, Clone, Copy, PartialEq, Eq)]
pub enum PacketError {
    /// The buffer is too short.
    BufferTooShort { needed: usize, actual: usize },
    /// The header form bit is not the one expected.
    InvalidHeaderForm { expected: u8, actual: u8 },
    /// The fixed bit must be 1.
    FixedBitNotSet,
    /// The reserved bits must be 0.
    ReservedBitsSet,
    /// No long packet has this type.
    UnknownLongType(u8),
    /// The connection ID is longer than [`MAX_CID_LEN`].
    InvalidCidLength(u8),
    VarInt(VarIntError),
    Frame(FrameError),
}

/// Long header packet types.
#[derive(Debug, Clone, Copy, PartialEq, Eq, Structural)]
pub enum LongType {
    /// Initial packet (type 0x00).
    Initial,
    /// 0-RTT packet (type 0x01).
    ZeroRtt,
    /// Handshake packet (type 0x02).
    Handshake,
    /// Retry packet (type 0x03).
    Retry,
    /// Version Negotiation (Version field = 0).
    VersionNegotiation,
}

/// The two type bits of a long header. Version Negotiation does not use them.
pub open spec fn long_type_bits(ty: LongType) -> u8 {
    match ty {
        LongType::Initial => 0,
        LongType::ZeroRtt => 1,
        LongType::Handshake => 2,
        LongType::Retry => 3,
        LongType::VersionNegotiation => 0,
    }
}

/// The packet type that two type bits stand for.
pub open spec fn long_type_of(bits: u8) -> LongType {
    if bits == 0 {
        LongType::Initial
    } else if bits == 1 {
        LongType::ZeroRtt
    } else if bits == 2 {
        LongType::Handshake
    } else {
        LongType::Retry
    }
}

impl LongType {
    /// Decode from the two Long Packet Type bits (byte 0, bits 4-5).
    pub fn from_bits(bits: u8) -> (r: Option<Self>)
        ensures
            r == if bits <= 3 {
                Some(long_type_of(bits))
            } else {
                None
            },
    {
        match bits {
            0 => Some(Self::Initial),
            1 => Some(Self::ZeroRtt),
            2 => Some(Self::Handshake),
            3 => Some(Self::Retry),
            _ => None,
        }
    }

    /// Encode as the two Long Packet Type bits.
    pub fn to_bits(self) -> (bits: u8)
        ensures
            bits == long_type_bits(self),
            bits <= 3,
    {
        match self {
            Self::Initial => 0,
            Self::ZeroRtt => 1,
            Self::Handshake => 2,
            Self::Retry => 3,
            // Version Negotiation does not use the type bits.
            Self::VersionNegotiation => 0,
        }
    }
}

/// Law: type bits are those of the type that they decode to, and every type
/// that uses them is the one its bits decode to.
pub proof fn law_long_type_bits(bits: u8, ty: LongType)
    ensures
        bits <= 3 ==> long_type_bits(long_type_of(bits)) == bits,
        ty != LongType::VersionNegotiation ==> long_type_of(long_type_bits(ty)) == ty,
        long_type_bits(ty) <= 3,
{
}

/// Decoded long header fields.
#[derive(Debug, Clone, PartialEq, Eq)]
pub struct LongHeader {
    /// The long packet type.
    pub ty: LongType,
    /// QUIC version.
    pub version: u32,
    /// Destination Connection ID.
    pub dst_cid: ConnectionId,
    /// Source Connection ID.
    pub src_cid: ConnectionId,
    /// Token (Initial packets only).
    pub token: Option<Bytes>,
    /// Payload length (absent in Retry and VN).
    pub length: Option<VarInt>,
    /// Truncated packet number as read from the wire (absent in Retry and VN).
    /// The full packet number must be reconstructed via [`decode_packet_number`].
    pub truncated_pn: Option<u32>,
    /// Length of the packet number field in bytes (1..=4).
    pub pn_len: Option<u8>,
}

/// A long header with its byte strings spelled out.
pub struct LongModel {
    pub ty: LongType,
    pub version: u32,
    pub dst_cid: Seq<u8>,
    pub src_cid: Seq<u8>,
    pub token: Option<Seq<u8>>,
    pub length: Option<u64>,
    pub truncated_pn: Option<u32>,
    pub pn_len: Option<u8>,
}

impl View for LongHeader {
    type V = LongModel;

    open spec fn view(&self) -> LongModel {
        LongModel {
            ty: self.ty,
            version: self.version,
            dst_cid: self.dst_cid@,
            src_cid: self.src_cid@,
            token: match self.token {
                Some(t) => Some(buffer::bytes_content(&t)),
                None => None,
            },
            length: self.length,
            truncated_pn: self.truncated_pn,
            pn_len: self.pn_len,
        }
    }
}

/// Decoded short header fields.
#[derive(Debug, Clone, PartialEq, Eq)]
pub struct ShortHeader {
    /// Spin bit value.
    pub spin: bool,
    /// Key phase bit value.
    pub key_phase: bool,
    /// Destination Connection ID.
    pub dst_cid: ConnectionId,
    /// Truncated packet number as read from the wire.
    pub truncated_pn: u32,
    /// Length of the packet number field in bytes (1..=4).
    pub pn_len: u8,
}

/// A short header with its connection ID spelled out.
pub struct ShortModel {
    pub spin: bool,
    pub key_phase: bool,
    pub dst_cid: Seq<u8>,
    pub truncated_pn: u32,
    pub pn_len: u8,
}

impl View for ShortHeader {
    type V = ShortModel;

    open spec fn view(&self) -> ShortModel {
        ShortModel {
            spin: self.spin,
            key_phase: self.key_phase,
            dst_cid: self.dst_cid@,
            truncated_pn: self.truncated_pn,
            pn_len: self.pn_len,
        }
    }
}

/// Packet number space.
#[derive(Debug, Clone, Copy, PartialEq, Eq, Hash, Structural)]
pub enum PacketNumberSpace {
    Initial,
    Handshake,
    ApplicationData,
}

// ---------------------------------------------------------------------------
// The format, read
// ---------------------------------------------------------------------------

/// The report that `needed` bytes are wanted and `s` has fewer.
pub open spec fn too_short(s: Seq<u8>, needed: int) -> PacketError {
    PacketError::BufferTooShort {
        needed: if needed > usize::MAX {
            usize::MAX
        } else {
            needed as usize
        },
        actual: s.len() as usize,
    }
}

/// The two connection IDs of a long header and where they end.
pub open spec fn long_ids_at(s: Seq<u8>) -> Result<(Seq<u8>, Seq<u8>, nat), PacketError> {
    if s.len() < 6 {
        Err(too_short(s, 6))
    } else if s[5] > MAX_CID_LEN {
        Err(PacketError::InvalidCidLength(s[5]))
    } else if s.len() < 7 + s[5] {
        Err(too_short(s, 7 + s[5]))
    } else {
        let at = 6 + s[5];
        if s[at] > MAX_CID_LEN {
            Err(PacketError::InvalidCidLength(s[at]))
        } else if s.len() < at + 1 + s[at] {
            Err(too_short(s, at + 1 + s[at]))
        } else {
            Ok((s.subrange(6, at), s.subrange(at + 1, at + 1 + s[at]), (at + 1 + s[at]) as nat))
        }
    }
}

/// What a Version Negotiation packet parses to. Its connection IDs may
/// announce any length, but only those of up to 20 bytes are taken.
pub open spec fn version_negotiation_at(s: Seq<u8>) -> Result<(LongModel, nat), PacketError> {
    if s.len() < 6 {
        Err(too_short(s, 6))
    } else if s.len() < 7 + s[5] {
        Err(too_short(s, 7 + s[5]))
    } else if s[5] > 20 {
        Err(PacketError::Frame(FrameError::InvalidCidLength(s[5])))
    } else {
        let at = 6 + s[5];
        let end = at + 1 + s[at];
        if s.len() < end {
            Err(too_short(s, end))
        } else if s[at] > 20 {
            Err(PacketError::Frame(FrameError::InvalidCidLength(s[at])))
        } else {
            Ok(
                (
                    LongModel {
                        ty: LongType::VersionNegotiation,
                        version: VERSION_NEGOTIATION,
                        dst_cid: s.subrange(6, at),
                        src_cid: s.subrange(at + 1, end),
                        token: None,
                        length: None,
                        truncated_pn: None,
                        pn_len: None,
                    },
                    end as nat,
                ),
            )
        }
    }
}

/// The token at `pos` and where it ends. Only Initial packets have one.
pub open spec fn token_at(ty: LongType, s: Seq<u8>, pos: nat) -> Result<
    (Option<Seq<u8>>, nat),
    PacketError,
> {
    if ty != LongType::Initial {
        Ok((None, pos))
    } else {
        match varint::varint_at(s.skip(pos as int)) {
            Err(e) => Err(PacketError::VarInt(e)),
            Ok((len, n)) => {
                let start = pos + n;
                let end = start + len as usize;
                if s.len() < end {
                    Err(too_short(s, end))
                } else {
                    Ok((Some(s.subrange(start as int, end)), end as nat))
                }
            },
        }
    }
}

/// The length and packet number at `pos` and where they end.
pub open spec fn length_and_pn_at(s: Seq<u8>, pos: nat) -> Result<(u64, u32, u8, nat), PacketError> {
    match varint::varint_at(s.skip(pos as int)) {
        Err(e) => Err(PacketError::VarInt(e)),
        Ok((length, n)) => {
            let start = pos + n;
            let pn_len = (s[0] % 4 + 1) as u8;
            if s.len() < start + pn_len {
                Err(too_short(s, start + pn_len))
            } else {
                Ok(
                    (
                        length,
                        wire::be_value(s.subrange(start as int, start + pn_len)) as u32,
                        pn_len,
                        (start + pn_len) as nat,
                    ),
                )
            }
        },
    }
}

/// What the front of `s` parses to as a long header: its fields, and where
/// its packet number ends.
pub open spec fn long_header_at(s: Seq<u8>) -> Result<(LongModel, nat), PacketError> {
    if s.len() < 1 {
        Err(too_short(s, 1))
    } else if s[0] < 0x80 {
        Err(PacketError::InvalidHeaderForm { expected: 1, actual: 0 })
    } else if s.len() < 5 {
        Err(too_short(s, 5))
    } else {
        let version = wire::be_value(s.subrange(1, 5)) as u32;
        let ty = long_type_of(s[0] / 16 % 4);
        if version == VERSION_NEGOTIATION {
            version_negotiation_at(s)
        } else if s[0] < 0xc0 {
            Err(PacketError::FixedBitNotSet)
        } else {
            match long_ids_at(s) {
                Err(e) => Err(e),
                Ok((dst_cid, src_cid, ids_end)) => if ty == LongType::Retry {
                    Ok(
                        (
                            LongModel {
                                ty,
                                version,
                                dst_cid,
                                src_cid,
                                token: None,
                                length: None,
                                truncated_pn: None,
                                pn_len: None,
                            },
                            ids_end,
                        ),
                    )
                } else {
                    match token_at(ty, s, ids_end) {
                        Err(e) => Err(e),
                        Ok((token, token_end)) => match length_and_pn_at(s, token_end) {
                            Err(e) => Err(e),
                            Ok((length, pn, pn_len, end)) => Ok(
                                (
                                    LongModel {
                                        ty,
                                        version,
                                        dst_cid,
                                        src_cid,
                                        token,
                                        length: Some(length),
                                        truncated_pn: Some(pn),
                                        pn_len: Some(pn_len),
                                    },
                                    end,
                                ),
                            ),
                        },
                    }
                },
            }
        }
    }
}

/// The connection ID of a short header, by what header protection leaves in
/// the clear: the form and fixed bits, and `cid_len` bytes behind them.
pub open spec fn short_id_at(s: Seq<u8>, cid_len: usize) -> Result<Seq<u8>, PacketError> {
    if s.len() < 1 {
        Err(too_short(s, 1))
    } else if s[0] >= 0x80 {
        Err(PacketError::InvalidHeaderForm { expected: 0, actual: 1 })
    } else if s[0] < 0x40 {
        Err(PacketError::FixedBitNotSet)
    } else if s.len() < 1 + cid_len {
        Err(too_short(s, 1 + cid_len))
    } else if cid_len > 20 {
        Err(PacketError::Frame(FrameError::InvalidCidLength(cid_len as u8)))
    } else {
        Ok(s.subrange(1, 1 + cid_len))
    }
}

/// What the front of `s` parses to as a short header whose connection ID has
/// `cid_len` bytes: its fields, and where its packet number ends.
pub open spec fn short_header_at(s: Seq<u8>, cid_len: usize) -> Result<
    (ShortModel, nat),
    PacketError,
> {
    if s.len() < 1 {
        Err(too_short(s, 1))
    } else if s[0] >= 0x80 {
        Err(PacketError::InvalidHeaderForm { expected: 0, actual: 1 })
    } else if s[0] < 0x40 {
        Err(PacketError::FixedBitNotSet)
    } else if s[0] / 8 % 4 != 0 || s[0] % 4 == 0 {
        Err(PacketError::ReservedBitsSet)
    } else if s.len() < 1 + cid_len {
        Err(too_short(s, 1 + cid_len))
    } else if cid_len > 20 {
        Err(PacketError::Frame(FrameError::InvalidCidLength(cid_len as u8)))
    } else {
        let pn_len = s[0] % 4;
        let start = 1 + cid_len;
        if s.len() < start + pn_len {
            Err(too_short(s, start + pn_len))
        } else {
            Ok(
                (
                    ShortModel {
                        spin: s[0] / 32 % 2 == 1,
                        key_phase: s[0] / 4 % 2 == 1,
                        dst_cid: s.subrange(1, start),
                        truncated_pn: wire::be_value(s.subrange(start, start + pn_len)) as u32,
                        pn_len,
                    },
                    (start + pn_len) as nat,
                ),
            )
        }
    }
}

// ---------------------------------------------------------------------------
// Parsing
// ---------------------------------------------------------------------------

/// Reports a buffer of fewer than `need` bytes.
pub fn ensure(buf: &[u8], need: usize) -> (r: Result<(), PacketError>)
    ensures
        r == if buf@.len() < need {
            Err::<(), _>(PacketError::BufferTooShort { needed: need, actual: buf@.len() as usize })
        } else {
            Ok(())
        },
{
    if buf.len() < need {
        Err(PacketError::BufferTooShort { needed: need, actual: buf.len() })
    } else {
        Ok(())
    }
}

/// Reports a buffer that has fewer than `more` bytes from `pos` on.
fn ensure_from(buf: &[u8], pos: usize, more: usize) -> (r: Result<(), PacketError>)
    requires
        pos <= buf@.len(),
    ensures
        r == if buf@.len() < pos + more {
            Err::<(), _>(too_short(buf@, pos + more))
        } else {
            Ok(())
        },
{
    if buf.len() - pos < more {
        Err(PacketError::BufferTooShort { needed: pos.saturating_add(more), actual: buf.len() })
    } else {
        Ok(())
    }
}

/// The bytes of `buf` from `start` to `end` as a connection ID.
fn take_cid(buf: &[u8], start: usize, end: usize) -> (r: Result<ConnectionId, PacketError>)
    requires
        start <= end <= buf@.len(),
    ensures
        match r {
            Ok(id) => end - start <= 20 && id@ == buf@.subrange(start as int, end as int),
            Err(e) => end - start > 20 && e == PacketError::Frame(
                FrameError::InvalidCidLength((end - start) as u8),
            ),
        },
{
    match ConnectionId::new(
        Bytes::copy_from_slice(vstd::slice::slice_subrange(buf, start, end)),
    ) {
        Ok(id) => Ok(id),
        Err(e) => Err(PacketError::Frame(e)),
    }
}

/// Reads a packet number field of `len` bytes, and 0 for any other length
/// than 1 to 4.
pub fn read_pn(buf: &[u8], len: u8) -> (pn: u32)
    requires
        1 <= len <= 4 ==> len <= buf@.len(),
    ensures
        pn == if 1 <= len <= 4 {
            wire::be_value(buf@.take(len as int))
        } else {
            0
        },
{
    if len < 1 || len > 4 {
        return 0;
    }
    wire::read_be(vstd::slice::slice_subrange(buf, 0, len as usize))
}

/// What shifting and masking read off a first byte.
proof fn lemma_first_byte(first: u8)
    ensures
        ((first & 0x80) == 0) == (first < 0x80),
        first >= 0x80 ==> ((first & 0x40) == 0) == (first < 0xc0),
        first < 0x80 ==> ((first & 0x40) == 0) == (first < 0x40),
        (first >> 4) & 3 == first / 16 % 4,
        first & 3 == first % 4,
        ((first & 0x20) != 0) == (first / 32 % 2 == 1),
        (first >> 3) & 3 == first / 8 % 4,
        ((first & 4) != 0) == (first / 4 % 2 == 1),
{
    assert({
        &&& ((first & 0x80) == 0) == (first < 0x80)
        &&& first >= 0x80 ==> ((first & 0x40) == 0) == (first < 0xc0)
        &&& first < 0x80 ==> ((first & 0x40) == 0) == (first < 0x40)
        &&& (first >> 4) & 3 == first / 16 % 4
        &&& first & 3 == first % 4
        &&& ((first & 0x20) != 0) == (first / 32 % 2 == 1)
        &&& (first >> 3) & 3 == first / 8 % 4
        &&& ((first & 4) != 0) == (first / 4 % 2 == 1)
    }) by (bit_vector);
}

/// Parses the two connection IDs of a long header.
fn parse_long_ids(buf: &[u8]) -> (r: Result<(ConnectionId, ConnectionId, usize), PacketError>)
    ensures
        match long_ids_at(buf@) {
            Err(e) => r == Err::<(ConnectionId, ConnectionId, usize), _>(e),
            Ok((dst, src, end)) => {
                &&& r matches Ok((d, s, n))
                &&& d@ == dst
                &&& s@ == src
                &&& n == end
                &&& end <= buf@.len()
            },
        },
{
    ensure(buf, 6)?;
    let dst_cid_len: usize = buf[5] as usize;
    if dst_cid_len > MAX_CID_LEN as usize {
        return Err(PacketError::InvalidCidLength(dst_cid_len as u8));
    }
    ensure(buf, 7 + dst_cid_len)?;
    let src_cid_start: usize = 6 + dst_cid_len;
    let dst_cid = take_cid(buf, 6, src_cid_start)?;
    let src_cid_len: usize = buf[src_cid_start] as usize;
    if src_cid_len > MAX_CID_LEN as usize {
        return Err(PacketError::InvalidCidLength(src_cid_len as u8));
    }
    let data_start: usize = src_cid_start + 1;
    ensure(buf, data_start + src_cid_len)?;
    let src_cid = take_cid(buf, data_start, data_start + src_cid_len)?;
    Ok((dst_cid, src_cid, data_start + src_cid_len))
}

/// Parses the token of an Initial packet.
fn parse_token(ty: LongType, buf: &[u8], pos: usize) -> (r: Result<
    (Option<Bytes>, usize),
    PacketError,
>)
    requires
        pos <= buf@.len(),
    ensures
        match token_at(ty, buf@, pos as nat) {
            Err(e) => r == Err::<(Option<Bytes>, usize), _>(e),
            Ok((token, end)) => {
                &&& r matches Ok((t, n))
                &&& (match t {
                    Some(b) => token == Some(buffer::bytes_content(&b)),
                    None => token is None,
                })
                &&& n == end
                &&& end <= buf@.len()
            },
        },
{
    if ty != LongType::Initial {
        return Ok((None, pos));
    }
    let rest = vstd::slice::slice_subrange(buf, pos, buf.len());
    proof {
        varint::law_varint_at_bounds(rest@);
        assert(rest@ =~= buf@.skip(pos as int));
    }
    match varint::decode(rest) {
        Err(e) => Err(PacketError::VarInt(e)),
        Ok((token_len, n)) => {
            let start: usize = pos + n;
            let len: usize = token_len as usize;
            ensure_from(buf, start, len)?;
            let token = Bytes::copy_from_slice(
                vstd::slice::slice_subrange(buf, start, start + len),
            );
            Ok((Some(token), start + len))
        },
    }
}

/// Parses the length and packet number of a long header.
fn parse_length_and_pn(buf: &[u8], pos: usize) -> (r: Result<(VarInt, u32, u8, usize), PacketError>)
    requires
        pos <= buf@.len(),
        buf@.len() > 0,
    ensures
        match length_and_pn_at(buf@, pos as nat) {
            Err(e) => r == Err::<(VarInt, u32, u8, usize), _>(e),
            Ok((length, pn, pn_len, end)) => {
                &&& r == Ok::<_, PacketError>((length, pn, pn_len, end as usize))
                &&& end <= buf@.len()
            },
        },
{
    let rest = vstd::slice::slice_subrange(buf, pos, buf.len());
    proof {
        varint::law_varint_at_bounds(rest@);
        assert(rest@ =~= buf@.skip(pos as int));
        lemma_first_byte(buf@[0]);
    }
    match varint::decode(rest) {
        Err(e) => Err(PacketError::VarInt(e)),
        Ok((length, n)) => {
            let start: usize = pos + n;
            let pn_len: u8 = (buf[0] & 0x03) + 1;
            ensure_from(buf, start, pn_len as usize)?;
            let field = vstd::slice::slice_subrange(buf, start, buf.len());
            let pn: u32 = read_pn(field, pn_len);
            assert(field@.take(pn_len as int) =~= buf@.subrange(start as int, start + pn_len));
            Ok((length, pn, pn_len, start + pn_len as usize))
        },
    }
}

/// Parse the body of a Version Negotiation packet.
fn parse_version_negotiation(buf: &[u8]) -> (r: Result<(LongHeader, usize), PacketError>)
    ensures
        match version_negotiation_at(buf@) {
            Err(e) => r == Err::<(LongHeader, usize), _>(e),
            Ok((m, end)) => r matches Ok((h, n)) && h@ == m && n == end && end <= buf@.len(),
        },
{
    ensure(buf, 6)?;
    let dst_cid_len: usize = buf[5] as usize;
    ensure(buf, 7 + dst_cid_len)?;
    let src_cid_start: usize = 6 + dst_cid_len;
    let dst_cid = take_cid(buf, 6, src_cid_start)?;
    let src_cid_len: usize = buf[src_cid_start] as usize;
    let data_start: usize = src_cid_start + 1;
    ensure(buf, data_start + src_cid_len)?;
    let header_end: usize = data_start + src_cid_len;
    let src_cid = take_cid(buf, data_start, header_end)?;
    Ok(
        (
            LongHeader {
                ty: LongType::VersionNegotiation,
                version: VERSION_NEGOTIATION,
                dst_cid,
                src_cid,
                token: None,
                length: None,
                truncated_pn: None,
                pn_len: None,
            },
            header_end,
        ),
    )
}

/// Parse a long header packet from `buf`.
///
/// Returns the parsed header and the number of bytes consumed
/// (up to and including the packet number field, but not the payload).
pub fn parse_long_header(buf: &[u8]) -> (r: Result<(LongHeader, usize), PacketError>)
    ensures
        match long_header_at(buf@) {
            Err(e) => r == Err::<(LongHeader, usize), _>(e),
            Ok((m, end)) => r matches Ok((h, n)) && h@ == m && n == end && end <= buf@.len(),
        },
{
    ensure(buf, 1)?;
    let first: u8 = buf[0];
    proof {
        lemma_first_byte(first);
    }
    // Header Form bit (MSB) must be 1.
    if (first & 0x80) == 0 {
        return Err(PacketError::InvalidHeaderForm { expected: 1, actual: 0 });
    }
    let fixed: bool = (first & 0x40) != 0;
    let type_bits: u8 = (first >> 4) & 0x03;
    ensure(buf, 5)?;
    let version: u32 = wire::read_be(vstd::slice::slice_subrange(buf, 1, 5));
    // Version Negotiation is identified by version == 0, not by type bits.
    if version == VERSION_NEGOTIATION {
        return parse_version_negotiation(buf);
    }
    let ty = match LongType::from_bits(type_bits) {
        Some(ty) => ty,
        None => {
            return Err(PacketError::UnknownLongType(type_bits));
        },
    };
    if !fixed {
        return Err(PacketError::FixedBitNotSet);
    }
    let (dst_cid, src_cid, ids_end) = parse_long_ids(buf)?;
    // Retry has no Length or Packet Number.
    if ty == LongType::Retry {
        return Ok(
            (
                LongHeader {
                    ty,
                    version,
                    dst_cid,
                    src_cid,
                    token: None,
                    length: None,
                    truncated_pn: None,
                    pn_len: None,
                },
                ids_end,
            ),
        );
    }
    let (token, token_end) = parse_token(ty, buf, ids_end)?;
    let (length, pn, pn_len, end) = parse_length_and_pn(buf, token_end)?;
    Ok(
        (
            LongHeader {
                ty,
                version,
                dst_cid,
                src_cid,
                token,
                length: Some(length),
                truncated_pn: Some(pn),
                pn_len: Some(pn_len),
            },
            end,
        ),
    )
}

/// Reads the connection ID of a short header packet that is still protected.
pub fn parse_short_id(buf: &[u8], dst_cid_len: usize) -> (r: Result<ConnectionId, PacketError>)
    requires
        dst_cid_len < usize::MAX,
    ensures
        match short_id_at(buf@, dst_cid_len) {
            Err(e) => r == Err::<ConnectionId, _>(e),
            Ok(id) => r matches Ok(c) && c@ == id,
        },
{
    ensure(buf, 1)?;
    let first: u8 = buf[0];
    proof {
        lemma_first_byte(first);
    }
    // Header Form bit must be 0.
    if (first & 0x80) != 0 {
        return Err(PacketError::InvalidHeaderForm { expected: 0, actual: 1 });
    }
    // Fixed Bit must be 1.
    if (first & 0x40) == 0 {
        return Err(PacketError::FixedBitNotSet);
    }
    ensure(buf, 1 + dst_cid_len)?;
    take_cid(buf, 1, 1 + dst_cid_len)
}

/// Parse a short header packet from `buf`.
pub fn parse_short_header(buf: &[u8], dst_cid_len: usize) -> (r: Result<
    (ShortHeader, usize),
    PacketError,
>)
    requires
        dst_cid_len < usize::MAX,
    ensures
        match short_header_at(buf@, dst_cid_len) {
            Err(e) => r == Err::<(ShortHeader, usize), _>(e),
            Ok((m, end)) => r matches Ok((h, n)) && h@ == m && n == end && end <= buf@.len(),
        },
{
    ensure(buf, 1)?;
    let first: u8 = buf[0];
    proof {
        lemma_first_byte(first);
    }
    // Header Form bit must be 0.
    if (first & 0x80) != 0 {
        return Err(PacketError::InvalidHeaderForm { expected: 0, actual: 1 });
    }
    // Fixed Bit must be 1.
    if (first & 0x40) == 0 {
        return Err(PacketError::FixedBitNotSet);
    }
    let spin: bool = (first & 0x20) != 0;
    let reserved: u8 = (first >> 3) & 0x03;
    if reserved != 0 {
        return Err(PacketError::ReservedBitsSet);
    }
    let key_phase: bool = (first & 0x04) != 0;
    let pn_len: u8 = first & 0x03;
    // A packet number of no bytes is invalid.
    if pn_len == 0 {
        return Err(PacketError::ReservedBitsSet);
    }
    ensure(buf, 1 + dst_cid_len)?;
    let dst_cid = take_cid(buf, 1, 1 + dst_cid_len)?;
    let start: usize = 1 + dst_cid_len;
    ensure_from(buf, start, pn_len as usize)?;
    let field = vstd::slice::slice_subrange(buf, start, buf.len());
    let truncated_pn: u32 = read_pn(field, pn_len);
    assert(field@.take(pn_len as int) =~= buf@.subrange(start as int, start + pn_len));
    Ok((ShortHeader { spin, key_phase, dst_cid, truncated_pn, pn_len }, start + pn_len as usize))
}

// ---------------------------------------------------------------------------
// Packet numbers
// ---------------------------------------------------------------------------

/// The number closest at hand: the upper bytes of the expected packet number
/// with `truncated` in the lower ones.
pub open spec fn pn_candidate(largest_known: u64, truncated: u64, pn_len: u8) -> u64 {
    let expected = largest_known + 1;
    ((expected - expected % (wire::radix(pn_len as nat) as int)) as u64) | truncated
}

/// The full packet number that a truncated one stands for: the candidate, or
/// the number one window above or below it where that is nearer to the
/// expected one. The number above is taken only where it is a packet number,
/// below 2^62.
pub open spec fn full_packet_number(largest_known: u64, truncated: u64, pn_len: u8) -> int {
    let expected = largest_known + 1;
    let win = wire::radix(pn_len as nat);
    let half = win / 2;
    let candidate = pn_candidate(largest_known, truncated, pn_len) as int;
    if candidate + half <= expected && candidate < PN_LIMIT - win {
        candidate + win
    } else if candidate > expected + half && candidate > win {
        candidate - win
    } else {
        candidate
    }
}

/// Whether every number on the way to [`full_packet_number`] fits in 64 bits.
pub open spec fn pn_in_range(largest_known: u64, truncated: u64, pn_len: u8) -> bool {
    let expected = largest_known + 1;
    let win = wire::radix(pn_len as nat);
    let half = win / 2;
    let candidate = pn_candidate(largest_known, truncated, pn_len) as int;
    &&& pn_len < 8
    &&& expected <= u64::MAX
    &&& candidate + half <= u64::MAX
    &&& candidate + half > expected ==> expected + half <= u64::MAX
}

/// The windows of the packet number lengths, as shifts and as powers.
proof fn lemma_windows(pn_len: u8, expected: u64)
    requires
        pn_len < 8,
    ensures
        ({
            let win = 1u64 << ((pn_len * 8) as u8);
            &&& win == wire::radix(pn_len as nat)
            &&& 0 < win <= 0x100_0000_0000_0000
            &&& expected & !((win - 1) as u64) == expected - expected % win
        }),
{
    reveal_with_fuel(wire::radix, 8);
    let win = 1u64 << ((pn_len * 8) as u8);
    assert({
        &&& 1u64 << 0u8 == 1u64
        &&& 1u64 << 8u8 == 0x100u64
        &&& 1u64 << 16u8 == 0x1_0000u64
        &&& 1u64 << 24u8 == 0x100_0000u64
        &&& 1u64 << 32u8 == 0x1_0000_0000u64
        &&& 1u64 << 40u8 == 0x100_0000_0000u64
        &&& 1u64 << 48u8 == 0x1_0000_0000_0000u64
        &&& 1u64 << 56u8 == 0x100_0000_0000_0000u64
        &&& expected & 0u64 == expected % 1
        &&& expected & 0xffu64 == expected % 0x100
        &&& expected & 0xffffu64 == expected % 0x1_0000
        &&& expected & 0xff_ffffu64 == expected % 0x100_0000
        &&& expected & 0xffff_ffffu64 == expected % 0x1_0000_0000
        &&& expected & 0xff_ffff_ffffu64 == expected % 0x100_0000_0000
        &&& expected & 0xffff_ffff_ffffu64 == expected % 0x1_0000_0000_0000
        &&& expected & 0xff_ffff_ffff_ffffu64 == expected % 0x100_0000_0000_0000
    }) by (bit_vector);
    assert(pn_len == 0 || pn_len == 1 || pn_len == 2 || pn_len == 3 || pn_len == 4 || pn_len == 5
        || pn_len == 6 || pn_len == 7);
    let mask = (win - 1) as u64;
    assert({
        &&& (expected & !mask) & (expected & mask) == 0
        &&& (expected & !mask) | (expected & mask) == expected
    }) by (bit_vector);
    lemma_disjoint_or(expected & !mask, expected & mask);
}

/// Joining numbers that share no bit is adding them.
proof fn lemma_disjoint_or(x: u64, y: u64)
    requires
        x & y == 0,
    ensures
        x | y == x + y,
{
    assert(x & y == 0 ==> x | y == x + y) by (bit_vector);
}

/// A truncated number that fits its field just fills the lower bytes.
proof fn lemma_candidate_sum(largest_known: u64, truncated: u64, pn_len: u8)
    requires
        pn_len < 8,
        largest_known < u64::MAX,
        truncated < wire::radix(pn_len as nat),
    ensures
        ({
            let expected = largest_known + 1;
            let win = wire::radix(pn_len as nat) as int;
            pn_candidate(largest_known, truncated, pn_len) == expected - expected % win + truncated
        }),
{
    let e = (largest_known + 1) as u64;
    lemma_windows(pn_len, e);
    reveal_with_fuel(wire::radix, 8);
    let x = (e - e % (wire::radix(pn_len as nat) as u64)) as u64;
    assert(x & truncated == 0) by {
        assert({
            &&& (e & !0u64) & 0u64 == 0
            &&& truncated <= 0xff ==> (e & !0xffu64) & truncated == 0
            &&& truncated <= 0xffff ==> (e & !0xffffu64) & truncated == 0
            &&& truncated <= 0xff_ffff ==> (e & !0xff_ffffu64) & truncated == 0
            &&& truncated <= 0xffff_ffff ==> (e & !0xffff_ffffu64) & truncated == 0
            &&& truncated <= 0xff_ffff_ffff ==> (e & !0xff_ffff_ffffu64) & truncated == 0
            &&& truncated <= 0xffff_ffff_ffff ==> (e & !0xffff_ffff_ffffu64) & truncated == 0
            &&& truncated <= 0xff_ffff_ffff_ffff ==> (e & !0xff_ffff_ffff_ffffu64) & truncated == 0
        }) by (bit_vector);
        assert(pn_len == 0 || pn_len == 1 || pn_len == 2 || pn_len == 3 || pn_len == 4 || pn_len
            == 5 || pn_len == 6 || pn_len == 7);
    }
    lemma_disjoint_or(x, truncated);
}

/// Decode a full packet number from a truncated value.
///
/// `largest_known` is the largest packet number successfully processed in the
/// relevant packet number space so far. `truncated` is the truncated value read
/// from the wire. `pn_len` is the number of bytes used for the truncated value.
pub fn decode_packet_number(largest_known: u64, truncated: u64, pn_len: u8) -> (pn: u64)
    requires
        pn_in_range(largest_known, truncated, pn_len),
    ensures
        pn == full_packet_number(largest_known, truncated, pn_len),
{
    let expected: u64 = largest_known + 1;
    proof {
        lemma_windows(pn_len, expected);
    }
    let win: u64 = 1u64 << (pn_len * 8);
    let half: u64 = win / 2;
    let mask: u64 = win - 1;
    let candidate: u64 = (expected & !mask) | truncated;
    // The candidate is too far below the expected number: it wrapped around.
    if candidate + half <= expected {
        return if candidate < PN_LIMIT - win {
            candidate + win
        } else {
            candidate
        };
    }
    // The candidate is too far above the expected number: it wrapped around.
    if candidate > expected + half && candidate > win {
        return candidate - win;
    }
    candidate
}

/// Whether [`decode_packet_number`] can be called with these arguments: every
/// number on the way fits in 64 bits.
pub fn packet_number_fits(largest_known: u64, truncated: u64, pn_len: u8) -> (fits: bool)
    ensures
        fits == pn_in_range(largest_known, truncated, pn_len),
{
    if pn_len >= 8 || largest_known == u64::MAX {
        return false;
    }
    let expected: u64 = largest_known + 1;
    proof {
        lemma_windows(pn_len, expected);
    }
    let win: u64 = 1u64 << (pn_len * 8);
    let half: u64 = win / 2;
    let mask: u64 = win - 1;
    let candidate: u64 = (expected & !mask) | truncated;
    if half > u64::MAX - candidate {
        return false;
    }
    candidate + half <= expected || half <= u64::MAX - expected
}

/// Before any packet has been received, a packet number is what its field
/// spells.
pub proof fn lemma_first_packet_number(truncated: u64, pn_len: u8)
    requires
        1 <= pn_len <= 4,
        truncated < wire::radix(pn_len as nat),
    ensures
        pn_in_range(0, truncated, pn_len),
        full_packet_number(0, truncated, pn_len) == truncated,
{
    wire::lemma_radix_values();
    lemma_candidate_sum(0, truncated, pn_len);
    let win = wire::radix(pn_len as nat);
    assert(win == 0x100 || win == 0x1_0000 || win == 0x100_0000 || win == 0x1_0000_0000) by {
        assert(pn_len == 1 || pn_len == 2 || pn_len == 3 || pn_len == 4);
    }
    vstd::arithmetic::div_mod::lemma_small_mod(1, win);
}

/// Law: a packet number at most half a window away from the expected one is
/// recovered from its `pn_len` low-order bytes.
pub proof fn law_packet_number_recovery(largest_known: u64, pn: u64, pn_len: u8)
    requires
        1 <= pn_len < 8,
        largest_known < u64::MAX,
        pn < PN_LIMIT,
        largest_known + 1 - wire::radix(pn_len as nat) / 2 < pn <= largest_known + 1 + wire::radix(
            pn_len as nat,
        ) / 2,
    ensures
        full_packet_number(
            largest_known,
            (pn as nat % wire::radix(pn_len as nat)) as u64,
            pn_len,
        ) == pn,
{
    reveal_with_fuel(wire::radix, 8);
    let e = largest_known + 1;
    let w = wire::radix(pn_len as nat) as int;
    let h = w / 2;
    let t = pn as int % w;
    assert(w % 2 == 0 && 0x100 <= w <= 0x100_0000_0000_0000) by {
        assert(pn_len == 1 || pn_len == 2 || pn_len == 3 || pn_len == 4 || pn_len == 5 || pn_len
            == 6 || pn_len == 7);
    }
    lemma_candidate_sum(largest_known, t as u64, pn_len);
    let c = e - e % w + t;
    let p = e / w;
    let q = pn as int / w;
    assert(e == w * p + e % w && pn == w * q + t && 0 <= e % w < w && 0 <= t < w) by {
        vstd::arithmetic::div_mod::lemma_fundamental_div_mod(e as int, w);
        vstd::arithmetic::div_mod::lemma_fundamental_div_mod(pn as int, w);
    }
    assert(q - p == 0 || q - p == 1 || q - p == -1) by (nonlinear_arith)
        requires
            e == w * p + e % w,
            pn == w * q + t,
            0 <= e % w < w,
            0 <= t < w,
            e - w / 2 < pn <= e + w / 2,
            w > 0,
    ;
    assert(pn - c == w * (q - p)) by (nonlinear_arith)
        requires
            e == w * p + e % w,
            pn == w * q + t,
            c == e - e % w + t,
    ;
    assert(w * (q - p) == 0 || w * (q - p) == w || w * (q - p) == -w) by (nonlinear_arith)
        requires
            q - p == 0 || q - p == 1 || q - p == -1,
    ;
}

// ---------------------------------------------------------------------------
// The format, written
// ---------------------------------------------------------------------------

/// The first byte of a long header.
pub open spec fn long_first(ty: LongType, pn_len: Option<u8>) -> u8 {
    0x80u8 | 0x40 | (long_type_bits(ty) << 4) | match pn_len {
        Some(l) => (l - 1) as u8,
        None => 0,
    }
}

/// A long header up to its connection IDs.
pub open spec fn long_ids_bytes(m: LongModel) -> Seq<u8> {
    seq![long_first(m.ty, m.pn_len)] + wire::be_bytes(m.version as nat, 4) + seq![
        m.dst_cid.len() as u8,
    ] + m.dst_cid + seq![m.src_cid.len() as u8] + m.src_cid
}

/// The token field, with its length.
pub open spec fn token_bytes(m: LongModel) -> Seq<u8> {
    match m.token {
        Some(t) => varint::varint_bytes(t.len() as u64) + t,
        None => Seq::empty(),
    }
}

/// The length field.
pub open spec fn length_bytes(m: LongModel) -> Seq<u8> {
    match m.length {
        Some(l) => varint::varint_bytes(l),
        None => Seq::empty(),
    }
}

/// A long header up to its packet number.
pub open spec fn long_front(m: LongModel) -> Seq<u8> {
    long_ids_bytes(m) + token_bytes(m) + length_bytes(m)
}

/// `n` zero bytes.
pub open spec fn zeros(n: nat) -> Seq<u8> {
    Seq::new(n, |i: int| 0u8)
}

/// How many bytes the packet number takes.
pub open spec fn pn_size(pn_len: Option<u8>) -> nat {
    match pn_len {
        Some(l) => l as nat,
        None => 0,
    }
}

/// The two length bits of a short header: the length of the packet number,
/// with 0 for 4.
pub open spec fn short_pn_bits(pn_len: u8) -> u8 {
    if pn_len == 4 {
        0
    } else {
        pn_len
    }
}

/// The first byte of a short header.
pub open spec fn short_first(spin: bool, key_phase: bool, pn_len: u8) -> u8 {
    0x40u8 | (if spin {
        0x20u8
    } else {
        0
    }) | (if key_phase {
        0x04u8
    } else {
        0
    }) | short_pn_bits(pn_len)
}

/// A short header up to its packet number.
pub open spec fn short_front(m: ShortModel) -> Seq<u8> {
    seq![short_first(m.spin, m.key_phase, m.pn_len)] + m.dst_cid
}

// ---------------------------------------------------------------------------
// Writing
// ---------------------------------------------------------------------------

/// Appends `n` zero bytes.
fn put_zeros(buf: &mut Vec<u8>, n: u8)
    ensures
        final(buf)@ == old(buf)@ + zeros(n as nat),
{
    let mut i: u8 = 0;
    assert(buf@ =~= old(buf)@ + zeros(0));
    while i < n
        invariant
            i <= n,
            buf@ == old(buf)@ + zeros(i as nat),
        decreases n - i,
    {
        buf.push(0);
        i += 1;
        assert(buf@ =~= old(buf)@ + zeros(i as nat));
    }
}

/// Appends a 32-bit number, most significant byte first.
pub fn put_u32(buf: &mut Vec<u8>, v: u32)
    ensures
        final(buf)@ == old(buf)@ + wire::be_bytes(v as nat, 4),
{
    let x: u64 = v as u64;
    buf.push((x >> 24) as u8);
    buf.push((x >> 16) as u8);
    buf.push((x >> 8) as u8);
    buf.push(x as u8);
    proof {
        lemma_u32_bytes(v);
        let b = seq![(x >> 24) as u8, (x >> 16) as u8, (x >> 8) as u8, x as u8];
        assert(buf@ =~= old(buf)@ + b);
    }
}

/// The bytes of a 32-bit number, by shifts.
#[verifier::spinoff_prover]
proof fn lemma_u32_bytes(v: u32)
    ensures
        ({
            let x = v as u64;
            wire::be_bytes(v as nat, 4) == seq![
                (x >> 24) as u8,
                (x >> 16) as u8,
                (x >> 8) as u8,
                x as u8,
            ]
        }),
{
    let x = v as u64;
    let b = seq![(x >> 24) as u8, (x >> 16) as u8, (x >> 8) as u8, x as u8];
    wire::lemma_shift_bytes(x);
    wire::lemma_be_value_small(b);
    assert(wire::be_value(b) == v);
    wire::lemma_be_bytes_of_value(b);
}

/// Write a long header at the end of `buf`. Returns bytes written.
///
/// The packet number is left as zeros, which the caller overwrites when it
/// protects the packet. A token length or payload length that no varint can
/// carry stops the writing: what stands before it has been appended by then.
pub fn write_long_header(hdr: &LongHeader, buf: &mut Vec<u8>) -> (r: Result<usize, PacketError>)
    requires
        hdr.pn_len != Some(0u8),
    ensures
        hdr.token matches Some(t) ==> buffer::bytes_content(&t).len() as u64 > VARINT_MAX ==> {
            &&& r == Err::<usize, _>(
                PacketError::VarInt(
                    VarIntError::ValueTooLarge { value: buffer::bytes_content(&t).len() as u64 },
                ),
            )
            &&& final(buf)@ == old(buf)@ + long_ids_bytes(hdr@)
        },
        long_token_fits(hdr@) ==> (hdr.length matches Some(l) ==> l > VARINT_MAX ==> {
            &&& r == Err::<usize, _>(PacketError::VarInt(VarIntError::ValueTooLarge { value: l }))
            &&& final(buf)@ == old(buf)@ + (long_ids_bytes(hdr@) + token_bytes(hdr@))
        }),
        long_token_fits(hdr@) && long_length_fits(hdr@) ==> {
            &&& r matches Ok(n)
            &&& n == long_front(hdr@).len() + pn_size(hdr.pn_len)
            &&& final(buf)@ == old(buf)@ + (long_front(hdr@) + zeros(pn_size(hdr.pn_len)))
        },
{
    let start: usize = buf.len();
    let ghost before = buf@;
    let pn_bits: u8 = match hdr.pn_len {
        Some(l) => l - 1,
        None => 0,
    };
    let type_bits: u8 = hdr.ty.to_bits();
    let first: u8 = 0x80u8 | 0x40 | (type_bits << 4) | pn_bits;
    buf.push(first);
    put_u32(buf, hdr.version);
    buf.push(hdr.dst_cid.0.len() as u8);
    buf.extend_from_slice(buffer::bytes_slice(&hdr.dst_cid.0));
    buf.push(hdr.src_cid.0.len() as u8);
    buf.extend_from_slice(buffer::bytes_slice(&hdr.src_cid.0));
    assert(buf@ =~= before + long_ids_bytes(hdr@));
    // Token (Initial only).
    if let Some(token) = &hdr.token {
        match varint::put_varint(buf, token.len() as VarInt) {
            Ok(()) => {},
            Err(e) => {
                return Err(PacketError::VarInt(e));
            },
        }
        buf.extend_from_slice(buffer::bytes_slice(token));
    }
    assert(buf@ =~= before + (long_ids_bytes(hdr@) + token_bytes(hdr@)));
    // Length (not for Retry).
    if let Some(length) = hdr.length {
        match varint::put_varint(buf, length) {
            Ok(()) => {},
            Err(e) => {
                return Err(PacketError::VarInt(e));
            },
        }
    }
    assert(buf@ =~= before + long_front(hdr@));
    // The packet number is written when the packet is protected.
    if let Some(pn_len) = hdr.pn_len {
        put_zeros(buf, pn_len);
    }
    assert(buf@ =~= before + (long_front(hdr@) + zeros(pn_size(hdr.pn_len))));
    Ok(buf.len() - start)
}

/// Whether a varint can carry the token's length.
pub open spec fn long_token_fits(m: LongModel) -> bool {
    m.token matches Some(t) ==> t.len() as u64 <= VARINT_MAX
}

/// Whether a varint can carry the payload length.
pub open spec fn long_length_fits(m: LongModel) -> bool {
    m.length matches Some(l) ==> l <= VARINT_MAX
}

/// What can be read off the first byte of a short header.
pub proof fn lemma_short_first(spin: u8, phase: u8, pn_bits: u8)
    requires
        spin == 0 || spin == 0x20,
        phase == 0 || phase == 0x04,
        pn_bits <= 3,
    ensures
        ({
            let first = 0x40u8 | spin | phase | pn_bits;
            &&& first == 0x40 + spin + phase + pn_bits
            &&& first & 0xc0 == 0x40
            &&& first & 0x20 == spin
            &&& first & 0x18 == 0
            &&& first & 0x04 == phase
            &&& first & 0x03 == pn_bits
        }),
{
    assert((spin == 0 || spin == 0x20) && (phase == 0 || phase == 4) && pn_bits <= 3 ==> {
        let first = 0x40u8 | spin | phase | pn_bits;
        &&& first == 0x40 + spin + phase + pn_bits
        &&& first & 0xc0 == 0x40
        &&& first & 0x20 == spin
        &&& first & 0x18 == 0
        &&& first & 0x04 == phase
        &&& first & 0x03 == pn_bits
    }) by (bit_vector);
}

/// Write a short header at the end of `buf`. Returns bytes written.
///
/// The packet number is left as zeros, which the caller overwrites when it
/// protects the packet. A length of four bytes is written as 0, so that it
/// leaves the key phase bit alone.
pub fn write_short_header(hdr: &ShortHeader, buf: &mut Vec<u8>) -> (r: Result<usize, PacketError>)
    ensures
        r matches Ok(n) && n == short_front(hdr@).len() + hdr.pn_len,
        final(buf)@ == old(buf)@ + (short_front(hdr@) + zeros(hdr.pn_len as nat)),
        hdr.pn_len <= 4 ==> {
            let first = final(buf)@[old(buf)@.len() as int];
            &&& first & 0xc0 == 0x40
            &&& first & 0x20 != 0 <==> hdr.spin
            &&& first & 0x18 == 0
            &&& first & 0x04 != 0 <==> hdr.key_phase
            &&& first & 0x03 == short_pn_bits(hdr.pn_len)
        },
{
    let start: usize = buf.len();
    let ghost before = buf@;
    let spin: u8 = if hdr.spin {
        0x20
    } else {
        0
    };
    let key_phase: u8 = if hdr.key_phase {
        0x04
    } else {
        0
    };
    let pn_bits: u8 = if hdr.pn_len == 4 {
        0
    } else {
        hdr.pn_len
    };
    let first: u8 = 0x40u8 | spin | key_phase | pn_bits;
    proof {
        if pn_bits <= 3 {
            lemma_short_first(spin, key_phase, pn_bits);
        }
    }
    buf.push(first);
    buf.extend_from_slice(buffer::bytes_slice(&hdr.dst_cid.0));
    put_zeros(buf, hdr.pn_len);
    assert(buf@[before.len() as int] == first);
    assert(buf@ =~= before + (short_front(hdr@) + zeros(hdr.pn_len as nat)));
    Ok(buf.len() - start)
}

// ---------------------------------------------------------------------------
// Reading back what was written
// ---------------------------------------------------------------------------

/// Long headers whose every part has a place on the wire: IDs of up to 20
/// bytes, a token in Initial packets alone, a length and a packet number of 1
/// to 4 bytes in every packet but Retry and Version Negotiation.
pub open spec fn long_writable(m: LongModel) -> bool {
    let numbered = m.ty != LongType::Retry && m.ty != LongType::VersionNegotiation;
    &&& m.dst_cid.len() <= 20
    &&& m.src_cid.len() <= 20
    &&& (m.version == VERSION_NEGOTIATION) == (m.ty == LongType::VersionNegotiation)
    &&& (m.token is Some) == (m.ty == LongType::Initial)
    &&& m.token matches Some(t) ==> t.len() <= usize::MAX && t.len() <= VARINT_MAX
    &&& (m.length is Some) == numbered
    &&& (m.truncated_pn is Some) == numbered
    &&& (m.pn_len is Some) == numbered
    &&& m.length matches Some(l) ==> l <= VARINT_MAX
    &&& m.pn_len matches Some(n) ==> 1 <= n <= 4
    &&& m.truncated_pn matches Some(pn) ==> pn < wire::radix(pn_size(m.pn_len))
}

/// The packet number field.
pub open spec fn pn_bytes(m: LongModel) -> Seq<u8> {
    match m.truncated_pn {
        Some(pn) => wire::be_bytes(pn as nat, pn_size(m.pn_len)),
        None => Seq::empty(),
    }
}

pub proof fn lemma_long_first(ty: LongType, pn_len: Option<u8>)
    requires
        pn_len matches Some(n) ==> 1 <= n <= 4,
    ensures
        ({
            let first = long_first(ty, pn_len);
            &&& first >= 0xc0
            &&& first / 16 % 4 == long_type_bits(ty)
            &&& pn_len matches Some(n) ==> first % 4 + 1 == n
            &&& first == 0xc0 + 16 * long_type_bits(ty) + match pn_len {
                Some(n) => n - 1,
                None => 0,
            }
        }),
{
    let bits = long_type_bits(ty);
    let low: u8 = match pn_len {
        Some(l) => (l - 1) as u8,
        None => 0,
    };
    assert(bits <= 3 && low <= 3 ==> {
        let first = 0x80u8 | 0x40 | (bits << 4) | low;
        first >= 0xc0 && first / 16 % 4 == bits && first % 4 == low && first == 0xc0 + 16 * bits
            + low
    }) by (bit_vector);
}

proof fn lemma_ids_back(m: LongModel, rest: Seq<u8>)
    requires
        m.dst_cid.len() <= 20,
        m.src_cid.len() <= 20,
    ensures
        ({
            let s = long_ids_bytes(m) + rest;
            &&& s[0] == long_first(m.ty, m.pn_len)
            &&& s.len() >= 7
            &&& wire::be_value(s.subrange(1, 5)) == m.version
            &&& long_ids_at(s) == Ok::<_, PacketError>(
                (m.dst_cid, m.src_cid, long_ids_bytes(m).len()),
            )
            &&& s.skip(long_ids_bytes(m).len() as int) == rest
        }),
{
    let s = long_ids_bytes(m) + rest;
    let v = wire::be_bytes(m.version as nat, 4);
    wire::lemma_be_value_of_bytes(m.version as nat, 4);
    wire::lemma_radix_values();
    vstd::arithmetic::div_mod::lemma_small_mod(m.version as nat, wire::radix(4));
    assert(s.subrange(1, 5) =~= v);
    let d = m.dst_cid.len();
    let c = m.src_cid.len();
    assert(s[5] == d as u8);
    assert(s[6 + d as int] == c as u8);
    assert(s.subrange(6, 6 + d as int) =~= m.dst_cid);
    assert(s.subrange(7 + d as int, 7 + d as int + c as int) =~= m.src_cid);
    assert(s.skip(long_ids_bytes(m).len() as int) =~= rest);
}

proof fn lemma_token_back(m: LongModel, front: Seq<u8>, after: Seq<u8>)
    requires
        long_writable(m),
    ensures
        token_at(m.ty, front + token_bytes(m) + after, front.len()) == Ok::<_, PacketError>(
            (m.token, front.len() + token_bytes(m).len()),
        ),
{
    let s = front + token_bytes(m) + after;
    if let Some(t) = m.token {
        let len = t.len() as u64;
        assert(s.skip(front.len() as int) =~= varint::varint_bytes(len) + (t + after));
        varint::law_varint_round_trip(len, t + after);
        let start = front.len() + varint::varint_len(len);
        assert(s.subrange(start as int, start + len) =~= t);
    }
}

proof fn lemma_length_and_pn_back(
    front: Seq<u8>,
    length: u64,
    pn: u32,
    pn_len: u8,
    rest: Seq<u8>,
)
    requires
        front.len() > 0,
        front[0] % 4 + 1 == pn_len,
        length <= VARINT_MAX,
        pn < wire::radix(pn_len as nat),
    ensures
        ({
            let s = front + varint::varint_bytes(length) + wire::be_bytes(pn as nat, pn_len as nat)
                + rest;
            length_and_pn_at(s, front.len()) == Ok::<_, PacketError>(
                (length, pn, pn_len, front.len() + varint::varint_len(length) + pn_len as nat),
            )
        }),
{
    let field = wire::be_bytes(pn as nat, pn_len as nat);
    let s = front + varint::varint_bytes(length) + field + rest;
    assert(s.skip(front.len() as int) =~= varint::varint_bytes(length) + (field + rest));
    varint::law_varint_round_trip(length, field + rest);
    let start = front.len() + varint::varint_len(length);
    wire::lemma_be_value_of_bytes(pn as nat, pn_len as nat);
    vstd::arithmetic::div_mod::lemma_small_mod(pn as nat, wire::radix(pn_len as nat));
    assert(s.subrange(start as int, start + pn_len) =~= field);
    assert(s[0] == front[0]);
}

proof fn lemma_version_negotiation_back(m: LongModel, rest: Seq<u8>)
    requires
        long_writable(m),
        m.ty == LongType::VersionNegotiation,
    ensures
        version_negotiation_at(long_ids_bytes(m) + rest) == Ok::<_, PacketError>(
            (m, long_ids_bytes(m).len()),
        ),
{
    let s = long_ids_bytes(m) + rest;
    let d = m.dst_cid.len() as int;
    wire::lemma_be_bytes_len(m.version as nat, 4);
    assert(s[5] == d as u8);
    assert(s[6 + d] == m.src_cid.len() as u8);
    assert(s.subrange(6, 6 + d) =~= m.dst_cid);
    assert(s.subrange(7 + d, 7 + d + m.src_cid.len()) =~= m.src_cid);
}

/// Law: parsing a written long header gives the header back, with whatever
/// packet number was put in its place, and reads no further.
#[verifier::rlimit(60)]
#[verifier::spinoff_prover]
pub proof fn law_long_header_round_trip(m: LongModel, rest: Seq<u8>)
    requires
        long_writable(m),
    ensures
        long_header_at(long_front(m) + pn_bytes(m) + rest) == Ok::<_, PacketError>(
            (m, long_front(m).len() + pn_size(m.pn_len)),
        ),
{
    let s = long_front(m) + pn_bytes(m) + rest;
    let ids = long_ids_bytes(m);
    let after_token = length_bytes(m) + pn_bytes(m) + rest;
    let after_ids = token_bytes(m) + after_token;
    assert(s == ids + after_ids) by {
        assert(s =~= ids + after_ids);
    }
    lemma_ids_back(m, after_ids);
    lemma_long_first(m.ty, m.pn_len);
    if m.ty == LongType::VersionNegotiation {
        lemma_version_negotiation_back(m, after_ids);
    } else if m.ty != LongType::Retry {
        let length = m.length->Some_0;
        let pn_len = m.pn_len->Some_0;
        let pn = m.truncated_pn->Some_0;
        assert(s == ids + token_bytes(m) + after_token) by {
            assert(s =~= ids + token_bytes(m) + after_token);
        }
        lemma_token_back(m, ids, after_token);
        let front = ids + token_bytes(m);
        assert(s == front + varint::varint_bytes(length) + wire::be_bytes(
            pn as nat,
            pn_len as nat,
        ) + rest) by {
            assert(s =~= front + varint::varint_bytes(length) + pn_bytes(m) + rest);
        }
        assert(front[0] == s[0]);
        lemma_length_and_pn_back(front, length, pn, pn_len, rest);
        varint::lemma_varint_bytes_len(length);
    }
}

/// Law: parsing a written short header gives the header back, with whatever
/// packet number was put in its place, and reads no further. A packet number
/// of four bytes, written as 0, is not read from an unprotected header.
pub proof fn law_short_header_round_trip(m: ShortModel, rest: Seq<u8>)
    requires
        m.dst_cid.len() <= 20,
        1 <= m.pn_len <= 3,
        m.truncated_pn < wire::radix(m.pn_len as nat),
    ensures
        short_header_at(
            short_front(m) + wire::be_bytes(m.truncated_pn as nat, m.pn_len as nat) + rest,
            m.dst_cid.len() as usize,
        ) == Ok::<_, PacketError>((m, short_front(m).len() + m.pn_len as nat)),
{
    let field = wire::be_bytes(m.truncated_pn as nat, m.pn_len as nat);
    let s = short_front(m) + field + rest;
    let first = short_first(m.spin, m.key_phase, m.pn_len);
    let spin: u8 = if m.spin {
        0x20
    } else {
        0
    };
    let phase: u8 = if m.key_phase {
        0x04
    } else {
        0
    };
    let n = m.pn_len;
    lemma_short_first(spin, phase, n);
    assert(s[0] == first);
    wire::lemma_be_value_of_bytes(m.truncated_pn as nat, n as nat);
    vstd::arithmetic::div_mod::lemma_small_mod(m.truncated_pn as nat, wire::radix(n as nat));
    let start = 1 + m.dst_cid.len() as int;
    assert(s.subrange(1, start) =~= m.dst_cid);
    assert(s.subrange(start, start + n) =~= field);
}

/// A parsed long header has IDs of at most 20 bytes and ends within the input.
pub proof fn lemma_long_header_bounds(s: Seq<u8>)
    ensures
        long_header_at(s) matches Ok((m, end)) ==> {
            &&& m.dst_cid.len() <= 20
            &&& m.src_cid.len() <= 20
            &&& end <= s.len()
            &&& 1 <= end
            &&& m.length matches Some(l) ==> l <= VARINT_MAX
        },
{
    if let Ok((m, end)) = long_header_at(s) {
        if m.ty != LongType::VersionNegotiation && m.ty != LongType::Retry {
            if let Ok((_, _, ids_end)) = long_ids_at(s) {
                varint::law_varint_at_bounds(s.skip(ids_end as int));
                if let Ok((_, token_end)) = token_at(m.ty, s, ids_end) {
                    varint::law_varint_at_bounds(s.skip(token_end as int));
                }
            }
        }
    }
}

/// Of the first byte of a long header only the form, fixed and type bits and
/// the packet number length matter.
pub proof fn lemma_first_byte_bits(s: Seq<u8>, b: u8)
    requires
        s.len() > 0,
        s[0] >= 0xc0,
        b >= 0xc0,
        b / 16 == s[0] / 16,
        b % 4 == s[0] % 4,
    ensures
        long_header_at(s.update(0, b)) == long_header_at(s),
{
    let t = s.update(0, b);
    assert forall|i: int, j: int| 1 <= i <= j <= s.len() implies #[trigger] t.subrange(i, j)
        == s.subrange(i, j) by {
        assert(t.subrange(i, j) =~= s.subrange(i, j));
    }
    assert forall|i: int| 1 <= i <= s.len() implies #[trigger] t.skip(i) == s.skip(i) by {
        assert(t.skip(i) =~= s.skip(i));
    }
    if s.len() >= 5 {
        assert(t.subrange(1, 5) == s.subrange(1, 5));
    }
    if let Ok((d, c, ids_end)) = long_ids_at(s) {
        let at = 6 + s[5] as int;
        assert(t.subrange(6, at) == s.subrange(6, at));
        assert(t.subrange(at + 1, at + 1 + s[at]) == s.subrange(at + 1, at + 1 + s[at]));
        assert(t.skip(ids_end as int) == s.skip(ids_end as int));
        varint::law_varint_at_bounds(s.skip(ids_end as int));
        let ty = long_type_of(s[0] / 16 % 4);
        assert(token_at(ty, t, ids_end) == token_at(ty, s, ids_end)) by {
            if let Ok((len, n)) = varint::varint_at(s.skip(ids_end as int)) {
                let start = ids_end + n;
                if start + len as usize <= s.len() {
                    assert(t.subrange(start as int, start + len as usize) == s.subrange(
                        start as int,
                        start + len as usize,
                    ));
                }
            }
        }
        if let Ok((token, token_end)) = token_at(ty, s, ids_end) {
            assert(1 <= token_end <= s.len());
            assert(t.skip(token_end as int) == s.skip(token_end as int));
            varint::law_varint_at_bounds(s.skip(token_end as int));
            if let Ok((len, n)) = varint::varint_at(s.skip(token_end as int)) {
                let start = token_end + n;
                let pn_len = (s[0] % 4 + 1) as u8;
                if start + pn_len <= s.len() {
                    assert(t.subrange(start as int, start + pn_len) == s.subrange(
                        start as int,
                        start + pn_len,
                    ));
                }
            }
        }
    }
    assert(long_ids_at(t) == long_ids_at(s));
    if s.len() >= 5 && wire::be_value(s.subrange(1, 5)) as u32 == VERSION_NEGOTIATION {
        if s.len() >= 6 && s.len() >= 7 + s[5] {
            let at = 6 + s[5] as int;
            assert(t.subrange(6, at) == s.subrange(6, at));
            if s.len() >= at + 1 + s[at] {
                assert(t.subrange(at + 1, at + 1 + s[at]) == s.subrange(at + 1, at + 1 + s[at]));
            }
        }
        assert(version_negotiation_at(t) == version_negotiation_at(s));
    }
}

/// Law: parsing a long header reads nothing beyond the bytes that it consumes.
pub proof fn law_long_header_no_lookahead(s: Seq<u8>, more: Seq<u8>)
    ensures
        long_header_at(s) matches Ok((m, end)) ==> long_header_at(s.take(end as int) + more) == Ok::<
            _,
            PacketError,
        >((m, end)),
{
    lemma_long_header_bounds(s);
    if let Ok((m, end)) = long_header_at(s) {
        let t = s.take(end as int) + more;
        assert forall|i: int, j: int| 0 <= i <= j <= end implies #[trigger] t.subrange(i, j)
            == s.subrange(i, j) by {
            assert(t.subrange(i, j) =~= s.subrange(i, j));
        }
        if m.ty == LongType::VersionNegotiation {
            let at = 6 + s[5];
            assert(t.subrange(6, at) == s.subrange(6, at));
        } else if let Ok((d, c, ids_end)) = long_ids_at(s) {
            let at = 6 + s[5];
            varint::law_varint_at_bounds(s.skip(ids_end as int));
            if m.ty != LongType::Retry {
                if let Ok((token, token_end)) = token_at(m.ty, s, ids_end) {
                    varint::law_varint_at_bounds(s.skip(token_end as int));
                    if m.ty == LongType::Initial {
                        lemma_varint_within(s, t, ids_end as int, end as int);
                    }
                    lemma_varint_within(s, t, token_end as int, end as int);
                    assert(token_at(m.ty, t, ids_end) == token_at(m.ty, s, ids_end));
                    assert(length_and_pn_at(t, token_end) == length_and_pn_at(s, token_end));
                }
            }
            assert(t.subrange(6, at) == s.subrange(6, at));
            assert(long_ids_at(t) == long_ids_at(s));
        }
        assert(t.subrange(1, 5) == s.subrange(1, 5));
    }
}

/// A varint that ends before `end` is read alike from inputs that agree up to
/// there.
proof fn lemma_varint_within(s: Seq<u8>, t: Seq<u8>, pos: int, end: int)
    requires
        0 <= pos <= end <= s.len(),
        end <= t.len(),
        s.take(end) == t.take(end),
        varint::varint_at(s.skip(pos)) matches Ok((v, n)) && pos + n <= end,
    ensures
        varint::varint_at(t.skip(pos)) == varint::varint_at(s.skip(pos)),
{
    let n = varint::varint_at(s.skip(pos))->Ok_0.1 as int;
    varint::law_varint_at_bounds(s.skip(pos));
    varint::law_varint_no_lookahead(s.skip(pos), t.skip(pos + n));
    assert forall|i: int| 0 <= i < end implies s[i] == t[i] by {
        assert(s.take(end)[i] == s[i]);
        assert(t.take(end)[i] == t[i]);
    }
    assert(s.skip(pos).take(n) + t.skip(pos + n) =~= t.skip(pos));
}

/// Law: parsing a long header needs every byte that it consumes.
pub proof fn law_long_header_needs_all(s: Seq<u8>, k: int)
    requires
        long_header_at(s) matches Ok((m, end)) && 0 <= k < end,
    ensures
        long_header_at(s.take(k)) is Err,
{
    let t = s.take(k);
    lemma_long_header_bounds(s);
    lemma_long_header_bounds(t);
    if let Ok((m, end)) = long_header_at(t) {
        law_long_header_no_lookahead(t, s.skip(end as int));
        assert(t.take(end as int) + s.skip(end as int) =~= s);
    }
}

/// Law: parsing a short header reads nothing beyond the bytes that it consumes,
/// and needs every one of them.
pub proof fn law_short_header_extent(s: Seq<u8>, cid_len: usize, more: Seq<u8>, k: int)
    ensures
        short_header_at(s, cid_len) matches Ok((m, end)) ==> {
            &&& short_header_at(s.take(end as int) + more, cid_len) == Ok::<_, PacketError>((m, end))
            &&& 0 <= k < end ==> short_header_at(s.take(k), cid_len) is Err
        },
{
    if let Ok((m, end)) = short_header_at(s, cid_len) {
        let t = s.take(end as int) + more;
        let start = 1 + cid_len;
        assert(t[0] == s[0]);
        assert(t.subrange(1, start) =~= s.subrange(1, start));
        assert(t.subrange(start, start + m.pn_len) =~= s.subrange(start, start + m.pn_len));
    }
}

// ---------------------------------------------------------------------------
// The layout of each header
// ---------------------------------------------------------------------------

/// A long header up to its connection IDs, byte by byte: the first byte, four
/// bytes of version, and each ID behind one byte with its length.
pub open spec fn ids_layout(first: u8, version: Seq<u8>, dst: Seq<u8>, src: Seq<u8>) -> Seq<u8> {
    seq![first] + version + seq![dst.len() as u8] + dst + seq![src.len() as u8] + src
}

proof fn lemma_ids_layout(
    first: u8,
    version: Seq<u8>,
    dst: Seq<u8>,
    src: Seq<u8>,
    after: Seq<u8>,
)
    requires
        version.len() == 4,
        dst.len() <= 20,
        src.len() <= 20,
    ensures
        ({
            let front = ids_layout(first, version, dst, src);
            let s = front + after;
            &&& front.len() == 7 + dst.len() + src.len()
            &&& s.len() >= 7
            &&& s[0] == first
            &&& s.subrange(1, 5) == version
            &&& s.skip(front.len() as int) == after
            &&& long_ids_at(s) == Ok::<_, PacketError>((dst, src, front.len()))
            &&& s[5] == dst.len()
            &&& s[6 + dst.len() as int] == src.len()
            &&& s.subrange(6, 6 + dst.len() as int) == dst
            &&& s.subrange(7 + dst.len() as int, front.len() as int) == src
        }),
{
    let front = ids_layout(first, version, dst, src);
    let s = front + after;
    assert(s.subrange(1, 5) =~= version);
    assert(s[5] == dst.len() as u8);
    let at = 6 + dst.len() as int;
    assert(s[at] == src.len() as u8);
    assert(s.subrange(6, at) =~= dst);
    assert(s.subrange(at + 1, at + 1 + src.len()) =~= src);
    assert(s.skip(front.len() as int) =~= after);
}

proof fn lemma_number_layout(s: Seq<u8>, pos: nat, e: Seq<u8>, v: u64, field: Seq<u8>, rest: Seq<u8>)
    requires
        pos > 0,
        pos <= s.len(),
        s.skip(pos as int) == e + field + rest,
        crate::frame::spells(e, v),
        field.len() == s[0] % 4 + 1,
    ensures
        length_and_pn_at(s, pos) == Ok::<_, PacketError>(
            (v, wire::be_value(field) as u32, field.len() as u8, pos + e.len() + field.len()),
        ),
{
    varint::law_varint_no_lookahead(e, field + rest);
    assert(e.take(e.len() as int) =~= e);
    assert(e + field + rest =~= e + (field + rest));
    let start = pos + e.len();
    let t = s.skip(pos as int);
    assert(s.subrange(start as int, (start + field.len()) as int) =~= t.subrange(
        e.len() as int,
        e.len() + field.len() as int,
    ));
    assert(t.subrange(e.len() as int, e.len() + field.len() as int) =~= field);
}

/// Law: the header of an Initial packet is a first byte from 0xc0 to 0xcf, four
/// bytes of version other than 0, the destination ID and the source ID, each
/// behind its length, the token behind its length, the length, and the packet
/// number. The bits 0x03 of the first byte are one less than the length of the
/// packet number.
#[verifier::rlimit(60)]
#[verifier::spinoff_prover]
pub proof fn law_initial_header_layout(
    first: u8,
    version: Seq<u8>,
    dst: Seq<u8>,
    src: Seq<u8>,
    te: Seq<u8>,
    token: Seq<u8>,
    le: Seq<u8>,
    length: u64,
    field: Seq<u8>,
    rest: Seq<u8>,
)
    requires
        0xc0 <= first < 0xd0,
        version.len() == 4,
        wire::be_value(version) != 0,
        dst.len() <= 20,
        src.len() <= 20,
        crate::frame::spells(te, token.len() as u64),
        token.len() <= usize::MAX,
        crate::frame::spells(le, length),
        field.len() == first % 4 + 1,
    ensures
        ({
            let s = ids_layout(first, version, dst, src) + te + token + le + field;
            long_header_at(s + rest) == Ok::<_, PacketError>(
                (
                    LongModel {
                        ty: LongType::Initial,
                        version: wire::be_value(version) as u32,
                        dst_cid: dst,
                        src_cid: src,
                        token: Some(token),
                        length: Some(length),
                        truncated_pn: Some(wire::be_value(field) as u32),
                        pn_len: Some((first % 4 + 1) as u8),
                    },
                    s.len(),
                ),
            )
        }),
{
    let front = ids_layout(first, version, dst, src);
    let pos = front.len();
    wire::lemma_be_value_small(version);
    assert(wire::be_value(version) <= u32::MAX);
    let after = te + token + le + field + rest;
    let s = front + after;
    assert(front + te + token + le + field + rest == s) by {
        assert(front + te + token + le + field + rest =~= s);
    }
    lemma_ids_layout(first, version, dst, src, after);
    let tail = token + le + field + rest;
    assert(after =~= te + tail);
    varint::law_varint_no_lookahead(te, tail);
    assert(te.take(te.len() as int) =~= te);
    let end = pos + te.len() + token.len();
    assert(s.subrange((pos + te.len()) as int, end as int) =~= token);
    assert(s.skip(end as int) =~= le + field + rest);
    lemma_number_layout(s, end, le, length, field, rest);
}

/// Law: the header of a 0-RTT packet starts with a byte from 0xd0 to 0xdf, that
/// of a Handshake packet with one from 0xe0 to 0xef. They are laid out as that
/// of an Initial packet, but for the token.
#[verifier::rlimit(60)]
#[verifier::spinoff_prover]
pub proof fn law_numbered_header_layout(
    first: u8,
    version: Seq<u8>,
    dst: Seq<u8>,
    src: Seq<u8>,
    le: Seq<u8>,
    length: u64,
    field: Seq<u8>,
    rest: Seq<u8>,
)
    requires
        0xd0 <= first < 0xf0,
        version.len() == 4,
        wire::be_value(version) != 0,
        dst.len() <= 20,
        src.len() <= 20,
        crate::frame::spells(le, length),
        field.len() == first % 4 + 1,
    ensures
        ({
            let s = ids_layout(first, version, dst, src) + le + field;
            long_header_at(s + rest) == Ok::<_, PacketError>(
                (
                    LongModel {
                        ty: if first < 0xe0 {
                            LongType::ZeroRtt
                        } else {
                            LongType::Handshake
                        },
                        version: wire::be_value(version) as u32,
                        dst_cid: dst,
                        src_cid: src,
                        token: None,
                        length: Some(length),
                        truncated_pn: Some(wire::be_value(field) as u32),
                        pn_len: Some((first % 4 + 1) as u8),
                    },
                    s.len(),
                ),
            )
        }),
{
    let front = ids_layout(first, version, dst, src);
    wire::lemma_be_value_small(version);
    assert(wire::be_value(version) <= u32::MAX);
    let after = le + field + rest;
    let s = front + after;
    assert(front + le + field + rest == s) by {
        assert(front + le + field + rest =~= s);
    }
    lemma_ids_layout(first, version, dst, src, after);
    lemma_number_layout(s, front.len(), le, length, field, rest);
}

/// Law: the header of a Retry packet starts with a byte of at least 0xf0, and
/// ends with its IDs.
pub proof fn law_retry_header_layout(
    first: u8,
    version: Seq<u8>,
    dst: Seq<u8>,
    src: Seq<u8>,
    rest: Seq<u8>,
)
    requires
        first >= 0xf0,
        version.len() == 4,
        wire::be_value(version) != 0,
        dst.len() <= 20,
        src.len() <= 20,
    ensures
        ({
            let front = ids_layout(first, version, dst, src);
            long_header_at(front + rest) == Ok::<_, PacketError>(
                (
                    LongModel {
                        ty: LongType::Retry,
                        version: wire::be_value(version) as u32,
                        dst_cid: dst,
                        src_cid: src,
                        token: None,
                        length: None,
                        truncated_pn: None,
                        pn_len: None,
                    },
                    front.len(),
                ),
            )
        }),
{
    wire::lemma_be_value_small(version);
    assert(wire::be_value(version) <= u32::MAX);
    lemma_ids_layout(first, version, dst, src, rest);
}

/// Law: a long header of version 0 is a Version Negotiation packet, whatever
/// the other bits of its first byte. It ends with its IDs.
pub proof fn law_version_negotiation_layout(
    first: u8,
    version: Seq<u8>,
    dst: Seq<u8>,
    src: Seq<u8>,
    rest: Seq<u8>,
)
    requires
        first >= 0x80,
        version.len() == 4,
        wire::be_value(version) == 0,
        dst.len() <= 20,
        src.len() <= 20,
    ensures
        ({
            let front = ids_layout(first, version, dst, src);
            long_header_at(front + rest) == Ok::<_, PacketError>(
                (
                    LongModel {
                        ty: LongType::VersionNegotiation,
                        version: 0,
                        dst_cid: dst,
                        src_cid: src,
                        token: None,
                        length: None,
                        truncated_pn: None,
                        pn_len: None,
                    },
                    front.len(),
                ),
            )
        }),
{
    lemma_ids_layout(first, version, dst, src, rest);
}

/// Law: what is no long header is refused: a first byte below 0x80, one below
/// 0xc0 where the version is not 0, and an ID of more than 20 bytes.
pub proof fn law_long_header_refused(s: Seq<u8>)
    ensures
        s.len() < 7 ==> long_header_at(s) is Err,
        s.len() == 0 ==> long_header_at(s) == Err::<(LongModel, nat), _>(
            PacketError::BufferTooShort { needed: 1, actual: 0 },
        ),
        1 <= s.len() < 5 && s[0] >= 0x80 ==> long_header_at(s) == Err::<(LongModel, nat), _>(
            PacketError::BufferTooShort { needed: 5, actual: s.len() as usize },
        ),
        s.len() == 5 && s[0] >= 0xc0 ==> long_header_at(s) == Err::<(LongModel, nat), _>(
            PacketError::BufferTooShort { needed: 6, actual: 5 },
        ),
        s.len() >= 1 && s[0] < 0x80 ==> long_header_at(s) == Err::<(LongModel, nat), _>(
            PacketError::InvalidHeaderForm { expected: 1, actual: 0 },
        ),
        s.len() >= 5 && 0x80 <= s[0] < 0xc0 && wire::be_value(s.subrange(1, 5)) != 0
            ==> long_header_at(s) == Err::<(LongModel, nat), _>(PacketError::FixedBitNotSet),
        s.len() >= 6 && s[5] > 20 ==> long_header_at(s) is Err,
        s.len() >= 6 && s[0] >= 0xc0 && wire::be_value(s.subrange(1, 5)) != 0 && s[5] > 20
            ==> long_header_at(s) == Err::<(LongModel, nat), _>(
            PacketError::InvalidCidLength(s[5]),
        ),
        s.len() >= 7 && s[5] <= 20 && s.len() > 6 + s[5] && s[6 + s[5]] > 20 ==> long_header_at(s)
            is Err,
{
    if s.len() >= 5 {
        wire::lemma_be_value_small(s.subrange(1, 5));
    }
}

/// Law: what is written of a long header, byte by byte. Each number is in the
/// shortest varint, and the version is written like a packet number, most
/// significant byte first.
pub proof fn law_long_header_written(m: LongModel)
    requires
        m.pn_len matches Some(n) ==> 1 <= n <= 4,
    ensures
        ({
            let kind = match m.ty {
                LongType::Initial => 0xc0int,
                LongType::ZeroRtt => 0xd0,
                LongType::Handshake => 0xe0,
                LongType::Retry => 0xf0,
                LongType::VersionNegotiation => 0xc0,
            };
            let low = match m.pn_len {
                Some(n) => n - 1,
                None => 0,
            };
            long_front(m) == ids_layout(
                (kind + low) as u8,
                wire::be_bytes(m.version as nat, 4),
                m.dst_cid,
                m.src_cid,
            ) + (match m.token {
                Some(t) => varint::varint_bytes(t.len() as u64) + t,
                None => Seq::empty(),
            }) + (match m.length {
                Some(l) => varint::varint_bytes(l),
                None => Seq::empty(),
            })
        }),
        VERSION_1 == 1,
        VERSION_2 == 0x6b33_43cf,
{
    lemma_long_first(m.ty, m.pn_len);
}

/// Law: a short header is a first byte from 0x40 to 0x7f, the destination ID and
/// the packet number. The bit 0x20 of the first byte is the spin bit, 0x04 the
/// key phase, and 0x03 hold the length of the packet number; the bits 0x18 are
/// reserved.
pub proof fn law_short_header_layout(first: u8, dst: Seq<u8>, field: Seq<u8>, rest: Seq<u8>)
    requires
        dst.len() <= 20,
        field.len() == first % 4,
    ensures
        ({
            let s = seq![first] + dst + field + rest;
            let read = short_header_at(s, dst.len() as usize);
            &&& first >= 0x80 ==> read == Err::<(ShortModel, nat), _>(
                PacketError::InvalidHeaderForm { expected: 0, actual: 1 },
            )
            &&& first < 0x40 ==> read == Err::<(ShortModel, nat), _>(PacketError::FixedBitNotSet)
            &&& 0x40 <= first < 0x80 && (first / 8 % 4 != 0 || first % 4 == 0) ==> read == Err::<
                (ShortModel, nat),
                _,
            >(PacketError::ReservedBitsSet)
            &&& 0x40 <= first < 0x80 && first / 8 % 4 == 0 && first % 4 != 0 ==> read == Ok::<
                _,
                PacketError,
            >(
                (
                    ShortModel {
                        spin: first / 32 % 2 == 1,
                        key_phase: first / 4 % 2 == 1,
                        dst_cid: dst,
                        truncated_pn: wire::be_value(field) as u32,
                        pn_len: first % 4,
                    },
                    1 + dst.len() + field.len(),
                ),
            )
        }),
        ({
            let s = seq![first] + dst + field + rest;
            short_id_at(s, dst.len() as usize) == if first >= 0x80 {
                Err(PacketError::InvalidHeaderForm { expected: 0, actual: 1 })
            } else if first < 0x40 {
                Err(PacketError::FixedBitNotSet)
            } else {
                Ok(dst)
            }
        }),
{
    let s = seq![first] + dst + field + rest;
    let start = 1 + dst.len() as int;
    assert(s[0] == first);
    assert(s.subrange(1, start) =~= dst);
    assert(s.subrange(start, start + field.len()) =~= field);
}

/// Law: what is written of a short header, byte by byte. A packet number of four
/// bytes has the length bits 0.
pub proof fn law_short_header_written(m: ShortModel)
    requires
        1 <= m.pn_len <= 4,
    ensures
        short_front(m) == seq![
            (0x40 + (if m.spin {
                0x20int
            } else {
                0
            }) + (if m.key_phase {
                0x04int
            } else {
                0
            }) + m.pn_len % 4) as u8,
        ] + m.dst_cid,
{
    let spin: u8 = if m.spin {
        0x20
    } else {
        0
    };
    let phase: u8 = if m.key_phase {
        0x04
    } else {
        0
    };
    lemma_short_first(spin, phase, short_pn_bits(m.pn_len));
}

/// Law: the full packet number ends in the truncated one.
pub proof fn law_packet_number_residue(largest_known: u64, truncated: u64, pn_len: u8)
    requires
        1 <= pn_len <= 4,
        truncated < wire::radix(pn_len as nat),
        pn_in_range(largest_known, truncated, pn_len),
    ensures
        full_packet_number(largest_known, truncated, pn_len) % (wire::radix(pn_len as nat) as int)
            == truncated,
        0 <= full_packet_number(largest_known, truncated, pn_len),
        wire::radix(1) == 0x100,
        wire::radix(2) == 0x1_0000,
        wire::radix(3) == 0x100_0000,
        wire::radix(4) == 0x1_0000_0000,
{
    wire::lemma_radix_values();
    assert(pn_len == 1 || pn_len == 2 || pn_len == 3 || pn_len == 4);
    lemma_candidate_sum(largest_known, truncated, pn_len);
    let e = largest_known as int + 1;
    let w = wire::radix(pn_len as nat) as int;
    let t = truncated as int;
    let r = full_packet_number(largest_known, truncated, pn_len);
    let q = e / w;
    vstd::arithmetic::div_mod::lemma_fundamental_div_mod(e, w);
    let k = if r == w * q + t {
        q
    } else if r == w * q + t + w {
        q + 1
    } else {
        q - 1
    };
    assert(r == w * k + t) by (nonlinear_arith)
        requires
            r == w * q + t || r == w * q + t + w || r == w * q + t - w,
            k == if r == w * q + t {
                q
            } else if r == w * q + t + w {
                q + 1
            } else {
                q - 1
            },
    ;
    vstd::arithmetic::div_mod::lemma_fundamental_div_mod_converse(r, w, k, t);
}

/// Law: the model of a header has the header's own fields, and the contents of
/// its byte strings.
pub proof fn law_header_models(h: LongHeader, g: ShortHeader)
    ensures
        h@.ty == h.ty,
        h@.version == h.version,
        h@.dst_cid == buffer::bytes_content(&h.dst_cid.0),
        h@.src_cid == buffer::bytes_content(&h.src_cid.0),
        (h@.token is Some) == (h.token is Some),
        h.token matches Some(t) ==> h@.token == Some(buffer::bytes_content(&t)),
        h@.length == h.length,
        h@.truncated_pn == h.truncated_pn,
        h@.pn_len == h.pn_len,
        g@.spin == g.spin,
        g@.key_phase == g.key_phase,
        g@.dst_cid == buffer::bytes_content(&g.dst_cid.0),
        g@.truncated_pn == g.truncated_pn,
        g@.pn_len == g.pn_len,
{
}

/// Law: every truncated packet number can be made a full one, as long as the
/// largest that was received is below 2^62.
pub proof fn law_packet_numbers_in_range(largest_known: u64, truncated: u64, pn_len: u8)
    requires
        1 <= pn_len <= 4,
        truncated < wire::radix(pn_len as nat),
        largest_known < 0x4000_0000_0000_0000,
    ensures
        pn_in_range(largest_known, truncated, pn_len),
{
    wire::lemma_radix_values();
    lemma_candidate_sum(largest_known, truncated, pn_len);
    assert(pn_len == 1 || pn_len == 2 || pn_len == 3 || pn_len == 4);
}

/// Law: calls of the header parsers read the header off the front of their input.
pub proof fn law_headers_read(
    buf: &[u8],
    cid_len: usize,
    r: Result<(LongHeader, usize), PacketError>,
    q: Result<(ShortHeader, usize), PacketError>,
)
    requires
        call_ensures(parse_long_header, (buf,), r),
        call_ensures(parse_short_header, (buf, cid_len), q),
    ensures
        r matches Ok((h, n)) ==> long_header_at(buf@) == Ok::<_, PacketError>((h@, n as nat)),
        r matches Err(e) ==> long_header_at(buf@) == Err::<(LongModel, nat), _>(e),
        q matches Ok((h, n)) ==> short_header_at(buf@, cid_len) == Ok::<_, PacketError>(
            (h@, n as nat),
        ),
        q matches Err(e) ==> short_header_at(buf@, cid_len) == Err::<(ShortModel, nat), _>(e),
{
}

/// Law: a long header that was written is parsed back from what was written, as
/// one with the packet number 0.
pub proof fn law_write_parse_long_header(
    hdr: &LongHeader,
    buf: &mut Vec<u8>,
    n: usize,
    read: &[u8],
    rest: Seq<u8>,
    r: Result<(LongHeader, usize), PacketError>,
)
    requires
        long_writable(hdr@),
        hdr.truncated_pn matches Some(pn) ==> pn == 0,
        call_ensures(write_long_header, (hdr, buf), Ok::<usize, PacketError>(n)),
        read@ == final(buf)@.skip(old(buf)@.len() as int) + rest,
        call_ensures(parse_long_header, (read,), r),
    ensures
        final(buf)@.len() == old(buf)@.len() + n,
        final(buf)@.take(old(buf)@.len() as int) == old(buf)@,
        r matches Ok((h, k)) && h@ == hdr@ && k == n,
{
    let m = hdr@;
    law_long_header_round_trip(m, rest);
    lemma_zero_bytes(pn_size(m.pn_len));
    let written = long_front(m) + zeros(pn_size(m.pn_len));
    assert(final(buf)@.skip(old(buf)@.len() as int) =~= written);
    assert(final(buf)@.take(old(buf)@.len() as int) =~= old(buf)@);
    assert(pn_bytes(m) =~= zeros(pn_size(m.pn_len)));
}

proof fn lemma_zero_bytes(n: nat)
    ensures
        wire::be_bytes(0, n) == zeros(n),
    decreases n,
{
    if n > 0 {
        lemma_zero_bytes((n - 1) as nat);
    }
    assert(wire::be_bytes(0, n) =~= zeros(n));
}

/// Law: a call of [`decode_packet_number`] finds the packet number that was
/// truncated to one, two, three or four bytes, where that is within half a window
/// of the one after the largest known.
pub proof fn law_packet_number_decoded(largest_known: u64, pn: u64, pn_len: u8, win: u64, r: u64)
    requires
        pn_len == 1 && win == 0x100 || pn_len == 2 && win == 0x1_0000 || pn_len == 3 && win
            == 0x100_0000 || pn_len == 4 && win == 0x1_0000_0000,
        largest_known < 0x4000_0000_0000_0000,
        pn < 0x4000_0000_0000_0000,
        largest_known + 1 - win / 2 < pn <= largest_known + 1 + win / 2,
        call_ensures(decode_packet_number, (largest_known, pn % win, pn_len), r),
    ensures
        r == pn,
{
    wire::lemma_radix_values();
    law_packet_number_recovery(largest_known, pn, pn_len);
}

} // verus!
