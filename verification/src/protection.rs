//! Packet protection: sealing payloads and masking headers.
//!
//! A packet is its header, whose first byte and packet number are masked, and
//! the sealed payload. [`protected`] says how the two are put together,
//! [`opened`] what the receiver makes of them.

use bytes::Bytes;
use rustls::quic::{DirectionalKeys, Keys};
use vstd::prelude::*;

use crate::crypto;
use crate::error::{ConnectionError, TransportError};
use crate::frame;
use crate::frame::{ConnectionId, Frame, FrameError, FrameModel};
use crate::packet;
use crate::packet::{
    LongHeader, LongModel, LongType, PacketError, PacketNumberSpace, ShortModel,
};
use crate::space::Space;
use crate::varint;
use crate::varint::{VarInt, VARINT_MAX};
use crate::wire;

verus! {

/// `n`, or the largest `usize` where `n` is larger.
pub open spec fn capped(n: int) -> usize {
    if n > usize::MAX {
        usize::MAX
    } else {
        n as usize
    }
}

/// The models of a list of frames.
pub open spec fn frame_models(frames: Seq<Frame>) -> Seq<FrameModel> {
    frames.map_values(|f: Frame| f@)
}

/// The frames that a payload is made of, to its end.
pub open spec fn frames_in(s: Seq<u8>) -> Result<Seq<FrameModel>, FrameError>
    decreases s.len(),
{
    if s.len() == 0 {
        Ok(Seq::empty())
    } else {
        match frame::frame_at(s) {
            Err(e) => Err(e),
            Ok((m, rest)) => if rest.len() < s.len() {
                match frames_in(rest) {
                    Err(e) => Err(e),
                    Ok(more) => Ok(seq![m] + more),
                }
            } else {
                // A frame takes at least one byte.
                Ok(seq![m])
            },
        }
    }
}

/// Parse all the frames of a payload.
#[verifier::rlimit(60)]
pub fn parse_frames(payload: &[u8]) -> (r: Result<Vec<Frame>, FrameError>)
    ensures
        match frames_in(payload@) {
            Err(e) => r == Err::<Vec<Frame>, _>(e),
            Ok(ms) => r matches Ok(fs) && frame_models(fs@) == ms,
        },
{
    let mut frames: Vec<Frame> = Vec::new();
    let mut pos: usize = 0;
    assert(payload@.skip(0) =~= payload@);
    assert(frame_models(frames@) =~= Seq::<FrameModel>::empty());
    while pos < payload.len()
        invariant
            pos <= payload@.len(),
            match frames_in(payload@.skip(pos as int)) {
                Err(e) => frames_in(payload@) == Err::<Seq<FrameModel>, _>(e),
                Ok(more) => frames_in(payload@) == Ok::<_, FrameError>(
                    frame_models(frames@) + more,
                ),
            },
        decreases payload@.len() - pos,
    {
        let rest = vstd::slice::slice_subrange(payload, pos, payload.len());
        let ghost done = frame_models(frames@);
        proof {
            assert(rest@ =~= payload@.skip(pos as int));
            frame::law_frame_progress(rest@);
        }
        let (f, n) = frame::parse_frame(rest)?;
        let ghost m = f@;
        frames.push(f);
        proof {
            assert(rest@.skip(n as int) =~= payload@.skip(pos + n));
            assert(frame_models(frames@) =~= done.push(m));
            if let Ok(more) = frames_in(payload@.skip(pos + n)) {
                assert(done + (seq![m] + more) =~= done.push(m) + more);
            }
        }
        pos = pos + n;
    }
    proof {
        assert(payload@.skip(pos as int) =~= Seq::<u8>::empty());
        assert(frame_models(frames@) + Seq::<FrameModel>::empty() =~= frame_models(frames@));
    }
    Ok(frames)
}

// ---------------------------------------------------------------------------
// Protecting
// ---------------------------------------------------------------------------

/// The bytes that header protection samples: those that start four bytes after
/// the start of the packet number.
pub open spec fn hp_sample(material: Seq<u8>, pn_len: int, sealed: Seq<u8>) -> Seq<u8> {
    sealed.subrange(4 - pn_len, 4 - pn_len + crypto::hp_sample_len(material))
}

/// The packet of a header, whose packet number starts at `pn_offset` and runs
/// to its end, and a sealed payload.
pub open spec fn protected(
    material: Seq<u8>,
    header: Seq<u8>,
    pn_offset: int,
    sealed: Seq<u8>,
) -> Seq<u8> {
    let pn_len = header.len() - pn_offset;
    let mask = crypto::hp_mask(material, hp_sample(material, pn_len, sealed));
    seq![crypto::masked_first(header[0], mask)] + header.subrange(1, pn_offset)
        + crypto::masked_pn(header.skip(pn_offset), mask, header[0] % 4 + 1) + sealed
}

/// Why a packet could not be protected.
pub enum ProtectError {
    /// The payload could not be sealed.
    Seal(rustls::Error),
    /// The header could not be masked.
    Header(rustls::Error),
}

/// Seals `payload` under `header`, and masks the header's first byte and
/// packet number, which starts at `pn_offset` and runs to its end.
pub(crate) fn seal_packet(
    keys: &DirectionalKeys,
    pn: u64,
    header: Vec<u8>,
    pn_offset: usize,
    payload: Vec<u8>,
) -> (r: Result<Vec<u8>, ProtectError>)
    requires
        1 <= pn_offset < header@.len() <= pn_offset + 4,
        4 - (header@.len() - pn_offset) + crypto::hp_sample_len(crypto::key_material(keys))
            <= payload@.len() + 16,
    ensures
        match crypto::aead_seal(crypto::key_material(keys), pn, header@, payload@) {
            None => r matches Err(ProtectError::Seal(_)),
            Some(sealed) => {
                &&& r matches Ok(p)
                &&& p@ == protected(crypto::key_material(keys), header@, pn_offset as int, sealed)
                &&& sealed.len() == payload@.len() + 16
                &&& crypto::aead_open(crypto::key_material(keys), pn, header@, sealed) == Some(
                    payload@,
                )
            },
        },
{
    let ghost material = crypto::key_material(keys);
    let pn_len: usize = header.len() - pn_offset;
    let mut sealed: Vec<u8> = payload;
    let tag = match crypto::seal(keys, pn, &header, sealed.as_mut_slice()) {
        Ok(tag) => tag,
        Err(e) => {
            return Err(ProtectError::Seal(e));
        },
    };
    sealed.extend_from_slice(&tag);
    let sealed_len: usize = sealed.len();
    assert(sealed_len == payload@.len() + 16);
    let sample_len: usize = crypto::sample_len(keys);
    let start: usize = 4 - pn_len;
    let sample = vstd::slice::slice_subrange(&sealed, start, start + sample_len);
    assert(sample@ =~= hp_sample(material, pn_len as int, sealed@));
    let mut first: u8 = header[0];
    let mut pn_bytes: Vec<u8> = Vec::new();
    pn_bytes.extend_from_slice(vstd::slice::slice_subrange(&header, pn_offset, header.len()));
    assert(pn_bytes@ =~= header@.skip(pn_offset as int));
    assert(crypto::aead_seal(material, pn, header@, payload@) == Some(sealed@));
    match crypto::protect_header(keys, sample, &mut first, pn_bytes.as_mut_slice()) {
        Ok(()) => {},
        Err(e) => {
            return Err(ProtectError::Header(e));
        },
    }
    let mut out: Vec<u8> = Vec::new();
    out.push(first);
    out.extend_from_slice(vstd::slice::slice_subrange(&header, 1, pn_offset));
    out.extend_from_slice(&pn_bytes);
    out.extend_from_slice(&sealed);
    assert(out@ =~= protected(material, header@, pn_offset as int, sealed@));
    Ok(out)
}

// ---------------------------------------------------------------------------
// Opening
// ---------------------------------------------------------------------------

/// The length of a packet number, by the unmasked first byte. In a short
/// header the two bits hold the length itself, with 0 for 4; in a long header
/// they hold one less.
pub open spec fn announced_pn_len(first: u8, short: bool) -> int {
    if !short {
        first % 4 + 1
    } else if first % 4 == 0 {
        4
    } else {
        (first % 4) as int
    }
}

/// What unmasking finds in a packet whose packet number starts at
/// `pn_offset`: the first byte and the packet number field.
pub open spec fn unmasked(
    material: Seq<u8>,
    packet: Seq<u8>,
    pn_offset: int,
    short: bool,
) -> (u8, Seq<u8>) {
    let sample = packet.subrange(
        pn_offset + 4,
        pn_offset + 4 + crypto::hp_sample_len(material),
    );
    let mask = crypto::hp_mask(material, sample);
    let first = crypto::masked_first(packet[0], mask);
    let field = crypto::masked_pn(
        packet.subrange(pn_offset, pn_offset + 4),
        mask,
        first % 4 + 1,
    );
    (first, field.take(announced_pn_len(first, short)))
}

/// Whether a short header has a reserved bit set, by its unmasked first byte.
pub open spec fn reserved_set(first: u8) -> bool {
    first / 8 % 4 != 0
}

/// What a packet whose packet number starts at `pn_offset` opens to, `largest`
/// being the largest packet number received so far: its packet number and
/// frames. A short header with a reserved bit set is refused. `None` where the
/// packet number leaves 64 bits.
pub open spec fn opened(
    material: Seq<u8>,
    packet: Seq<u8>,
    pn_offset: int,
    largest: u64,
    short: bool,
) -> Option<Result<(u64, Seq<FrameModel>), ConnectionError>> {
    let (first, field) = unmasked(material, packet, pn_offset, short);
    let truncated = wire::be_value(field) as u64;
    let pn_len = field.len() as u8;
    if short && reserved_set(first) {
        Some(Err(ConnectionError::Packet(PacketError::ReservedBitsSet)))
    } else if !packet::pn_in_range(largest, truncated, pn_len) {
        None
    } else {
        let pn = packet::full_packet_number(largest, truncated, pn_len) as u64;
        let header = seq![first] + packet.subrange(1, pn_offset) + field;
        match crypto::aead_open(material, pn, header, packet.skip(pn_offset + field.len())) {
            None => Some(Err(ConnectionError::Transport(TransportError::ProtocolViolation))),
            Some(payload) => match frames_in(payload) {
                Err(e) => Some(Err(ConnectionError::Frame(e))),
                Ok(frames) => Some(Ok((pn, frames))),
            },
        }
    }
}

/// Unmasks a packet's header, opens its payload and parses the frames.
pub(crate) fn open_packet(
    keys: &DirectionalKeys,
    packet: &[u8],
    pn_offset: usize,
    largest: u64,
    short: bool,
) -> (r: Option<Result<(u64, Vec<Frame>), ConnectionError>>)
    requires
        1 <= pn_offset,
        pn_offset + 4 + crypto::hp_sample_len(crypto::key_material(keys)) <= packet@.len(),
    ensures
        match opened(crypto::key_material(keys), packet@, pn_offset as int, largest, short) {
            None => r is None,
            Some(Err(e)) => r == Some(Err::<(u64, Vec<Frame>), _>(e)),
            Some(Ok((pn, ms))) => r matches Some(Ok((n, fs))) && n == pn && frame_models(fs@)
                == ms,
        },
{
    let ghost material = crypto::key_material(keys);
    let sample_len: usize = crypto::sample_len(keys);
    let packet_len: usize = packet.len();
    let sample_start: usize = pn_offset + 4;
    let sample = vstd::slice::slice_subrange(packet, sample_start, sample_start + sample_len);
    // Assume a packet number of four bytes until its length is unmasked.
    let mut first: u8 = packet[0];
    let mut field: Vec<u8> = Vec::new();
    field.extend_from_slice(vstd::slice::slice_subrange(packet, pn_offset, sample_start));
    assert(field@ =~= packet@.subrange(pn_offset as int, pn_offset + 4));
    match crypto::unprotect_header(keys, sample, &mut first, field.as_mut_slice()) {
        Ok(()) => {},
        Err(_) => {
            return Some(Err(ConnectionError::Transport(TransportError::ProtocolViolation)));
        },
    }
    if short && first / 8 % 4 != 0 {
        return Some(Err(ConnectionError::Packet(PacketError::ReservedBitsSet)));
    }
    let low: u8 = first % 4;
    let pn_len: u8 = if !short {
        low + 1
    } else if low == 0 {
        4
    } else {
        low
    };
    field.truncate(pn_len as usize);
    assert(unmasked(material, packet@, pn_offset as int, short) == (first, field@));
    let truncated: u64 = wire::read_be(&field) as u64;
    if !packet::packet_number_fits(largest, truncated, pn_len) {
        return None;
    }
    let pn: u64 = packet::decode_packet_number(largest, truncated, pn_len);
    let mut header: Vec<u8> = Vec::new();
    header.push(first);
    header.extend_from_slice(vstd::slice::slice_subrange(packet, 1, pn_offset));
    header.extend_from_slice(&field);
    assert(header@ =~= seq![first] + packet@.subrange(1, pn_offset as int) + field@);
    let mut sealed: Vec<u8> = Vec::new();
    sealed.extend_from_slice(
        vstd::slice::slice_subrange(packet, pn_offset + pn_len as usize, packet_len),
    );
    assert(sealed@ =~= packet@.skip(pn_offset + pn_len));
    let payload = match crypto::open(keys, pn, &header, sealed.as_mut_slice()) {
        Ok(p) => p,
        Err(_) => {
            return Some(Err(ConnectionError::Transport(TransportError::ProtocolViolation)));
        },
    };
    match parse_frames(&payload) {
        Ok(frames) => Some(Ok((pn, frames))),
        Err(e) => Some(Err(ConnectionError::Frame(e))),
    }
}

// ---------------------------------------------------------------------------
// Opening what was protected
// ---------------------------------------------------------------------------

/// Masking a first byte twice gives it back, and keeps its top bits.
proof fn lemma_mask_first_twice(first: u8, mask: Seq<u8>)
    ensures
        crypto::masked_first(crypto::masked_first(first, mask), mask) == first,
        (crypto::masked_first(first, mask) >= 0x80) == (first >= 0x80),
        first >= 0x80 ==> crypto::masked_first(first, mask) / 16 == first / 16,
        crypto::masked_first(first, mask) / 32 == first / 32,
{
    let m = mask[0];
    assert({
        &&& (first ^ (m & 0x0f)) ^ (m & 0x0f) == first
        &&& (first ^ (m & 0x1f)) ^ (m & 0x1f) == first
        &&& ((first ^ (m & 0x0f)) >= 0x80) == (first >= 0x80)
        &&& ((first ^ (m & 0x1f)) >= 0x80) == (first >= 0x80)
        &&& (first ^ (m & 0x0f)) / 16 == first / 16
        &&& (first ^ (m & 0x0f)) / 32 == first / 32
        &&& (first ^ (m & 0x1f)) / 32 == first / 32
    }) by (bit_vector);
}

/// A protected packet has the form and fixed bits of its header.
pub proof fn lemma_protected_first(
    material: Seq<u8>,
    header: Seq<u8>,
    pn_offset: int,
    sealed: Seq<u8>,
)
    requires
        header.len() > 0,
    ensures
        (protected(material, header, pn_offset, sealed)[0] >= 0x80) == (header[0] >= 0x80),
        protected(material, header, pn_offset, sealed)[0] / 32 == header[0] / 32,
        protected(material, header, pn_offset, sealed).len() > 0,
{
    let pn_len = header.len() - pn_offset;
    lemma_mask_first_twice(
        header[0],
        crypto::hp_mask(material, hp_sample(material, pn_len, sealed)),
    );
}

/// Unmasking a protected packet finds the first byte and packet number of its
/// header.
proof fn lemma_unmask(
    material: Seq<u8>,
    header: Seq<u8>,
    pn_offset: int,
    sealed: Seq<u8>,
    short: bool,
)
    requires
        1 <= pn_offset < header.len() <= pn_offset + 4,
        4 - (header.len() - pn_offset) + crypto::hp_sample_len(material) <= sealed.len(),
        announced_pn_len(header[0], short) == header.len() - pn_offset,
    ensures
        ({
            let packet = protected(material, header, pn_offset, sealed);
            &&& unmasked(material, packet, pn_offset, short) == (header[0], header.skip(pn_offset))
            &&& packet.subrange(1, pn_offset) == header.subrange(1, pn_offset)
            &&& packet.skip(header.len() as int) == sealed
            &&& packet.len() == header.len() + sealed.len()
        }),
{
    let packet = protected(material, header, pn_offset, sealed);
    let pn_len = header.len() - pn_offset;
    let n = crypto::hp_sample_len(material) as int;
    let mask = crypto::hp_mask(material, hp_sample(material, pn_len, sealed));
    let pn = header.skip(pn_offset);
    let masked = crypto::masked_pn(pn, mask, header[0] % 4 + 1);
    assert(packet.subrange(pn_offset + 4, pn_offset + 4 + n) =~= hp_sample(
        material,
        pn_len,
        sealed,
    ));
    lemma_mask_first_twice(header[0], mask);
    let four = packet.subrange(pn_offset, pn_offset + 4);
    let field = crypto::masked_pn(four, mask, header[0] % 4 + 1);
    assert forall|i: int| 0 <= i < pn_len implies field[i] == pn[i] by {
        assert(four[i] == masked[i]);
        let a = pn[i];
        let b = mask[1 + i];
        assert((a ^ b) ^ b == a) by (bit_vector);
    }
    assert(field.take(pn_len) =~= pn);
    assert(packet.subrange(1, pn_offset) =~= header.subrange(1, pn_offset));
    assert(packet.skip(header.len() as int) =~= sealed);
}

/// Whether a receiver that has seen packet numbers up to `largest` recovers
/// `pn` from its `pn_len` low-order bytes.
pub open spec fn pn_recoverable(largest: u64, pn: u64, pn_len: int) -> bool {
    let truncated = (pn as nat % wire::radix(pn_len as nat)) as u64;
    &&& packet::pn_in_range(largest, truncated, pn_len as u8)
    &&& packet::full_packet_number(largest, truncated, pn_len as u8) == pn
}

/// Whether a packet opens to `pn` and the frames of `payload`.
pub open spec fn opens_to(
    material: Seq<u8>,
    packet: Seq<u8>,
    pn_offset: int,
    largest: u64,
    short: bool,
    pn: u64,
    payload: Seq<u8>,
) -> bool {
    opened(material, packet, pn_offset, largest, short) == Some(
        match frames_in(payload) {
            Ok(frames) => Ok::<_, ConnectionError>((pn, frames)),
            Err(e) => Err(ConnectionError::Frame(e)),
        },
    )
}

/// Law: a protected packet opens to the packet number and the frames that went
/// in, at a receiver that holds the same key material and is near enough for
/// the packet number to be recovered.
pub proof fn law_protected_opens(
    material: Seq<u8>,
    pn: u64,
    header: Seq<u8>,
    pn_offset: int,
    sealed: Seq<u8>,
    payload: Seq<u8>,
    largest: u64,
    short: bool,
)
    requires
        1 <= pn_offset < header.len() <= pn_offset + 4,
        4 - (header.len() - pn_offset) + crypto::hp_sample_len(material) <= sealed.len(),
        announced_pn_len(header[0], short) == header.len() - pn_offset,
        short ==> !reserved_set(header[0]),
        header.skip(pn_offset) == wire::be_bytes(pn as nat, (header.len() - pn_offset) as nat),
        pn_recoverable(largest, pn, header.len() - pn_offset),
        crypto::aead_open(material, pn, header, sealed) == Some(payload),
    ensures
        opens_to(
            material,
            protected(material, header, pn_offset, sealed),
            pn_offset,
            largest,
            short,
            pn,
            payload,
        ),
{
    let packet = protected(material, header, pn_offset, sealed);
    let pn_len = (header.len() - pn_offset) as nat;
    lemma_unmask(material, header, pn_offset, sealed, short);
    wire::lemma_be_value_of_bytes(pn as nat, pn_len);
    wire::lemma_radix_values();
    assert(pn_len == 1 || pn_len == 2 || pn_len == 3 || pn_len == 4);
    assert(seq![header[0]] + packet.subrange(1, pn_offset) + header.skip(pn_offset) =~= header);
}

// ---------------------------------------------------------------------------
// Packets
// ---------------------------------------------------------------------------

/// Encoded length of a packet number: 1, 2 or 4 bytes by its size.
pub open spec fn pn_len_for(pn: u64) -> usize {
    if pn < 256 {
        1
    } else if pn < 65536 {
        2
    } else {
        4
    }
}

/// How many bytes to use for a packet number.
pub fn encoded_pn_len(pn: u64, _largest_acked: u64) -> (n: usize)
    ensures
        n == pn_len_for(pn),
{
    if pn < 256 {
        1
    } else if pn < 65536 {
        2
    } else {
        4
    }
}

/// Law: a packet number below 2^32, in as many bytes as [`encoded_pn_len`]
/// gives it, is recovered before any packet has been received.
pub proof fn law_first_packet_recoverable(pn: u64)
    requires
        pn < 0x1_0000_0000,
    ensures
        pn_recoverable(0, pn, pn_len_for(pn) as int),
{
    wire::lemma_radix_values();
    let n = pn_len_for(pn);
    vstd::arithmetic::div_mod::lemma_small_mod(pn as nat, wire::radix(n as nat));
    packet::lemma_first_packet_number(pn, n as u8);
}

/// The low-order bytes of a packet number, as shifts pick them out.
proof fn lemma_pn_bytes(pn: u64)
    ensures
        wire::be_bytes(pn as nat, 1) == seq![pn as u8],
        wire::be_bytes(pn as nat, 2) == seq![(pn >> 8) as u8, pn as u8],
        wire::be_bytes(pn as nat, 3) == seq![(pn >> 16) as u8, (pn >> 8) as u8, pn as u8],
        wire::be_bytes(pn as nat, 4) == seq![
            (pn >> 24) as u8,
            (pn >> 16) as u8,
            (pn >> 8) as u8,
            pn as u8,
        ],
{
    wire::lemma_shift_bytes(pn);
    let v = pn as nat;
    assert(v / 256 / 256 == v / 0x1_0000);
    assert(v / 256 / 256 / 256 == v / 0x100_0000);
    reveal_with_fuel(wire::be_bytes, 5);
    assert(wire::be_bytes(v, 1) =~= seq![pn as u8]);
    assert(wire::be_bytes(v, 2) =~= seq![(pn >> 8) as u8, pn as u8]);
    assert(wire::be_bytes(v, 3) =~= seq![(pn >> 16) as u8, (pn >> 8) as u8, pn as u8]);
    assert(wire::be_bytes(v, 4) =~= seq![
        (pn >> 24) as u8,
        (pn >> 16) as u8,
        (pn >> 8) as u8,
        pn as u8,
    ]);
}

/// Writes the `len` low-order bytes of `pn` to the front of `buf`, most
/// significant first. Other lengths than 1 to 4 write nothing.
pub fn write_pn(buf: &mut [u8], pn: u64, len: usize)
    requires
        1 <= len <= 4 ==> len <= old(buf)@.len(),
    ensures
        1 <= len <= 4 ==> final(buf)@ == wire::be_bytes(pn as nat, len as nat) + old(buf)@.skip(
            len as int,
        ),
        !(1 <= len <= 4) ==> final(buf)@ == old(buf)@,
{
    let ghost before = buf@;
    proof {
        lemma_pn_bytes(pn);
    }
    match len {
        1 => {
            buf[0] = pn as u8;
        },
        2 => {
            buf[0] = (pn >> 8) as u8;
            buf[1] = pn as u8;
        },
        3 => {
            buf[0] = (pn >> 16) as u8;
            buf[1] = (pn >> 8) as u8;
            buf[2] = pn as u8;
        },
        4 => {
            buf[0] = (pn >> 24) as u8;
            buf[1] = (pn >> 16) as u8;
            buf[2] = (pn >> 8) as u8;
            buf[3] = pn as u8;
        },
        _ => {},
    }
    proof {
        if 1 <= len <= 4 {
            assert(buf@ =~= wire::be_bytes(pn as nat, len as nat) + before.skip(len as int));
        }
    }
}

/// Appends the `len` low-order bytes of `pn`.
fn put_pn(buf: &mut Vec<u8>, pn: u64, len: usize)
    requires
        1 <= len <= 4,
    ensures
        final(buf)@ == old(buf)@ + wire::be_bytes(pn as nat, len as nat),
{
    let mut field: [u8; 4] = [0u8; 4];
    write_pn(&mut field, pn, len);
    proof {
        wire::lemma_be_bytes_len(pn as nat, len as nat);
        assert(field@.take(len as int) =~= wire::be_bytes(pn as nat, len as nat));
    }
    buf.extend_from_slice(vstd::slice::slice_subrange(&field, 0, len));
}

/// The type of the long header packets of a space. Application data goes in
/// 0-RTT packets.
pub open spec fn space_long_type(space: PacketNumberSpace) -> LongType {
    match space {
        PacketNumberSpace::Initial => LongType::Initial,
        PacketNumberSpace::Handshake => LongType::Handshake,
        PacketNumberSpace::ApplicationData => LongType::ZeroRtt,
    }
}

/// The fields of a long header. Initial packets have an empty token.
pub open spec fn long_model(
    space: PacketNumberSpace,
    version: u32,
    dst_cid: Seq<u8>,
    src_cid: Seq<u8>,
    length: u64,
    pn_len: usize,
) -> LongModel {
    LongModel {
        ty: space_long_type(space),
        version,
        dst_cid,
        src_cid,
        token: if space is Initial {
            Some(Seq::empty())
        } else {
            None
        },
        length: Some(length),
        truncated_pn: None,
        pn_len: Some(pn_len as u8),
    }
}

/// The value of the length field: packet number, payload and tag.
pub open spec fn length_value(material: Seq<u8>, payload_len: nat, pn_len: usize) -> u64 {
    capped(pn_len + payload_len + crypto::aead_tag_len(material)) as u64
}

/// A long header packet, or `None` where its length does not fit in a varint
/// or its payload cannot be sealed.
pub open spec fn long_packet(
    material: Seq<u8>,
    space: PacketNumberSpace,
    version: u32,
    dst_cid: Seq<u8>,
    src_cid: Seq<u8>,
    payload: Seq<u8>,
    pn: u64,
    pn_len: usize,
) -> Option<Seq<u8>> {
    let length = length_value(material, payload.len(), pn_len);
    let front = packet::long_front(long_model(space, version, dst_cid, src_cid, length, pn_len));
    let header = front + wire::be_bytes(pn as nat, pn_len as nat);
    if length > VARINT_MAX {
        None
    } else {
        match crypto::aead_seal(material, pn, header, payload) {
            None => None,
            Some(sealed) => Some(protected(material, header, front.len() as int, sealed)),
        }
    }
}

/// Where the packet number of a long header packet starts.
pub open spec fn long_packet_pn_offset(
    material: Seq<u8>,
    space: PacketNumberSpace,
    version: u32,
    dst_cid: Seq<u8>,
    src_cid: Seq<u8>,
    payload_len: nat,
    pn_len: usize,
) -> int {
    let length = length_value(material, payload_len, pn_len);
    packet::long_front(
        long_model(space, version, dst_cid, src_cid, length, pn_len),
    ).len() as int
}

/// The fields of a short header.
pub open spec fn short_model(dst_cid: Seq<u8>, pn_len: usize, key_phase: bool) -> ShortModel {
    ShortModel {
        spin: false,
        key_phase,
        dst_cid,
        truncated_pn: 0,
        pn_len: pn_len as u8,
    }
}

/// A short header packet, or `None` where its payload cannot be sealed.
pub open spec fn short_packet(
    material: Seq<u8>,
    dst_cid: Seq<u8>,
    payload: Seq<u8>,
    pn: u64,
    pn_len: usize,
    key_phase: bool,
) -> Option<Seq<u8>> {
    let front = packet::short_front(short_model(dst_cid, pn_len, key_phase));
    let header = front + wire::be_bytes(pn as nat, pn_len as nat);
    match crypto::aead_seal(material, pn, header, payload) {
        None => None,
        Some(sealed) => Some(protected(material, header, front.len() as int, sealed)),
    }
}

/// Appends a long header up to its packet number.
pub(crate) fn put_long_front(
    buf: &mut Vec<u8>,
    space: PacketNumberSpace,
    version: u32,
    dst_cid: &[u8],
    src_cid: &[u8],
    length: VarInt,
    pn_len: usize,
)
    requires
        1 <= pn_len <= 4,
        length <= VARINT_MAX,
    ensures
        final(buf)@ == old(buf)@ + packet::long_front(
            long_model(space, version, dst_cid@, src_cid@, length, pn_len),
        ),
{
    let ghost m = long_model(space, version, dst_cid@, src_cid@, length, pn_len);
    let ghost before = buf@;
    let type_bits: u8 = match space {
        PacketNumberSpace::Initial => 0,
        // 0-RTT uses type 1.
        PacketNumberSpace::ApplicationData => 1,
        PacketNumberSpace::Handshake => 2,
    };
    let pn_bits: u8 = (pn_len - 1) as u8;
    let first: u8 = 0x80u8 | 0x40 | (type_bits << 4) | pn_bits;
    buf.push(first);
    packet::put_u32(buf, version);
    buf.push(dst_cid.len() as u8);
    buf.extend_from_slice(dst_cid);
    buf.push(src_cid.len() as u8);
    buf.extend_from_slice(src_cid);
    assert(buf@ =~= before + packet::long_ids_bytes(m));
    match space {
        PacketNumberSpace::Initial => {
            // A token of no bytes.
            let written = varint::put_varint(buf, 0);
            assert(written is Ok);
            assert(packet::token_bytes(m) =~= varint::varint_bytes(0));
        },
        _ => {},
    }
    assert(buf@ =~= before + (packet::long_ids_bytes(m) + packet::token_bytes(m)));
    let written = varint::put_varint(buf, length);
    assert(written is Ok);
    assert(buf@ =~= before + packet::long_front(m));
}

/// A long header packet opens to what went in, once its payload is sealed.
pub proof fn lemma_long_packet_opens(
    material: Seq<u8>,
    space: PacketNumberSpace,
    version: u32,
    dst_cid: Seq<u8>,
    src_cid: Seq<u8>,
    payload: Seq<u8>,
    pn: u64,
    pn_len: usize,
)
    requires
        1 <= pn_len <= 4,
        4 - pn_len + crypto::hp_sample_len(material) <= payload.len() + 16,
        ({
            let length = length_value(material, payload.len(), pn_len);
            let front = packet::long_front(
                long_model(space, version, dst_cid, src_cid, length, pn_len),
            );
            let header = front + wire::be_bytes(pn as nat, pn_len as nat);
            &&& length <= VARINT_MAX
            &&& crypto::aead_seal(material, pn, header, payload) matches Some(sealed)
            &&& sealed.len() == payload.len() + 16
            &&& crypto::aead_open(material, pn, header, sealed) == Some(payload)
        }),
    ensures
        ({
            let offset = long_packet_pn_offset(
                material,
                space,
                version,
                dst_cid,
                src_cid,
                payload.len(),
                pn_len,
            );
            &&& long_packet(material, space, version, dst_cid, src_cid, payload, pn, pn_len)
                matches Some(p)
            &&& p.len() == offset + pn_len + payload.len() + 16
            &&& forall|largest: u64|
                pn_recoverable(largest, pn, pn_len as int) ==> #[trigger] opens_to(
                    material,
                    p,
                    offset,
                    largest,
                    false,
                    pn,
                    payload,
                )
        }),
{
    let length = length_value(material, payload.len(), pn_len);
    let m = long_model(space, version, dst_cid, src_cid, length, pn_len);
    let front = packet::long_front(m);
    let hdr = front + wire::be_bytes(pn as nat, pn_len as nat);
    let off = front.len() as int;
    let sealed = crypto::aead_seal(material, pn, hdr, payload)->Some_0;
    let p = protected(material, hdr, off, sealed);
    wire::lemma_be_bytes_len(pn as nat, pn_len as nat);
    packet::lemma_long_first(m.ty, m.pn_len);
    assert(front.len() > 0 && hdr[0] == packet::long_first(m.ty, m.pn_len));
    assert(hdr.skip(off) =~= wire::be_bytes(pn as nat, pn_len as nat));
    lemma_unmask(material, hdr, off, sealed, false);
    assert forall|largest: u64|
        pn_recoverable(largest, pn, pn_len as int) implies #[trigger] opens_to(
        material,
        p,
        off,
        largest,
        false,
        pn,
        payload,
    ) by {
        law_protected_opens(material, pn, hdr, off, sealed, payload, largest, false);
    }
}

/// Protect a payload in a long header packet.
#[verifier::rlimit(40)]
pub(crate) fn encrypt_long(
    keys: &DirectionalKeys,
    space: PacketNumberSpace,
    version: u32,
    dst_cid: &[u8],
    src_cid: &[u8],
    payload: Vec<u8>,
    pn: u64,
    pn_len: usize,
) -> (r: Result<Vec<u8>, ConnectionError>)
    requires
        1 <= pn_len <= 4,
        4 - pn_len + crypto::hp_sample_len(crypto::key_material(keys)) <= payload@.len() + 16,
    ensures
        ({
            let material = crypto::key_material(keys);
            let offset = long_packet_pn_offset(
                material,
                space,
                version,
                dst_cid@,
                src_cid@,
                payload@.len(),
                pn_len,
            );
            match long_packet(
                material,
                space,
                version,
                dst_cid@,
                src_cid@,
                payload@,
                pn,
                pn_len,
            ) {
                None => r == Err::<Vec<u8>, _>(
                    ConnectionError::Transport(TransportError::InternalError),
                ),
                Some(p) => {
                    &&& r matches Ok(v)
                    &&& v@ == p
                    &&& p.len() == offset + pn_len + payload@.len() + 16
                    &&& forall|largest: u64|
                        pn_recoverable(largest, pn, pn_len as int) ==> #[trigger] opens_to(
                            material,
                            p,
                            offset,
                            largest,
                            false,
                            pn,
                            payload@,
                        )
                },
            }
        }),
{
    let ghost material = crypto::key_material(keys);
    let ghost plain = payload@;
    let tag_len: usize = crypto::tag_len(keys);
    let length: VarInt = pn_len.saturating_add(payload.len()).saturating_add(tag_len) as VarInt;
    assert(length == length_value(material, plain.len(), pn_len));
    if length > VARINT_MAX {
        return Err(ConnectionError::Transport(TransportError::InternalError));
    }
    let ghost m = long_model(space, version, dst_cid@, src_cid@, length, pn_len);
    let mut header: Vec<u8> = Vec::new();
    put_long_front(&mut header, space, version, dst_cid, src_cid, length, pn_len);
    assert(header@ =~= packet::long_front(m));
    let pn_offset: usize = header.len();
    put_pn(&mut header, pn, pn_len);
    let ghost hdr = header@;
    proof {
        wire::lemma_be_bytes_len(pn as nat, pn_len as nat);
        assert(hdr == packet::long_front(m) + wire::be_bytes(pn as nat, pn_len as nat));
    }
    match seal_packet(keys, pn, header, pn_offset, payload) {
        Ok(v) => {
            proof {
                lemma_long_packet_opens(
                    material,
                    space,
                    version,
                    dst_cid@,
                    src_cid@,
                    plain,
                    pn,
                    pn_len,
                );
            }
            Ok(v)
        },
        Err(_) => Err(ConnectionError::Transport(TransportError::InternalError)),
    }
}

/// Protect a payload in a short header packet.
#[verifier::rlimit(40)]
pub(crate) fn encrypt_short(
    keys: &DirectionalKeys,
    dst_cid: &[u8],
    payload: Vec<u8>,
    pn: u64,
    pn_len: usize,
    key_phase: bool,
) -> (r: Result<Vec<u8>, ConnectionError>)
    requires
        1 <= pn_len <= 4,
        4 - pn_len + crypto::hp_sample_len(crypto::key_material(keys)) <= payload@.len() + 16,
    ensures
        ({
            let material = crypto::key_material(keys);
            let offset = 1 + dst_cid@.len();
            match short_packet(material, dst_cid@, payload@, pn, pn_len, key_phase) {
                None => r == Err::<Vec<u8>, _>(
                    ConnectionError::Transport(TransportError::InternalError),
                ),
                Some(p) => {
                    &&& r matches Ok(v)
                    &&& v@ == p
                    &&& p.len() == offset + pn_len + payload@.len() + 16
                    &&& forall|largest: u64|
                        pn_recoverable(largest, pn, pn_len as int) ==> #[trigger] opens_to(
                            material,
                            p,
                            offset as int,
                            largest,
                            true,
                            pn,
                            payload@,
                        )
                },
            }
        }),
{
    let ghost material = crypto::key_material(keys);
    let ghost plain = payload@;
    let ghost m = short_model(dst_cid@, pn_len, key_phase);
    // Four bytes are encoded as 0.
    let pn_bits: u8 = if pn_len == 4 {
        0
    } else {
        pn_len as u8
    };
    let phase_bit: u8 = if key_phase {
        0x04
    } else {
        0
    };
    let spin_bit: u8 = 0;
    let first: u8 = 0x40u8 | spin_bit | phase_bit | pn_bits;
    let mut header: Vec<u8> = Vec::new();
    header.push(first);
    header.extend_from_slice(dst_cid);
    assert(header@ =~= packet::short_front(m));
    let pn_offset: usize = header.len();
    put_pn(&mut header, pn, pn_len);
    let ghost hdr = header@;
    proof {
        wire::lemma_be_bytes_len(pn as nat, pn_len as nat);
    }
    match seal_packet(keys, pn, header, pn_offset, payload) {
        Ok(v) => {
            proof {
                let sealed = crypto::aead_seal(material, pn, hdr, plain)->Some_0;
                packet::lemma_short_first(spin_bit, phase_bit, pn_bits);
                assert(hdr[0] == first);
                assert(announced_pn_len(hdr[0], true) == pn_len);
                assert(hdr.skip(pn_offset as int) =~= wire::be_bytes(pn as nat, pn_len as nat));
                lemma_unmask(material, hdr, pn_offset as int, sealed, true);
                assert forall|largest: u64|
                    pn_recoverable(largest, pn, pn_len as int) implies #[trigger] opens_to(
                    material,
                    v@,
                    pn_offset as int,
                    largest,
                    true,
                    pn,
                    plain,
                ) by {
                    law_protected_opens(
                        material,
                        pn,
                        hdr,
                        pn_offset as int,
                        sealed,
                        plain,
                        largest,
                        true,
                    );
                }
            }
            Ok(v)
        },
        Err(_) => Err(ConnectionError::Transport(TransportError::InternalError)),
    }
}

// ---------------------------------------------------------------------------
// Payloads
// ---------------------------------------------------------------------------

/// Why a frame cannot be written: its first field that no varint can carry.
pub open spec fn frame_write_error(m: FrameModel) -> Option<FrameError> {
    let fields = frame::frame_fields(m);
    let k = frame::sound_prefix(fields) as int;
    if k < fields.len() {
        Some(FrameError::VarInt(varint::VarIntError::ValueTooLarge { value: fields[k] }))
    } else {
        None
    }
}

/// The bytes of a list of frames, or the first error in writing one.
pub open spec fn frames_bytes(ms: Seq<FrameModel>) -> Result<Seq<u8>, FrameError>
    decreases ms.len(),
{
    if ms.len() == 0 {
        Ok(Seq::empty())
    } else {
        match frames_bytes(ms.drop_last()) {
            Err(e) => Err(e),
            Ok(b) => match frame_write_error(ms.last()) {
                Some(e) => Err(e),
                None => Ok(b + frame::frame_bytes(ms.last())),
            },
        }
    }
}

/// Whether every ACK frame of a list has a range.
pub open spec fn acks_have_ranges(frames: Seq<Frame>) -> bool {
    forall|i: int|
        0 <= i < frames.len() ==> (#[trigger] frames[i] matches Frame::Ack { ranges, .. }
            ==> ranges@.len() > 0)
}

/// An error anywhere in a list is the error of the list.
proof fn lemma_frames_bytes_error(ms: Seq<FrameModel>, k: int)
    requires
        0 <= k <= ms.len(),
        frames_bytes(ms.take(k)) is Err,
    ensures
        frames_bytes(ms) == frames_bytes(ms.take(k)),
    decreases ms.len() - k,
{
    if k == ms.len() {
        assert(ms.take(k) =~= ms);
    } else {
        assert(ms.take(k + 1).drop_last() =~= ms.take(k));
        lemma_frames_bytes_error(ms, k + 1);
    }
}

/// Write a list of frames, one after the other.
pub fn write_frames(frames: &Vec<Frame>) -> (r: Result<Vec<u8>, FrameError>)
    requires
        acks_have_ranges(frames@),
    ensures
        match frames_bytes(frame_models(frames@)) {
            Err(e) => r == Err::<Vec<u8>, _>(e),
            Ok(b) => r matches Ok(v) && v@ == b,
        },
{
    let ghost ms = frame_models(frames@);
    let mut buf: Vec<u8> = Vec::new();
    let mut i: usize = 0;
    assert(ms.take(0) =~= Seq::<FrameModel>::empty());
    while i < frames.len()
        invariant
            i <= frames@.len(),
            ms == frame_models(frames@),
            acks_have_ranges(frames@),
            frames_bytes(ms.take(i as int)) == Ok::<_, FrameError>(buf@),
        decreases frames@.len() - i,
    {
        proof {
            assert(ms.take(i + 1).drop_last() =~= ms.take(i as int));
            assert(ms.take(i + 1).last() == frames@[i as int]@);
        }
        match frame::write_frame(&frames[i], &mut buf) {
            Ok(_) => {},
            Err(e) => {
                proof {
                    lemma_frames_bytes_error(ms, i + 1);
                }
                return Err(e);
            },
        }
        i += 1;
    }
    assert(ms.take(i as int) =~= ms);
    Ok(buf)
}

/// `body`, followed by as many zero bytes as it takes to make it `target` long.
/// A zero byte is a PADDING frame.
pub open spec fn padded(body: Seq<u8>, target: int) -> Seq<u8> {
    if body.len() < target {
        body + packet::zeros((target - body.len()) as nat)
    } else {
        body
    }
}

/// Appends zero bytes up to a length of `target`.
pub(crate) fn pad_to(buf: &mut Vec<u8>, target: usize)
    ensures
        final(buf)@ == padded(old(buf)@, target as int),
{
    let ghost body = buf@;
    assert(body + packet::zeros(0) =~= body);
    while buf.len() < target
        invariant
            body.len() <= buf@.len(),
            body.len() <= target ==> buf@.len() <= target,
            body.len() > target ==> buf@ == body,
            buf@ == body + packet::zeros((buf@.len() - body.len()) as nat),
        decreases target - buf@.len(),
    {
        let ghost n = buf@.len() - body.len();
        buf.push(0x00);
        assert(buf@ =~= body + packet::zeros((n + 1) as nat));
    }
}

/// The smallest UDP payload for a client's Initial packets.
pub const MIN_INITIAL_SIZE: usize = 1200;

/// The size of a long header without its packet number, for a token of no
/// bytes and the given value of the length field.
pub open spec fn long_size(dst_cid_len: nat, src_cid_len: nat, length: u64) -> int {
    8int + dst_cid_len + src_cid_len + varint::varint_len(length)
}

/// Estimate of a long header's size, without its packet number.
pub fn hdr_size_long(
    dst_cid_len: usize,
    src_cid_len: usize,
    _token_len: usize,
    length: usize,
) -> (n: usize)
    ensures
        n == capped(long_size(dst_cid_len as nat, src_cid_len as nat, length as u64)),
{
    let length_varint_size: usize = varint::encoded_len(length as VarInt);
    // Form and type, version, two ID lengths and the token length.
    let fixed: usize = 1 + 4 + 1 + 1 + 1;
    fixed.saturating_add(dst_cid_len).saturating_add(src_cid_len).saturating_add(
        length_varint_size,
    )
}

/// How long a payload must be for its packet to reach [`MIN_INITIAL_SIZE`], by
/// the estimate of the header that it has without padding.
pub open spec fn min_initial_payload(
    material: Seq<u8>,
    dst_cid_len: nat,
    src_cid_len: nat,
    body_len: nat,
    pn_len: usize,
) -> int {
    let tag = crypto::aead_tag_len(material);
    let estimate = capped(
        long_size(dst_cid_len, src_cid_len, capped(body_len + pn_len + tag) as u64),
    );
    let overhead = capped(estimate + tag);
    if overhead < MIN_INITIAL_SIZE {
        MIN_INITIAL_SIZE - overhead
    } else {
        0
    }
}

/// The payload of a packet: its frames, padded to the minimum size in Initial
/// packets, and to what header protection has to sample in all.
pub open spec fn packet_payload(
    material: Seq<u8>,
    space: PacketNumberSpace,
    dst_cid_len: nat,
    src_cid_len: nat,
    body: Seq<u8>,
    pn_len: usize,
) -> Seq<u8> {
    let sized = if space is Initial {
        padded(body, min_initial_payload(material, dst_cid_len, src_cid_len, body.len(), pn_len))
    } else {
        body
    };
    padded(sized, capped(crypto::hp_sample_len(material) + 4) - pn_len)
}

/// Appends the padding that an Initial packet needs.
fn pad_initial(
    keys: &DirectionalKeys,
    buf: &mut Vec<u8>,
    dst_cid_len: usize,
    src_cid_len: usize,
    pn_len: usize,
)
    ensures
        final(buf)@ == padded(
            old(buf)@,
            min_initial_payload(
                crypto::key_material(keys),
                dst_cid_len as nat,
                src_cid_len as nat,
                old(buf)@.len(),
                pn_len,
            ),
        ),
{
    let tag_len: usize = crypto::tag_len(keys);
    let length: usize = buf.len().saturating_add(pn_len).saturating_add(tag_len);
    let estimate: usize = hdr_size_long(dst_cid_len, src_cid_len, 0, length);
    let needed: usize = MIN_INITIAL_SIZE.saturating_sub(estimate.saturating_add(tag_len));
    pad_to(buf, needed);
}

/// The packet that carries `frames`, or the error in making it. Application
/// data has a short header once the handshake is done; everything else has a
/// long one.
pub open spec fn packet_for(
    keys: Option<Keys>,
    space: PacketNumberSpace,
    version: u32,
    dst_cid: Seq<u8>,
    src_cid: Seq<u8>,
    frames: Seq<FrameModel>,
    pn: u64,
    pn_len: usize,
    established: bool,
) -> Result<Seq<u8>, ConnectionError> {
    let internal = ConnectionError::Transport(TransportError::InternalError);
    match keys {
        None => Err(internal),
        Some(k) => {
            let material = crypto::key_material(&k.local);
            match frames_bytes(frames) {
                Err(e) => Err(ConnectionError::Frame(e)),
                Ok(body) => {
                    let payload = packet_payload(
                        material,
                        space,
                        dst_cid.len(),
                        src_cid.len(),
                        body,
                        pn_len,
                    );
                    let made = if is_long_packet(space, established) {
                        long_packet(
                            material,
                            space,
                            version,
                            dst_cid,
                            src_cid,
                            payload,
                            pn,
                            pn_len,
                        )
                    } else {
                        short_packet(material, dst_cid, payload, pn, pn_len, false)
                    };
                    match made {
                        Some(p) => Ok(p),
                        None => Err(internal),
                    }
                },
            }
        },
    }
}

/// Whether packets of a space have long headers.
pub open spec fn is_long_packet(space: PacketNumberSpace, established: bool) -> bool {
    !(space is ApplicationData) || !established
}

/// Whether a packet that [`packet_for`] made has its full length, and opens, at
/// a receiver with the same material that recovers its packet number, to that
/// number and its payload.
pub open spec fn packet_opens(
    material: Seq<u8>,
    space: PacketNumberSpace,
    version: u32,
    dst_cid: Seq<u8>,
    src_cid: Seq<u8>,
    payload: Seq<u8>,
    pn: u64,
    pn_len: usize,
    established: bool,
    p: Seq<u8>,
) -> bool {
    if is_long_packet(space, established) {
        let offset = long_packet_pn_offset(
            material,
            space,
            version,
            dst_cid,
            src_cid,
            payload.len(),
            pn_len,
        );
        &&& p.len() == offset + pn_len + payload.len() + 16
        &&& forall|largest: u64|
            pn_recoverable(largest, pn, pn_len as int) ==> #[trigger] opens_to(
                material,
                p,
                offset,
                largest,
                false,
                pn,
                payload,
            )
    } else {
        let offset = 1 + dst_cid.len() as int;
        &&& p.len() == offset + pn_len + payload.len() + 16
        &&& forall|largest: u64|
            pn_recoverable(largest, pn, pn_len as int) ==> #[trigger] opens_to(
                material,
                p,
                offset,
                largest,
                true,
                pn,
                payload,
            )
    }
}

/// Encrypt a packet with AEAD and header protection.
#[verifier::rlimit(40)]
pub(crate) fn encrypt_packet(
    space: &Space,
    pn_space: PacketNumberSpace,
    version: u32,
    dst_cid: &[u8],
    src_cid: &[u8],
    frames: &Vec<Frame>,
    pn: u64,
    pn_len: usize,
    is_established: bool,
) -> (r: Result<Vec<u8>, ConnectionError>)
    requires
        1 <= pn_len <= 4,
        acks_have_ranges(frames@),
    ensures
        match packet_for(
            space@.keys,
            pn_space,
            version,
            dst_cid@,
            src_cid@,
            frame_models(frames@),
            pn,
            pn_len,
            is_established,
        ) {
            Err(e) => r == Err::<Vec<u8>, _>(e),
            Ok(p) => {
                let material = crypto::key_material(&space@.keys->Some_0.local);
                let body = frames_bytes(frame_models(frames@))->Ok_0;
                let payload = packet_payload(
                    material,
                    pn_space,
                    dst_cid@.len(),
                    src_cid@.len(),
                    body,
                    pn_len,
                );
                &&& r matches Ok(v)
                &&& v@ == p
                &&& packet_opens(
                    material,
                    pn_space,
                    version,
                    dst_cid@,
                    src_cid@,
                    payload,
                    pn,
                    pn_len,
                    is_established,
                    p,
                )
                &&& pn_space is Initial && crypto::aead_tag_len(material) <= 16 ==> p.len()
                    >= MIN_INITIAL_SIZE
            },
        },
{
    let keys = match space.local_keys() {
        Some(k) => k,
        None => {
            return Err(ConnectionError::Transport(TransportError::InternalError));
        },
    };
    let ghost material = crypto::key_material(keys);
    let is_long: bool = pn_space != PacketNumberSpace::ApplicationData || !is_established;
    let mut payload = match write_frames(frames) {
        Ok(b) => b,
        Err(e) => {
            return Err(ConnectionError::Frame(e));
        },
    };
    let ghost body = payload@;
    // Pad Initial packets to the minimum size.
    if pn_space == PacketNumberSpace::Initial {
        pad_initial(keys, &mut payload, dst_cid.len(), src_cid.len(), pn_len);
    }
    // Leave header protection enough to sample.
    let hp_min: usize = crypto::sample_len(keys).saturating_add(4) - pn_len;
    pad_to(&mut payload, hp_min);
    proof {
        assert(payload@ == packet_payload(
            material,
            pn_space,
            dst_cid@.len(),
            src_cid@.len(),
            body,
            pn_len,
        ));
        if pn_space is Initial {
            lemma_initial_size(
                material,
                version,
                dst_cid@,
                src_cid@,
                body.len(),
                payload@.len(),
                pn_len,
            );
        }
    }
    if is_long {
        encrypt_long(keys, pn_space, version, dst_cid, src_cid, payload, pn, pn_len)
    } else {
        encrypt_short(keys, dst_cid, payload, pn, pn_len, false)
    }
}

/// The size of a long header.
pub proof fn lemma_long_front_len(
    space: PacketNumberSpace,
    version: u32,
    dst_cid: Seq<u8>,
    src_cid: Seq<u8>,
    length: u64,
    pn_len: usize,
)
    ensures
        packet::long_front(long_model(space, version, dst_cid, src_cid, length, pn_len)).len()
            == long_size(dst_cid.len(), src_cid.len(), length) - if space is Initial {
            0int
        } else {
            1
        },
{
    wire::lemma_be_bytes_len(version as nat, 4);
    varint::lemma_varint_bytes_len(length);
    varint::lemma_varint_bytes_len(0);
}

/// A payload that was padded by the estimate makes a packet of the minimum
/// size: the real header is no smaller.
proof fn lemma_initial_size(
    material: Seq<u8>,
    version: u32,
    dst_cid: Seq<u8>,
    src_cid: Seq<u8>,
    body_len: nat,
    payload_len: nat,
    pn_len: usize,
)
    requires
        body_len <= payload_len,
        min_initial_payload(material, dst_cid.len(), src_cid.len(), body_len, pn_len)
            <= payload_len,
    ensures
        crypto::aead_tag_len(material) <= 16 ==> MIN_INITIAL_SIZE <= long_packet_pn_offset(
            material,
            PacketNumberSpace::Initial,
            version,
            dst_cid,
            src_cid,
            payload_len,
            pn_len,
        ) + pn_len + payload_len + 16,
{
    let length = length_value(material, payload_len, pn_len);
    lemma_long_front_len(PacketNumberSpace::Initial, version, dst_cid, src_cid, length, pn_len);
}

// ---------------------------------------------------------------------------
// The client's first packet
// ---------------------------------------------------------------------------

/// The payload of a client's first packet: its ClientHello in a CRYPTO frame,
/// padded to the minimum size.
pub open spec fn hello_payload(
    material: Seq<u8>,
    dst_cid_len: nat,
    src_cid_len: nat,
    hello: Seq<u8>,
) -> Seq<u8> {
    let body = frame::frame_bytes(FrameModel::Crypto { offset: 0, data: hello });
    padded(body, min_initial_payload(material, dst_cid_len, src_cid_len, body.len(), 1))
}

/// A client's first packet, or the error in making it.
pub open spec fn hello_packet(
    material: Seq<u8>,
    dst_cid: Seq<u8>,
    src_cid: Seq<u8>,
    hello: Seq<u8>,
) -> Result<Seq<u8>, ConnectionError> {
    match frame_write_error(FrameModel::Crypto { offset: 0, data: hello }) {
        Some(e) => Err(ConnectionError::Frame(e)),
        None => match long_packet(
            material,
            PacketNumberSpace::Initial,
            packet::VERSION_1,
            dst_cid,
            src_cid,
            hello_payload(material, dst_cid.len(), src_cid.len(), hello),
            0,
            1,
        ) {
            Some(p) => Ok(p),
            None => Err(ConnectionError::Transport(TransportError::InternalError)),
        },
    }
}

/// Build the client's first Initial packet, with packet number 0.
#[verifier::rlimit(40)]
pub(crate) fn build_initial_packet(
    keys: &Keys,
    dst_cid: &[u8],
    src_cid: &[u8],
    client_hello: &[u8],
) -> (r: Result<Vec<u8>, ConnectionError>)
    requires
        crypto::hp_sample_len(crypto::key_material(&keys.local)) <= 16,
    ensures
        match hello_packet(
            crypto::key_material(&keys.local),
            dst_cid@,
            src_cid@,
            client_hello@,
        ) {
            Err(e) => r == Err::<Vec<u8>, _>(e),
            Ok(p) => {
                let material = crypto::key_material(&keys.local);
                let payload = hello_payload(
                    material,
                    dst_cid@.len(),
                    src_cid@.len(),
                    client_hello@,
                );
                &&& r matches Ok(v)
                &&& v@ == p
                &&& packet_opens(
                    material,
                    PacketNumberSpace::Initial,
                    packet::VERSION_1,
                    dst_cid@,
                    src_cid@,
                    payload,
                    0,
                    1,
                    false,
                    p,
                )
                &&& crypto::aead_tag_len(material) <= 16 ==> p.len() >= MIN_INITIAL_SIZE
            },
        },
{
    let ghost material = crypto::key_material(&keys.local);
    let crypto_frame = Frame::Crypto { offset: 0, data: Bytes::copy_from_slice(client_hello) };
    let ghost m = FrameModel::Crypto { offset: 0, data: client_hello@ };
    assert(crypto_frame@ == m);
    let mut payload: Vec<u8> = Vec::new();
    match frame::write_frame(&crypto_frame, &mut payload) {
        Ok(_) => {},
        Err(e) => {
            return Err(ConnectionError::Frame(e));
        },
    }
    assert(payload@ =~= frame::frame_bytes(m));
    let ghost body = payload@;
    pad_initial(&keys.local, &mut payload, dst_cid.len(), src_cid.len(), 1);
    proof {
        lemma_crypto_frame_len(0, client_hello@);
        lemma_initial_size(
            material,
            packet::VERSION_1,
            dst_cid@,
            src_cid@,
            body.len(),
            payload@.len(),
            1,
        );
    }
    encrypt_long(
        &keys.local,
        PacketNumberSpace::Initial,
        packet::VERSION_1,
        dst_cid,
        src_cid,
        payload,
        0,
        1,
    )
}

/// A CRYPTO frame takes at least three bytes.
pub proof fn lemma_crypto_frame_len(offset: u64, data: Seq<u8>)
    ensures
        frame::frame_bytes(FrameModel::Crypto { offset, data }).len() >= 3,
{
    let n = data.len() as u64;
    let fields = seq![offset, n];
    varint::lemma_varint_bytes_len(offset);
    varint::lemma_varint_bytes_len(n);
    assert(fields.skip(1) =~= seq![n]);
    assert(seq![n].skip(1) =~= Seq::<u64>::empty());
    reveal_with_fuel(frame::fields_bytes, 3);
}

// ---------------------------------------------------------------------------
// Receiving
// ---------------------------------------------------------------------------

/// Where the packet number of a parsed long header starts, taking the token
/// of an Initial packet to be empty and the length to be minimally encoded.
pub open spec fn long_pn_offset(m: LongModel) -> int {
    7 + m.dst_cid.len() + m.src_cid.len() + (if m.ty is Initial {
        1int
    } else {
        0
    }) + match m.length {
        Some(l) => varint::varint_len(l) as int,
        None => 0,
    }
}

/// Offset of the packet number in a long header packet.
pub fn hdr_pn_offset_long(hdr: &LongHeader) -> (n: usize)
    requires
        hdr@.dst_cid.len() + hdr@.src_cid.len() + 16 <= usize::MAX,
    ensures
        n == long_pn_offset(hdr@),
{
    let prefix: usize = 1 + 4 + 1 + hdr.dst_cid.0.len() + 1 + hdr.src_cid.0.len();
    let token_len_size: usize = if hdr.ty == LongType::Initial {
        // A token length of 0 takes one byte.
        1
    } else {
        0
    };
    let length_field_size: usize = match hdr.length {
        Some(l) => varint::encoded_len(l),
        None => 0,
    };
    prefix + token_len_size + length_field_size
}

/// Offset of the packet number in a short header packet.
pub fn hdr_pn_offset_short(dst_cid: &ConnectionId) -> (n: usize)
    requires
        dst_cid@.len() < usize::MAX,
    ensures
        n == 1 + dst_cid@.len(),
{
    1 + dst_cid.0.len()
}

/// What a long header packet opens to: its packet number and frames. Its
/// packet number is taken as if none had been received before.
pub open spec fn opened_long(material: Seq<u8>, packet: Seq<u8>, pn_offset: int) -> Result<
    (u64, Seq<FrameModel>),
    ConnectionError,
> {
    let needed = pn_offset + 4 + crypto::hp_sample_len(material);
    if packet.len() < needed {
        Err(ConnectionError::Packet(packet::too_short(packet, needed)))
    } else {
        match opened(material, packet, pn_offset, 0, false) {
            Some(r) => r,
            // A field of up to four bytes is always in range.
            None => Err(ConnectionError::Transport(TransportError::InternalError)),
        }
    }
}

/// Open a long header packet whose packet number starts at `pn_offset`.
pub(crate) fn decrypt_and_parse_long_inner(
    packet: &[u8],
    pn_offset: usize,
    remote_keys: &DirectionalKeys,
) -> (r: Result<(u64, Vec<Frame>), ConnectionError>)
    requires
        1 <= pn_offset,
    ensures
        match opened_long(crypto::key_material(remote_keys), packet@, pn_offset as int) {
            Err(e) => r == Err::<(u64, Vec<Frame>), _>(e),
            Ok((pn, ms)) => r matches Ok((n, fs)) && n == pn && frame_models(fs@) == ms,
        },
{
    let sample_len: usize = crypto::sample_len(remote_keys);
    let packet_len: usize = packet.len();
    if packet_len < 4 || pn_offset > packet_len - 4 || packet_len - 4 - pn_offset < sample_len {
        let needed: usize = pn_offset.saturating_add(4).saturating_add(sample_len);
        return Err(
            ConnectionError::Packet(PacketError::BufferTooShort { needed, actual: packet_len }),
        );
    }
    match open_packet(remote_keys, packet, pn_offset, 0, false) {
        Some(r) => r,
        None => Err(ConnectionError::Transport(TransportError::InternalError)),
    }
}

/// Decrypt an Initial packet using the given keys. Returns parsed frames and
/// packet number.
pub fn decrypt_initial(packet: &[u8], hdr: &LongHeader, keys: &Keys) -> (r: Result<
    (Vec<Frame>, u64),
    ConnectionError,
>)
    requires
        hdr@.dst_cid.len() + hdr@.src_cid.len() + 16 <= usize::MAX,
    ensures
        match opened_long(
            crypto::key_material(&keys.remote),
            packet@,
            long_pn_offset(hdr@),
        ) {
            Err(e) => r == Err::<(Vec<Frame>, u64), _>(e),
            Ok((pn, ms)) => r matches Ok((fs, n)) && n == pn && frame_models(fs@) == ms,
        },
{
    let pn_offset: usize = hdr_pn_offset_long(hdr);
    match decrypt_and_parse_long_inner(packet, pn_offset, &keys.remote) {
        Ok((pn, frames)) => Ok((frames, pn)),
        Err(e) => Err(e),
    }
}

/// What a space makes of a long header packet.
pub open spec fn received_long(keys: Option<Keys>, packet: Seq<u8>, pn_offset: int) -> Result<
    (u64, Seq<FrameModel>),
    ConnectionError,
> {
    match keys {
        None => Err(ConnectionError::Transport(TransportError::InternalError)),
        Some(k) => opened_long(crypto::key_material(&k.remote), packet, pn_offset),
    }
}

/// Decrypt and parse any long header packet.
pub(crate) fn decrypt_and_parse_long(space: &Space, packet: &[u8], pn_offset: usize) -> (r: Result<
    (u64, Vec<Frame>),
    ConnectionError,
>)
    requires
        1 <= pn_offset,
    ensures
        match received_long(space@.keys, packet@, pn_offset as int) {
            Err(e) => r == Err::<(u64, Vec<Frame>), _>(e),
            Ok((pn, ms)) => r matches Ok((n, fs)) && n == pn && frame_models(fs@) == ms,
        },
{
    match space.remote_keys() {
        Some(remote) => decrypt_and_parse_long_inner(packet, pn_offset, remote),
        None => Err(ConnectionError::Transport(TransportError::InternalError)),
    }
}

/// What a space makes of a short header packet. `None` where its packet number
/// leaves 64 bits.
pub open spec fn received_short(
    keys: Option<Keys>,
    largest: u64,
    packet: Seq<u8>,
    pn_offset: int,
) -> Option<Result<(u64, Seq<FrameModel>), ConnectionError>> {
    match keys {
        None => Some(Err(ConnectionError::Transport(TransportError::InternalError))),
        Some(k) => {
            let material = crypto::key_material(&k.remote);
            let needed = pn_offset + 4 + crypto::hp_sample_len(material);
            if packet.len() < needed {
                Some(Err(ConnectionError::Packet(packet::too_short(packet, needed))))
            } else {
                opened(material, packet, pn_offset, largest, true)
            }
        },
    }
}

/// Decrypt and parse a short header packet.
pub(crate) fn decrypt_and_parse(space: &Space, packet: &[u8], pn_offset: usize) -> (r: Option<
    Result<(u64, Vec<Frame>), ConnectionError>,
>)
    requires
        1 <= pn_offset,
    ensures
        match received_short(
            space@.keys,
            space@.largest_recv_pn,
            packet@,
            pn_offset as int,
        ) {
            None => r is None,
            Some(Err(e)) => r == Some(Err::<(u64, Vec<Frame>), _>(e)),
            Some(Ok((pn, ms))) => r matches Some(Ok((n, fs))) && n == pn && frame_models(fs@)
                == ms,
        },
{
    let remote = match space.remote_keys() {
        Some(k) => k,
        None => {
            return Some(Err(ConnectionError::Transport(TransportError::InternalError)));
        },
    };
    let sample_len: usize = crypto::sample_len(remote);
    let packet_len: usize = packet.len();
    if packet_len < 4 || pn_offset > packet_len - 4 || packet_len - 4 - pn_offset < sample_len {
        let needed: usize = pn_offset.saturating_add(4).saturating_add(sample_len);
        return Some(
            Err(
                ConnectionError::Packet(
                    PacketError::BufferTooShort { needed, actual: packet_len },
                ),
            ),
        );
    }
    open_packet(remote, packet, pn_offset, space.largest_recv_pn(), true)
}

// ---------------------------------------------------------------------------
// What the receiver reads of what was sent
// ---------------------------------------------------------------------------

/// A frame that can be read back whatever follows it.
pub open spec fn frame_delimited(m: FrameModel) -> bool {
    &&& frame::frame_writable(m)
    &&& m matches FrameModel::Stream { data, .. } ==> data.len() > 0
}

/// `n` PADDING frames.
pub open spec fn paddings(n: nat) -> Seq<FrameModel> {
    Seq::new(n, |i: int| FrameModel::Padding)
}

#[verifier::rlimit(60)]
#[verifier::spinoff_prover]
proof fn lemma_frames_in_step(m: FrameModel, rest: Seq<u8>)
    requires
        frame_delimited(m),
    ensures
        frames_in(frame::frame_bytes(m) + rest) == match frames_in(rest) {
            Ok(more) => Ok::<_, FrameError>(seq![m] + more),
            Err(e) => Err(e),
        },
{
    frame::law_frame_round_trip(m, rest);
    frame::law_frame_progress(frame::frame_bytes(m) + rest);
}

proof fn lemma_frames_in_zeros(n: nat)
    ensures
        frames_in(packet::zeros(n)) == Ok::<_, FrameError>(paddings(n)),
    decreases n,
{
    if n == 0 {
        assert(paddings(0) =~= Seq::<FrameModel>::empty());
    } else {
        lemma_frames_in_zeros((n - 1) as nat);
        let m = FrameModel::Padding;
        assert(frame::frame_bytes(m) =~= seq![0u8]);
        assert(packet::zeros(n) =~= frame::frame_bytes(m) + packet::zeros((n - 1) as nat));
        lemma_frames_in_step(m, packet::zeros((n - 1) as nat));
        assert(seq![m] + paddings((n - 1) as nat) =~= paddings(n));
    }
}

#[verifier::rlimit(60)]
#[verifier::spinoff_prover]
proof fn lemma_frames_in_prefix(ms: Seq<FrameModel>, rest: Seq<u8>)
    requires
        frames_bytes(ms) is Ok,
        forall|i: int| 0 <= i < ms.len() ==> frame_delimited(#[trigger] ms[i]),
    ensures
        frames_in(frames_bytes(ms)->Ok_0 + rest) == match frames_in(rest) {
            Ok(more) => Ok::<_, FrameError>(ms + more),
            Err(e) => Err(e),
        },
    decreases ms.len(),
{
    if ms.len() == 0 {
        assert(frames_bytes(ms)->Ok_0 + rest =~= rest);
        if let Ok(more) = frames_in(rest) {
            assert(ms + more =~= more);
        }
    } else {
        let before = ms.drop_last();
        let last = ms.last();
        let b = frames_bytes(before)->Ok_0;
        let f = frame::frame_bytes(last);
        lemma_frames_in_prefix(before, f + rest);
        lemma_frames_in_step(last, rest);
        assert(frames_bytes(ms)->Ok_0 + rest =~= b + (f + rest));
        if let Ok(more) = frames_in(rest) {
            assert(before + (seq![last] + more) =~= ms + more);
        }
    }
}

/// Law: written frames and their padding parse to those frames and PADDING.
pub proof fn law_payload_round_trip(ms: Seq<FrameModel>, target: int)
    requires
        frames_bytes(ms) is Ok,
        forall|i: int| 0 <= i < ms.len() ==> frame_delimited(#[trigger] ms[i]),
    ensures
        ({
            let payload = padded(frames_bytes(ms)->Ok_0, target);
            frames_in(payload) == Ok::<_, FrameError>(
                ms + paddings((payload.len() - frames_bytes(ms)->Ok_0.len()) as nat),
            )
        }),
{
    let b = frames_bytes(ms)->Ok_0;
    let n = if b.len() < target {
        (target - b.len()) as nat
    } else {
        0
    };
    assert(padded(b, target) =~= b + packet::zeros(n));
    lemma_frames_in_zeros(n);
    lemma_frames_in_prefix(ms, packet::zeros(n));
}

/// Law: the receiver of a long header packet, who reads its header with the
/// mask still on, finds the sender's type, version, connection IDs, token and
/// length, and with them where the packet number starts.
#[verifier::rlimit(60)]
pub proof fn law_protected_long_header(
    material: Seq<u8>,
    space: PacketNumberSpace,
    version: u32,
    dst_cid: Seq<u8>,
    src_cid: Seq<u8>,
    length: u64,
    pn: u64,
    pn_len: usize,
    sealed: Seq<u8>,
)
    requires
        version != packet::VERSION_NEGOTIATION,
        dst_cid.len() <= 20,
        src_cid.len() <= 20,
        length <= VARINT_MAX,
        1 <= pn_len <= 4,
        sealed.len() >= 4,
    ensures
        ({
            let m = long_model(space, version, dst_cid, src_cid, length, pn_len);
            let front = packet::long_front(m);
            let header = front + wire::be_bytes(pn as nat, pn_len as nat);
            let p = protected(material, header, front.len() as int, sealed);
            &&& packet::long_header_at(p) matches Ok((h, _))
            &&& h.ty == m.ty
            &&& h.version == version
            &&& h.dst_cid == dst_cid
            &&& h.src_cid == src_cid
            &&& h.token == m.token
            &&& h.length == Some(length)
            &&& long_pn_offset(h) == front.len()
        }),
{
    let m = long_model(space, version, dst_cid, src_cid, length, pn_len);
    let front = packet::long_front(m);
    let field = wire::be_bytes(pn as nat, pn_len as nat);
    wire::lemma_be_bytes_len(pn as nat, pn_len as nat);
    let header = front + field;
    let off = front.len() as int;
    let p = protected(material, header, off, sealed);
    let mask = crypto::hp_mask(material, hp_sample(material, pn_len as int, sealed));
    assert(header.skip(off) =~= field);
    let first = crypto::masked_first(header[0], mask);
    assert(front.len() > 0 && front[0] == packet::long_first(m.ty, m.pn_len));
    packet::lemma_long_first(m.ty, m.pn_len);
    lemma_mask_first_twice(header[0], mask);
    let after = crypto::masked_pn(field, mask, header[0] % 4 + 1) + sealed;
    assert(p =~= seq![first] + front.subrange(1, off) + after);
    lemma_shown_header(m, first, after);
    lemma_long_front_len(space, version, dst_cid, src_cid, length, pn_len);
}

/// What a long header shows while its packet number is masked.
proof fn lemma_shown_header(m: LongModel, first: u8, after: Seq<u8>)
    requires
        m.dst_cid.len() <= 20,
        m.src_cid.len() <= 20,
        m.version != packet::VERSION_NEGOTIATION,
        m.ty == LongType::Initial || m.ty == LongType::ZeroRtt || m.ty == LongType::Handshake,
        m.token == if m.ty == LongType::Initial {
            Some(Seq::<u8>::empty())
        } else {
            None
        },
        m.length matches Some(l) && l <= VARINT_MAX,
        first >= 0xc0,
        first / 16 % 4 == packet::long_type_bits(m.ty),
        after.len() >= 4,
    ensures
        ({
            let front = packet::long_front(m);
            let p = seq![first] + front.subrange(1, front.len() as int) + after;
            &&& packet::long_header_at(p) matches Ok((h, _))
            &&& h.ty == m.ty
            &&& h.version == m.version
            &&& h.dst_cid == m.dst_cid
            &&& h.src_cid == m.src_cid
            &&& h.token == m.token
            &&& h.length == m.length
        }),
{
    let front = packet::long_front(m);
    let p = seq![first] + front.subrange(1, front.len() as int) + after;
    let n = (first % 4 + 1) as u8;
    let shown = after.take(n as int);
    let rest = after.skip(n as int);
    let m2 = LongModel {
        pn_len: Some(n),
        truncated_pn: Some(wire::be_value(shown) as u32),
        ..m
    };
    let s2 = packet::long_front(m2) + packet::pn_bytes(m2) + rest;
    assert(packet::pn_bytes(m2) == shown && wire::be_value(shown) < wire::radix(n as nat)
        && wire::be_value(shown) <= u32::MAX) by {
        wire::lemma_be_bytes_of_value(shown);
        wire::lemma_radix_values();
        assert(n == 1 || n == 2 || n == 3 || n == 4);
    }
    lemma_same_front(m, m2);
    packet::lemma_long_first(m2.ty, m2.pn_len);
    let first2 = packet::long_first(m2.ty, m2.pn_len);
    assert(s2.len() > 0 && s2[0] == first2);
    assert(first2 / 16 == first / 16 && first2 % 4 == first % 4);
    assert(s2.update(0, first) == p) by {
        assert(shown + rest =~= after);
        assert(s2.update(0, first) =~= p);
    }
    assert(packet::long_writable(m2));
    packet::law_long_header_round_trip(m2, rest);
    packet::lemma_first_byte_bits(s2, first);
}

/// Headers that differ in their packet numbers alone differ in their first
/// bytes alone, up to the packet number.
proof fn lemma_same_front(a: LongModel, b: LongModel)
    requires
        a.ty == b.ty,
        a.version == b.version,
        a.dst_cid == b.dst_cid,
        a.src_cid == b.src_cid,
        a.token == b.token,
        a.length == b.length,
    ensures
        packet::long_front(a).len() == packet::long_front(b).len(),
        packet::long_front(a).len() > 0,
        packet::long_front(b)[0] == packet::long_first(b.ty, b.pn_len),
        packet::long_front(a).subrange(1, packet::long_front(a).len() as int)
            == packet::long_front(b).subrange(1, packet::long_front(b).len() as int),
{
    let n = packet::long_front(a).len() as int;
    assert(packet::long_front(a).subrange(1, n) =~= packet::long_front(b).subrange(1, n));
}

/// Law: a client's first packet, however far it is padded, read by a server
/// that holds the matching material, is an Initial packet with the client's
/// connection IDs, and opens to packet number 0 and a CRYPTO frame with the
/// ClientHello, followed by padding.
pub proof fn law_hello_received(
    material: Seq<u8>,
    dst_cid: Seq<u8>,
    src_cid: Seq<u8>,
    hello: Seq<u8>,
    target: int,
    p: Seq<u8>,
)
    requires
        dst_cid.len() <= 20,
        src_cid.len() <= 20,
        hello.len() <= usize::MAX,
        hello.len() <= VARINT_MAX,
        ({
            let payload = padded(
                frame::frame_bytes(FrameModel::Crypto { offset: 0, data: hello }),
                target,
            );
            &&& long_packet(
                material,
                PacketNumberSpace::Initial,
                packet::VERSION_1,
                dst_cid,
                src_cid,
                payload,
                0,
                1,
            ) == Some(p)
            &&& packet_opens(
                material,
                PacketNumberSpace::Initial,
                packet::VERSION_1,
                dst_cid,
                src_cid,
                payload,
                0,
                1,
                false,
                p,
            )
        }),
        crypto::hp_sample_len(material) <= 16,
    ensures
        ({
            let m = FrameModel::Crypto { offset: 0, data: hello };
            let body = frame::frame_bytes(m);
            &&& packet::long_header_at(p) matches Ok((h, _))
            &&& h.ty == LongType::Initial
            &&& h.version == packet::VERSION_1
            &&& h.dst_cid == dst_cid
            &&& h.src_cid == src_cid
            &&& opened_long(material, p, long_pn_offset(h)) == Ok::<_, ConnectionError>(
                (0u64, seq![m] + paddings((padded(body, target).len() - body.len()) as nat)),
            )
        }),
{
    let m = FrameModel::Crypto { offset: 0, data: hello };
    let body = frame::frame_bytes(m);
    let payload = padded(body, target);
    lemma_crypto_frame_len(0, hello);
    let length = length_value(material, payload.len(), 1);
    let lm = long_model(PacketNumberSpace::Initial, packet::VERSION_1, dst_cid, src_cid, length, 1);
    let front = packet::long_front(lm);
    let header = front + wire::be_bytes(0, 1);
    let sealed = crypto::aead_seal(material, 0, header, payload)->Some_0;
    let off = front.len() as int;
    assert(p == protected(material, header, off, sealed));
    wire::lemma_be_bytes_len(0, 1);
    lemma_long_front_len(
        PacketNumberSpace::Initial,
        packet::VERSION_1,
        dst_cid,
        src_cid,
        length,
        1,
    );
    varint::lemma_varint_bytes_len(length);
    assert(p.len() == header.len() + sealed.len());
    law_protected_long_header(
        material,
        PacketNumberSpace::Initial,
        packet::VERSION_1,
        dst_cid,
        src_cid,
        length,
        0,
        1,
        sealed,
    );
    law_first_packet_recoverable(0);
    assert(pn_recoverable(0, 0, 1));
    assert(off == long_packet_pn_offset(
        material,
        PacketNumberSpace::Initial,
        packet::VERSION_1,
        dst_cid,
        src_cid,
        payload.len(),
        1,
    ));
    assert(opens_to(material, p, off, 0, false, 0, payload));
    // The payload parses to the frame and its padding.
    let ms = seq![m];
    assert(ms.drop_last() =~= Seq::<FrameModel>::empty());
    assert(frames_bytes(ms.drop_last()) == Ok::<_, FrameError>(Seq::<u8>::empty()));
    assert(Seq::<u8>::empty() + body =~= body);
    assert(frame::frame_writable(m));
    frame::law_frame_round_trip(m, Seq::empty());
    assert(frame_write_error(ms.last()) is None);
    law_payload_round_trip(ms, target);
}

// ---------------------------------------------------------------------------
// The layout of a packet
// ---------------------------------------------------------------------------

/// Law: a protected packet is its header, with the first byte and the packet
/// number masked, and the sealed payload. The mask is drawn from the sample of
/// the packet that starts four bytes after the start of the packet number. Its
/// first byte covers the four low bits of a long header's first byte and the
/// five low bits of a short one's, the other four bytes the packet number, as
/// far as the two low bits of the first byte say.
pub proof fn law_protected_layout(
    material: Seq<u8>,
    header: Seq<u8>,
    pn_offset: int,
    sealed: Seq<u8>,
)
    requires
        1 <= pn_offset < header.len() <= pn_offset + 4,
        4 - (header.len() - pn_offset) + crypto::hp_sample_len(material) <= sealed.len(),
    ensures
        ({
            let p = protected(material, header, pn_offset, sealed);
            let mask = crypto::hp_mask(
                material,
                p.subrange(pn_offset + 4, pn_offset + 4 + crypto::hp_sample_len(material)),
            );
            &&& p.len() == header.len() + sealed.len()
            &&& p.skip(header.len() as int) == sealed
            &&& p.subrange(1, pn_offset) == header.subrange(1, pn_offset)
            &&& header[0] >= 0x80 ==> p[0] == header[0] ^ (mask[0] & 0x0f)
            &&& header[0] < 0x80 ==> p[0] == header[0] ^ (mask[0] & 0x1f)
            &&& forall|i: int|
                pn_offset <= i < header.len() ==> #[trigger] p[i] == if i - pn_offset <= header[0]
                    % 4 {
                    header[i] ^ mask[1 + i - pn_offset]
                } else {
                    header[i]
                }
        }),
{
    let p = protected(material, header, pn_offset, sealed);
    let n = crypto::hp_sample_len(material) as int;
    let pn_len = header.len() - pn_offset;
    assert(p.subrange(pn_offset + 4, pn_offset + 4 + n) =~= hp_sample(material, pn_len, sealed));
    assert(p.skip(header.len() as int) =~= sealed);
    assert(p.subrange(1, pn_offset) =~= header.subrange(1, pn_offset));
    let mask = crypto::hp_mask(material, hp_sample(material, pn_len, sealed));
    let masked = crypto::masked_pn(header.skip(pn_offset), mask, header[0] % 4 + 1);
    assert forall|i: int| pn_offset <= i < header.len() implies #[trigger] p[i] == if i - pn_offset
        <= header[0] % 4 {
        header[i] ^ mask[1 + i - pn_offset]
    } else {
        header[i]
    } by {
        assert(p[i] == masked[i - pn_offset]);
    }
}

/// Law: what opens was protected. A packet that opens to a packet number and
/// frames is the protected packet of some header, with no reserved bit set in a
/// short one, whose last bytes are the low-order bytes of the packet number, and
/// of a sealed payload, which opens under that packet number and header to a
/// payload of these frames.
pub proof fn law_opened_was_protected(
    material: Seq<u8>,
    packet: Seq<u8>,
    pn_offset: int,
    largest: u64,
    short: bool,
) -> (r: (Seq<u8>, Seq<u8>, Seq<u8>))
    requires
        1 <= pn_offset,
        pn_offset + 4 + crypto::hp_sample_len(material) <= packet.len(),
        opened(material, packet, pn_offset, largest, short) matches Some(Ok(_)),
    ensures
        ({
            let (header, sealed, payload) = r;
            let field = header.skip(pn_offset);
            let (pn, fs) = opened(material, packet, pn_offset, largest, short)->Some_0->Ok_0;
            &&& pn_offset < header.len() <= pn_offset + 4
            &&& packet == protected(material, header, pn_offset, sealed)
            &&& crypto::aead_open(material, pn, header, sealed) == Some(payload)
            &&& frames_in(payload) == Ok::<_, FrameError>(fs)
            &&& !short ==> field.len() == header[0] % 4 + 1
            &&& short ==> field.len() % 4 == header[0] % 4
            &&& short ==> header[0] / 8 % 4 == 0
            &&& pn == packet::full_packet_number(
                largest,
                wire::be_value(field) as u64,
                field.len() as u8,
            ) as u64
        }),
{
    let (first, field) = unmasked(material, packet, pn_offset, short);
    let header = seq![first] + packet.subrange(1, pn_offset) + field;
    let sealed = packet.skip(pn_offset + field.len());
    let (pn, fs) = opened(material, packet, pn_offset, largest, short)->Some_0->Ok_0;
    let payload = crypto::aead_open(material, pn, header, sealed)->Some_0;
    let n = crypto::hp_sample_len(material) as int;
    let sample = packet.subrange(pn_offset + 4, pn_offset + 4 + n);
    let mask = crypto::hp_mask(material, sample);
    assert(header.skip(pn_offset) =~= field);
    assert(hp_sample(material, field.len() as int, sealed) =~= sample);
    lemma_mask_first_twice(packet[0], mask);
    let p = protected(material, header, pn_offset, sealed);
    let masked = crypto::masked_pn(field, mask, first % 4 + 1);
    assert forall|i: int| 0 <= i < field.len() implies #[trigger] masked[i] == packet[pn_offset
        + i] by {
        let a = packet[pn_offset + i];
        let b = mask[1 + i];
        assert((a ^ b) ^ b == a) by (bit_vector);
    }
    assert(p =~= packet);
    (header, sealed, payload)
}

/// Law: a long header packet seals its payload under its own packet number and
/// header. The header is a first byte with the type of its space, the version,
/// the IDs, in an Initial packet a token of no bytes, the length of all that
/// follows, and the packet number.
pub proof fn law_long_packet_layout(
    material: Seq<u8>,
    space: PacketNumberSpace,
    version: u32,
    dst_cid: Seq<u8>,
    src_cid: Seq<u8>,
    payload: Seq<u8>,
    pn: u64,
    pn_len: usize,
) -> (sealed: Seq<u8>)
    requires
        1 <= pn_len <= 4,
        pn_len + payload.len() + crypto::aead_tag_len(material) <= usize::MAX,
        long_packet(material, space, version, dst_cid, src_cid, payload, pn, pn_len) is Some,
    ensures
        ({
            let kind = match space {
                PacketNumberSpace::Initial => 0xc0int,
                PacketNumberSpace::Handshake => 0xe0,
                PacketNumberSpace::ApplicationData => 0xd0,
            };
            let front = packet::ids_layout(
                (kind + pn_len - 1) as u8,
                wire::be_bytes(version as nat, 4),
                dst_cid,
                src_cid,
            ) + (if space is Initial {
                seq![0u8]
            } else {
                Seq::empty()
            }) + varint::varint_bytes(
                (pn_len + payload.len() + crypto::aead_tag_len(material)) as u64,
            );
            let header = front + wire::be_bytes(pn as nat, pn_len as nat);
            &&& crypto::aead_seal(material, pn, header, payload) == Some(sealed)
            &&& long_packet(material, space, version, dst_cid, src_cid, payload, pn, pn_len)
                == Some(protected(material, header, front.len() as int, sealed))
        }),
{
    let length = length_value(material, payload.len(), pn_len);
    let m = long_model(space, version, dst_cid, src_cid, length, pn_len);
    let header = packet::long_front(m) + wire::be_bytes(pn as nat, pn_len as nat);
    packet::law_long_header_written(m);
    reveal_with_fuel(wire::be_bytes, 2);
    assert(varint::varint_bytes(0) + Seq::<u8>::empty() =~= seq![0u8]);
    crypto::aead_seal(material, pn, header, payload)->Some_0
}

/// Law: a short header packet seals its payload under its own packet number and
/// header: a first byte with the length of the packet number and no other bit
/// than the fixed one and the key phase, the destination ID and the packet
/// number.
pub proof fn law_short_packet_layout(
    material: Seq<u8>,
    dst_cid: Seq<u8>,
    payload: Seq<u8>,
    pn: u64,
    pn_len: usize,
    key_phase: bool,
) -> (sealed: Seq<u8>)
    requires
        1 <= pn_len <= 4,
        short_packet(material, dst_cid, payload, pn, pn_len, key_phase) is Some,
    ensures
        ({
            let first = (0x40 + (if key_phase {
                0x04int
            } else {
                0
            }) + pn_len % 4) as u8;
            let front = seq![first] + dst_cid;
            let header = front + wire::be_bytes(pn as nat, pn_len as nat);
            &&& crypto::aead_seal(material, pn, header, payload) == Some(sealed)
            &&& short_packet(material, dst_cid, payload, pn, pn_len, key_phase) == Some(
                protected(material, header, 1 + dst_cid.len() as int, sealed),
            )
        }),
{
    let m = short_model(dst_cid, pn_len, key_phase);
    packet::law_short_header_written(m);
    let header = packet::short_front(m) + wire::be_bytes(pn as nat, pn_len as nat);
    crypto::aead_seal(material, pn, header, payload)->Some_0
}

/// Law: what goes out in a packet. It is sealed with the keys for sending, under
/// the given packet number. Application data has a short header once the
/// handshake is done, and everything else a long one. The payload is the frames
/// and then zero bytes, of which there are none more than an Initial packet needs
/// for its minimum size, or any packet for its sample.
pub proof fn law_packet_made(
    keys: Option<Keys>,
    space: PacketNumberSpace,
    version: u32,
    dst_cid: Seq<u8>,
    src_cid: Seq<u8>,
    frames: Seq<FrameModel>,
    pn: u64,
    pn_len: usize,
    established: bool,
) -> (zeros: nat)
    requires
        packet_for(keys, space, version, dst_cid, src_cid, frames, pn, pn_len, established) is Ok,
    ensures
        ({
            let p = packet_for(
                keys,
                space,
                version,
                dst_cid,
                src_cid,
                frames,
                pn,
                pn_len,
                established,
            )->Ok_0;
            &&& keys matches Some(k)
            &&& frames_bytes(frames) matches Ok(body)
            &&& {
                let material = crypto::key_material(&k.local);
                let payload = body + Seq::new(zeros, |i: int| 0u8);
                &&& if space == PacketNumberSpace::ApplicationData && established {
                    short_packet(material, dst_cid, payload, pn, pn_len, false) == Some(p)
                } else {
                    long_packet(material, space, version, dst_cid, src_cid, payload, pn, pn_len)
                        == Some(p)
                }
                &&& zeros > 0 ==> payload.len() <= 1200 || payload.len() <= crypto::hp_sample_len(
                    material,
                ) + 4 - pn_len
                &&& zeros > 0 && space != PacketNumberSpace::Initial ==> payload.len()
                    <= crypto::hp_sample_len(material) + 4 - pn_len
            }
        }),
{
    let k = keys->Some_0;
    let material = crypto::key_material(&k.local);
    let body = frames_bytes(frames)->Ok_0;
    let payload = packet_payload(material, space, dst_cid.len(), src_cid.len(), body, pn_len);
    let n = (payload.len() - body.len()) as nat;
    assert(payload =~= body + Seq::new(n, |i: int| 0u8));
    n
}

/// Law: frames are written in order, one after the other.
pub proof fn law_frames_written_in_order(a: Seq<FrameModel>, b: Seq<FrameModel>, m: FrameModel)
    ensures
        frames_bytes(a) matches Ok(x) ==> (frames_bytes(b) matches Ok(y) ==> frames_bytes(a + b)
            == Ok::<_, FrameError>(x + y)),
        frames_bytes(Seq::<FrameModel>::empty()) == Ok::<_, FrameError>(Seq::<u8>::empty()),
        frames_bytes(seq![m]) == match frame_write_error(m) {
            Some(e) => Err(e),
            None => Ok(frame::frame_bytes(m)),
        },
    decreases b.len(),
{
    reveal_with_fuel(frames_bytes, 2);
    assert(seq![m].drop_last() =~= Seq::<FrameModel>::empty());
    assert(Seq::<u8>::empty() + frame::frame_bytes(m) =~= frame::frame_bytes(m));
    if b.len() == 0 {
        assert(a + b =~= a);
        if let Ok(x) = frames_bytes(a) {
            assert(x + Seq::<u8>::empty() =~= x);
        }
    } else {
        law_frames_written_in_order(a, b.drop_last(), m);
        assert((a + b).drop_last() =~= a + b.drop_last());
        assert((a + b).last() == b.last());
        if let Ok(x) = frames_bytes(a) {
            if let Ok(y) = frames_bytes(b.drop_last()) {
                let f = frame::frame_bytes(b.last());
                assert(x + (y + f) =~= (x + y) + f);
            }
        }
    }
}

/// Law: a payload is read frame by frame, from the front to its end, and none of
/// it is read where one of its frames cannot be.
pub proof fn law_frames_read_in_order(s: Seq<u8>)
    ensures
        s.len() == 0 ==> frames_in(s) == Ok::<_, FrameError>(Seq::<FrameModel>::empty()),
        s.len() > 0 ==> match frame::frame_at(s) {
            Err(e) => frames_in(s) == Err::<Seq<FrameModel>, _>(e),
            Ok((m, rest)) => frames_in(s) == match frames_in(rest) {
                Err(e) => Err::<Seq<FrameModel>, _>(e),
                Ok(more) => Ok(seq![m] + more),
            },
        },
{
    frame::law_frame_progress(s);
}

/// Law: a packet number is sent in as many bytes as hold it, up to four.
pub proof fn law_packet_number_bytes(pn: u64)
    ensures
        pn < 0x100 ==> pn_len_for(pn) == 1,
        0x100 <= pn < 0x1_0000 ==> pn_len_for(pn) == 2,
        0x1_0000 <= pn ==> pn_len_for(pn) == 4,
{
}

/// Law: why a packet does not open. One that is too short for its sample is
/// reported with the length that it wants; one that does not authenticate is a
/// protocol violation; and an error in a frame of one that does is that error. A
/// short header with a reserved bit set is refused before any of its payload is
/// looked at.
pub proof fn law_opening_refused(
    material: Seq<u8>,
    header: Seq<u8>,
    pn_offset: int,
    sealed: Seq<u8>,
    short: bool,
    pn: u64,
    largest: u64,
)
    requires
        1 <= pn_offset < header.len() <= pn_offset + 4,
        4 - (header.len() - pn_offset) + crypto::hp_sample_len(material) <= sealed.len(),
        announced_pn_len(header[0], short) == header.len() - pn_offset,
        header.skip(pn_offset) == wire::be_bytes(pn as nat, (header.len() - pn_offset) as nat),
        pn_recoverable(largest, pn, header.len() - pn_offset),
    ensures
        ({
            let p = protected(material, header, pn_offset, sealed);
            let r = opened(material, p, pn_offset, largest, short);
            if short && header[0] / 8 % 4 != 0 {
                r == Some(
                    Err::<(u64, Seq<FrameModel>), _>(
                        ConnectionError::Packet(PacketError::ReservedBitsSet),
                    ),
                )
            } else {
                match crypto::aead_open(material, pn, header, sealed) {
                    None => r == Some(
                        Err::<(u64, Seq<FrameModel>), _>(
                            ConnectionError::Transport(TransportError::ProtocolViolation),
                        ),
                    ),
                    Some(payload) => match frames_in(payload) {
                        Err(e) => r == Some(
                            Err::<(u64, Seq<FrameModel>), _>(ConnectionError::Frame(e)),
                        ),
                        Ok(fs) => r == Some(Ok::<_, ConnectionError>((pn, fs))),
                    },
                }
            }
        }),
{
    let packet = protected(material, header, pn_offset, sealed);
    let pn_len = (header.len() - pn_offset) as nat;
    lemma_unmask(material, header, pn_offset, sealed, short);
    wire::lemma_be_value_of_bytes(pn as nat, pn_len);
    wire::lemma_radix_values();
    assert(pn_len == 1 || pn_len == 2 || pn_len == 3 || pn_len == 4);
    assert(seq![header[0]] + packet.subrange(1, pn_offset) + header.skip(pn_offset) =~= header);
}

/// Law: what a space without keys, or a packet without a sample, comes to.
pub proof fn law_receiving_refused(
    keys: Option<Keys>,
    largest: u64,
    packet: Seq<u8>,
    pn_offset: int,
)
    requires
        0 <= pn_offset <= 0xffff,
    ensures
        keys is None ==> {
            let internal = ConnectionError::Transport(TransportError::InternalError);
            &&& received_long(keys, packet, pn_offset) == Err::<(u64, Seq<FrameModel>), _>(internal)
            &&& received_short(keys, largest, packet, pn_offset) == Some(
                Err::<(u64, Seq<FrameModel>), _>(internal),
            )
        },
        keys matches Some(k) ==> {
            let n = crypto::hp_sample_len(crypto::key_material(&k.remote));
            n <= 0xffff && packet.len() < pn_offset + 4 + n ==> {
                let short = ConnectionError::Packet(
                    PacketError::BufferTooShort {
                        needed: (pn_offset + 4 + n) as usize,
                        actual: packet.len() as usize,
                    },
                );
                &&& received_long(keys, packet, pn_offset) == Err::<(u64, Seq<FrameModel>), _>(
                    short,
                )
                &&& received_short(keys, largest, packet, pn_offset) == Some(
                    Err::<(u64, Seq<FrameModel>), _>(short),
                )
            }
        },
{
}

/// Law: a frame can be written where every number of it is below 2^62. Where not,
/// the first that is not is reported.
pub proof fn law_frame_write_error(m: FrameModel)
    ensures
        frame_write_error(m) is None <==> (forall|i: int|
            0 <= i < frame::frame_fields(m).len() ==> #[trigger] frame::frame_fields(m)[i]
                < 0x4000_0000_0000_0000),
        frame_write_error(m) matches Some(e) ==> (e matches FrameError::VarInt(
            varint::VarIntError::ValueTooLarge { value },
        ) && value >= 0x4000_0000_0000_0000 && frame::frame_fields(m).contains(value)),
        MIN_INITIAL_SIZE == 1200,
{
    let fields = frame::frame_fields(m);
    frame::law_sound_prefix(fields);
    let k = frame::sound_prefix(fields) as int;
    if k < fields.len() {
        assert(fields[k] >= 0x4000_0000_0000_0000);
    }
}

/// Law: the estimate of a long header's size is the size of the header of an
/// Initial packet without a token.
pub proof fn law_header_size(
    version: u32,
    dst_cid: Seq<u8>,
    src_cid: Seq<u8>,
    length: u64,
    pn_len: usize,
)
    requires
        length < 0x4000_0000_0000_0000,
        1 <= pn_len <= 4,
    ensures
        packet::long_front(
            long_model(PacketNumberSpace::Initial, version, dst_cid, src_cid, length, pn_len),
        ).len() == long_size(dst_cid.len(), src_cid.len(), length),
        long_size(dst_cid.len(), src_cid.len(), length) == 8 + dst_cid.len() + src_cid.len()
            + varint::varint_bytes(length).len(),
{
    lemma_long_front_len(PacketNumberSpace::Initial, version, dst_cid, src_cid, length, pn_len);
    varint::law_varint_written(length, Seq::empty());
}

} // verus!
