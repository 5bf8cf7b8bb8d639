//! What holds of a connection whatever is done to it.
//!
//! The statements are over the step functions that the contracts of
//! [`Connection`](crate::connection::Connection) are written in.

use rustls::quic::Keys;
use rustls::{ClientConfig, ServerConfig};
use std::sync::Arc;
use vstd::prelude::*;

use crate::connection;
use crate::connection::{ConnModel, Connection, Progress, Side, State};
use crate::crypto;
use crate::error;
use crate::error::{ConnectionError, TransportError};
use crate::frame;
use crate::frame::{AckRange, Frame, FrameError, FrameModel};
use crate::packet;
use crate::packet::{LongModel, LongType, PacketNumberSpace};
use crate::protection;
use crate::space::SpaceModel;
use crate::tls::{KeyChange, TlsEvent, TlsOrigin, TlsSession};
use crate::varint;
use crate::varint::VARINT_MAX;

verus! {

/// Law: a closed connection refuses every packet and sends none, and stays as
/// it is.
pub proof fn law_closed_refuses(c: ConnModel, buf: Seq<u8>, ev: Seq<TlsEvent>, room: nat)
    requires
        c.state == State::Closed,
    ensures
        connection::ingest_step(c, buf, ev) == Some(
            (
                Progress { conn: c, used: 0, error: None, fits: true },
                Err::<usize, _>(ConnectionError::Closed),
            ),
        ),
        connection::egest_step(c, room) == Some(
            (c, Err::<Seq<u8>, _>(ConnectionError::Closed)),
        ),
{
}

/// Law: a packet that cannot be read or opened changes nothing.
pub proof fn law_rejected_packet_changes_nothing(c: ConnModel, buf: Seq<u8>, ev: Seq<TlsEvent>)
    requires
        buf.len() > 0,
        connection::received(c, buf) matches Some(Err(_)),
    ensures
        connection::ingest_step(c, buf, ev) matches Some((p, r)) && p.conn == c && p.used == 0
            && r is Err,
{
}

/// Law: a CONNECTION_CLOSE frame closes the connection and leaves the peer's
/// reason behind, and from then on every packet is refused and none is sent.
pub proof fn law_close_frame(
    c: ConnModel,
    level: int,
    error_code: u64,
    frame_type: Option<u64>,
    reason: Seq<u8>,
    ev: Seq<TlsEvent>,
    buf: Seq<u8>,
    next: Seq<TlsEvent>,
    room: nat,
)
    ensures
        ({
            let f = FrameModel::ConnectionClose { error_code, frame_type, reason };
            let p = connection::frames_step(c, level, seq![f], ev);
            let d = p.conn;
            &&& p.error is None
            &&& p.used == 0
            &&& d.state == State::Closed
            &&& d.close_reason == Some(connection::close_error(error_code))
            &&& is_refused(d, buf, next, room)
        }),
{
    let f = FrameModel::ConnectionClose { error_code, frame_type, reason };
    reveal_with_fuel(connection::frames_step, 2);
    assert(seq![f].drop_last() =~= Seq::<FrameModel>::empty());
    let d = connection::frames_step(c, level, seq![f], ev).conn;
    law_closed_refuses(d, buf, next, room);
}

/// Whether a connection refuses a packet and sends none, and stays as it is.
pub open spec fn is_refused(d: ConnModel, buf: Seq<u8>, next: Seq<TlsEvent>, room: nat) -> bool {
    &&& connection::ingest_step(d, buf, next) matches Some((q, r))
    &&& q.conn == d
    &&& r == Err::<usize, _>(ConnectionError::Closed)
    &&& connection::egest_step(d, room) == Some((d, Err::<Seq<u8>, _>(ConnectionError::Closed)))
}

/// Law: a packet that ends in CONNECTION_CLOSE, padding aside, and whose other
/// frames meet no error, closes the connection with the peer's reason, and from
/// then on every packet is refused and none is sent.
pub proof fn law_close_received(
    c: ConnModel,
    buf: Seq<u8>,
    id: PacketNumberSpace,
    pn: u64,
    before: Seq<FrameModel>,
    error_code: u64,
    frame_type: Option<u64>,
    reason: Seq<u8>,
    padding: nat,
    ev: Seq<TlsEvent>,
    later: Seq<u8>,
    next: Seq<TlsEvent>,
    room: nat,
)
    requires
        c.state != State::Closed,
        buf.len() > 0,
        ({
            let f = FrameModel::ConnectionClose { error_code, frame_type, reason };
            connection::received(c, buf) == Some(
                Ok::<_, ConnectionError>(
                    (id, pn, before.push(f) + protection::paddings(padding)),
                ),
            )
        }),
        connection::frames_step(
            c.with_space(id, c.space(id).after_recv(pn)),
            connection::level_of(id),
            before,
            ev,
        ).error is None,
    ensures
        ({
            &&& connection::ingest_step(c, buf, ev) matches Some((p, r))
            &&& r == Ok::<_, ConnectionError>(buf.len() as usize)
            &&& p.conn.state == State::Closed
            &&& p.conn.close_reason == Some(connection::close_error(error_code))
            &&& is_refused(p.conn, later, next, room)
        }),
{
    let f = FrameModel::ConnectionClose { error_code, frame_type, reason };
    let c1 = c.with_space(id, c.space(id).after_recv(pn));
    let level = connection::level_of(id);
    lemma_padding_step(c1, level, before.push(f), padding, ev);
    assert(before.push(f).drop_last() =~= before);
    let d = connection::frames_step(c1, level, before.push(f), ev).conn;
    law_closed_refuses(d, later, next, room);
}

/// What one frame can change, and what it cannot.
pub open spec fn step_keeps(c: ConnModel, d: ConnModel) -> bool {
    &&& d.side == c.side
    &&& d.version == c.version
    &&& d.dst_cid == c.dst_cid
    &&& d.src_cid == c.src_cid
    &&& d.initial == c.initial
    &&& c.handshake.keys is Some ==> d.handshake == c.handshake
    &&& c.appdata.keys is Some ==> d.appdata.keys is Some
    &&& d.handshake == (crate::space::SpaceModel { keys: d.handshake.keys, ..c.handshake })
    &&& d.appdata == (crate::space::SpaceModel { keys: d.appdata.keys, ..c.appdata })
    &&& d.stream_out == c.stream_out
    &&& d.stream_sent == c.stream_sent
    &&& c.stream_received <= d.stream_received
    &&& d.state == State::Handshaking ==> c.state == State::Handshaking
    &&& d.state == State::Connecting ==> c.state == State::Connecting
}

proof fn lemma_frames_keep(c: ConnModel, level: int, fs: Seq<FrameModel>, ev: Seq<TlsEvent>)
    ensures
        step_keeps(c, connection::frames_step(c, level, fs, ev).conn),
    decreases fs.len(),
{
    if fs.len() > 0 {
        lemma_frames_keep(c, level, fs.drop_last(), ev);
    }
}

/// Law: ingesting a packet changes neither the side, the version nor the
/// connection IDs, takes no packet number for sending, drops no keys, replaces
/// no Initial or Handshake keys, and leaves what the application has to send.
pub proof fn law_ingest_keeps(c: ConnModel, buf: Seq<u8>, ev: Seq<TlsEvent>)
    ensures
        connection::ingest_step(c, buf, ev) matches Some((p, _)) ==> {
            let d = p.conn;
            &&& d.side == c.side
            &&& d.version == c.version
            &&& d.dst_cid == c.dst_cid
            &&& d.src_cid == c.src_cid
            &&& d.initial.next_send_pn == c.initial.next_send_pn
            &&& d.handshake.next_send_pn == c.handshake.next_send_pn
            &&& d.appdata.next_send_pn == c.appdata.next_send_pn
            &&& d.initial.keys == c.initial.keys
            &&& c.handshake.keys is Some ==> d.handshake.keys == c.handshake.keys
            &&& c.appdata.keys is Some ==> d.appdata.keys is Some
            &&& d.stream_out == c.stream_out
            &&& d.stream_sent == c.stream_sent
        },
{
    if let Some(Ok((id, pn, fs))) = connection::received(c, buf) {
        let c1 = c.with_space(id, c.space(id).after_recv(pn));
        lemma_frames_keep(c1, connection::level_of(id), fs, ev);
    }
}

/// Law: the largest received packet number of a space never goes down, and a
/// packet that is ingested counts in its own space alone.
pub proof fn law_ingest_largest_recv(c: ConnModel, buf: Seq<u8>, ev: Seq<TlsEvent>)
    ensures
        connection::ingest_step(c, buf, ev) matches Some((p, _)) ==> {
            let d = p.conn;
            &&& c.initial.largest_recv_pn <= d.initial.largest_recv_pn
            &&& c.handshake.largest_recv_pn <= d.handshake.largest_recv_pn
            &&& c.appdata.largest_recv_pn <= d.appdata.largest_recv_pn
            &&& c.state != State::Closed && buf.len() > 0 ==> (connection::received(
                c,
                buf,
            ) matches Some(Ok((id, pn, _))) ==> {
                &&& pn <= d.space(id).largest_recv_pn
                &&& d.space(id).pending_acks == c.space(id).pending_acks.push(pn)
                &&& forall|other: PacketNumberSpace|
                    other != id ==> (#[trigger] d.space(other)).largest_recv_pn == c.space(
                        other,
                    ).largest_recv_pn
            })
        },
{
    if let Some(Ok((id, pn, fs))) = connection::received(c, buf) {
        let c1 = c.with_space(id, c.space(id).after_recv(pn));
        lemma_frames_keep(c1, connection::level_of(id), fs, ev);
    }
}

/// Whether the next packet of a space, if it can be made, fits in `room` bytes.
pub open spec fn fits_room(c: ConnModel, id: PacketNumberSpace, room: nat) -> bool {
    connection::next_packet(c, id) matches Ok(p) ==> p.len() <= room
}

/// Law: an open connection gives an empty packet exactly where nothing waits to
/// be sent. A packet that does not fit is reported and stays: the connection is
/// as it was, and room enough gets the packet.
pub proof fn law_egest_idle(c: ConnModel, room: nat)
    requires
        c.state != State::Closed,
    ensures
        connection::egest_step(c, room) matches Some((d, Ok(p))) ==> {
            &&& p.len() == 0 <==> connection::sending_space(c) is None
            &&& p.len() == 0 ==> d == c
        },
        connection::sending_space(c) matches Some(id) ==> (connection::next_packet(c, id) matches Ok(
            p,
        ) ==> (c.space(id).next_send_pn < u64::MAX ==> {
            &&& p.len() > 0
            &&& room < p.len() ==> connection::egest_step(c, room) == Some(
                (c, Err::<Seq<u8>, _>(connection::no_room(p.len(), room))),
            )
            &&& room >= p.len() ==> connection::egest_step(c, room) == Some(
                (connection::after_egest(c, id), Ok::<_, ConnectionError>(p)),
            )
        })),
{
}

/// Law: a packet takes the next packet number of the space that sends it, so
/// that the numbers of a space are consecutive, and no other space is touched.
pub proof fn law_egest_packet_numbers(c: ConnModel, room: nat)
    ensures
        connection::egest_step(c, room) matches Some((d, _)) ==> {
            if c.state == State::Closed || connection::sending_space(c) is None || !fits_room(
                c,
                connection::sending_space(c)->Some_0,
                room,
            ) {
                d == c
            } else {
                let id = connection::sending_space(c)->Some_0;
                &&& d.space(id).next_send_pn == c.space(id).next_send_pn + 1
                &&& d.space(id).keys == c.space(id).keys
                &&& d.space(id).largest_recv_pn == c.space(id).largest_recv_pn
                &&& forall|other: PacketNumberSpace|
                    other != id ==> #[trigger] d.space(other) == c.space(other)
            }
        },
{
}

/// Law: whatever is sent is taken from what waited. A second packet has nothing
/// of the first: after sending, the space has nothing more to send.
pub proof fn law_egest_takes_all(c: ConnModel, id: PacketNumberSpace)
    requires
        c.wf(),
    ensures
        connection::outgoing(connection::after_egest(c, id), id).len() == 0,
{
    let d = connection::after_egest(c, id);
    assert(d.pending_crypto[connection::level_of(id)].len() == 0);
}

/// Law: a server confirms the handshake at most once. Only sending can end
/// what it owes, ending it establishes the connection, and nothing makes it owe
/// again.
pub proof fn law_handshake_done_once(
    c: ConnModel,
    buf: Seq<u8>,
    ev: Seq<TlsEvent>,
    room: nat,
)
    ensures
        connection::ingest_step(c, buf, ev) matches Some((p, _)) ==> (connection::owes_done(p.conn)
            ==> connection::owes_done(c)),
        connection::egest_step(c, room) matches Some((d, _)) ==> {
            &&& connection::owes_done(d) ==> connection::owes_done(c)
            &&& connection::owes_done(c) && connection::sending_space(c) == Some(
                PacketNumberSpace::ApplicationData,
            ) && fits_room(c, PacketNumberSpace::ApplicationData, room) ==> d.state == State::Established && !connection::owes_done(d)
        },
{
    law_ingest_keeps(c, buf, ev);
    if let Some(Ok((id, pn, fs))) = connection::received(c, buf) {
        let c1 = c.with_space(id, c.space(id).after_recv(pn));
        lemma_frames_keep(c1, connection::level_of(id), fs, ev);
    }
}

/// Law: handshake data is read in order: a CRYPTO frame at any other offset
/// than the end of what was read changes nothing. One at that end is handed to
/// TLS as it is, and moves the end by its length where TLS takes it.
pub proof fn law_crypto_in_order(
    c: ConnModel,
    level: int,
    offset: u64,
    data: Seq<u8>,
    ev: Seq<TlsEvent>,
)
    requires
        c.wf(),
        0 <= level <= 2,
        offset + data.len() <= u64::MAX,
    ensures
        ({
            let p = connection::crypto_step(c, level, offset, data, ev);
            let expected = c.crypto_recv_offset[level];
            &&& offset != expected ==> p.conn == c && p.used == 0
            &&& offset == expected && p.error is None ==> p.conn.crypto_recv_offset[level]
                == expected + data.len()
            &&& offset == expected && p.fits ==> (ev[0] matches TlsEvent::Read { data: handed, outcome }
                && handed == data && (p.error is None <==> outcome is Ok))
            &&& p.error is Some ==> p.conn == c
        }),
{
}

/// Law: a server that holds a client's first packet finds the ClientHello in
/// it, whole.
pub proof fn law_first_packet_hello(
    p: Seq<u8>,
    dst_cid: Seq<u8>,
    src_cid: Seq<u8>,
    hello: Seq<u8>,
)
    requires
        connection::is_first_packet(p, dst_cid, src_cid, hello),
    ensures
        packet::long_header_at(p) matches Ok((h, _)) && h.dst_cid == dst_cid && h.src_cid
            == src_cid && (protection::opened_long(
            crypto::initial_material(0, dst_cid, true),
            p,
            protection::long_pn_offset(h),
        ) matches Ok((pn, fs)) && pn == 0 && connection::hello_in(fs) == hello),
{
    if let Ok((h, _)) = packet::long_header_at(p) {
        if let Ok((pn, fs)) = protection::opened_long(
            crypto::initial_material(0, dst_cid, true),
            p,
            protection::long_pn_offset(h),
        ) {
            lemma_hello_first(fs, hello, fs.len() as int);
            assert(fs.take(fs.len() as int) =~= fs);
        }
    }
}

proof fn lemma_hello_first(fs: Seq<FrameModel>, hello: Seq<u8>, n: int)
    requires
        1 <= n <= fs.len(),
        fs[0] == (FrameModel::Crypto { offset: 0, data: hello }),
        forall|i: int| 1 <= i < fs.len() ==> #[trigger] fs[i] == FrameModel::Padding,
    ensures
        connection::hello_in(fs.take(n)) == hello,
    decreases n,
{
    let t = fs.take(n);
    assert(t.drop_last() =~= fs.take(n - 1));
    if n == 1 {
        assert(t.drop_last() =~= Seq::<FrameModel>::empty());
        assert(connection::hello_in(t.drop_last()) == Seq::<u8>::empty());
        assert(t.last() == fs[0]);
        assert(Seq::<u8>::empty() + hello =~= hello);
    } else {
        assert(t.last() == fs[n - 1]);
        lemma_hello_first(fs, hello, n - 1);
    }
}

/// Law: application data arrives as it was sent: the frame that carries it,
/// read at the offset that it was sent from, adds it to what was received.
pub proof fn law_stream_in_order(c: ConnModel, data: Seq<u8>)
    requires
        c.stream_received + data.len() <= u64::MAX,
    ensures
        ({
            let d = connection::stream_step(
                c,
                connection::APP_STREAM,
                c.stream_received,
                data,
            );
            &&& d.stream_in == c.stream_in + data
            &&& d.stream_received == c.stream_received + data.len()
        }),
        forall|offset: u64|
            offset != c.stream_received ==> #[trigger] connection::stream_step(
                c,
                connection::APP_STREAM,
                offset,
                data,
            ) == c,
{
}

// ---------------------------------------------------------------------------
// Delivery
// ---------------------------------------------------------------------------

/// Whether what waits in a space fits in memory, as what a [`Connection`]
/// holds always does.
///
/// [`Connection`]: crate::connection::Connection
pub open spec fn fits_memory(c: ConnModel, id: PacketNumberSpace) -> bool {
    &&& c.pending_crypto[connection::level_of(id)].len() <= usize::MAX
    &&& c.space(id).pending_acks.len() <= usize::MAX
    &&& c.stream_out.len() <= usize::MAX
}

/// The varints of a frame that was written all fit.
proof fn lemma_sound_fields(vals: Seq<u64>)
    requires
        frame::sound_prefix(vals) >= vals.len(),
    ensures
        forall|i: int| 0 <= i < vals.len() ==> vals[i] <= VARINT_MAX,
    decreases vals.len(),
{
    if vals.len() > 0 {
        lemma_sound_fields(vals.skip(1));
        assert forall|i: int| 0 <= i < vals.len() implies vals[i] <= VARINT_MAX by {
            if i > 0 {
                assert(vals[i] == vals.skip(1)[i - 1]);
            }
        }
    }
}

/// No frame of a list that was written had an error.
proof fn lemma_written_frames(ms: Seq<FrameModel>, i: int)
    requires
        protection::frames_bytes(ms) is Ok,
        0 <= i < ms.len(),
    ensures
        protection::frame_write_error(ms[i]) is None,
    decreases ms.len(),
{
    if i < ms.len() - 1 {
        lemma_written_frames(ms.drop_last(), i);
    }
}

/// Each frame that a connection sends can be told apart from what follows it.
proof fn lemma_outgoing_delimited(c: ConnModel, id: PacketNumberSpace, i: int)
    requires
        c.wf(),
        fits_memory(c, id),
        protection::frames_bytes(connection::outgoing(c, id)) is Ok,
        0 <= i < connection::outgoing(c, id).len(),
    ensures
        protection::frame_delimited(connection::outgoing(c, id)[i]),
{
    let ms = connection::outgoing(c, id);
    let m = ms[i];
    lemma_written_frames(ms, i);
    let fields = frame::frame_fields(m);
    lemma_sound_fields(fields);
    match m {
        FrameModel::Crypto { offset, data } => {
            assert(fields[1] == data.len() as u64);
        },
        FrameModel::Ack { largest_ack, ack_delay, ranges, ecn } => {
            assert(ranges.len() == 1);
        },
        FrameModel::Stream { stream_id, offset, data, fin } => {
            assert(data == c.stream_out);
            assert(fields.last() == data.len() as u64);
        },
        _ => {},
    }
}

/// What the payload of a sent packet parses to.
proof fn lemma_next_payload_frames(c: ConnModel, id: PacketNumberSpace) -> (n: nat)
    requires
        c.wf(),
        fits_memory(c, id),
        protection::frames_bytes(connection::outgoing(c, id)) is Ok,
        connection::next_packet(c, id) is Ok,
    ensures
        protection::frames_in(connection::next_payload(c, id)) == Ok::<_, FrameError>(
            connection::outgoing(c, id) + protection::paddings(n),
        ),
{
    let ms = connection::outgoing(c, id);
    let body = protection::frames_bytes(ms)->Ok_0;
    let payload = connection::next_payload(c, id);
    assert forall|i: int| 0 <= i < ms.len() implies protection::frame_delimited(
        #[trigger] ms[i],
    ) by {
        lemma_outgoing_delimited(c, id, i);
    }
    // Padding twice is padding once, to the longer length.
    let material = crypto::key_material(&c.space(id).keys->Some_0.local);
    let pn_len = protection::pn_len_for(c.space(id).next_send_pn);
    let first = if id is Initial {
        protection::min_initial_payload(
            material,
            c.dst_cid.len(),
            c.src_cid.len(),
            body.len(),
            pn_len,
        )
    } else {
        0
    };
    let second = protection::capped(crypto::hp_sample_len(material) + 4) - pn_len;
    let target = if first > second {
        first
    } else {
        second
    };
    assert(payload =~= protection::padded(body, target));
    protection::law_payload_round_trip(ms, target);
    (payload.len() - body.len()) as nat
}

/// Law: a long header packet that a connection sends is read by a peer whose
/// keys match, to the space, the packet number and the frames that were sent,
/// followed by padding.
pub proof fn law_long_packet_delivered(
    sender: ConnModel,
    peer: ConnModel,
    id: PacketNumberSpace,
    sender_keys: Keys,
    peer_keys: Keys,
    p: Seq<u8>,
) -> (padding: nat)
    requires
        sender.wf(),
        fits_memory(sender, id),
        sender.version != packet::VERSION_NEGOTIATION,
        sender.space(id).next_send_pn < 0x1_0000_0000,
        protection::is_long_packet(id, sender.state == State::Established),
        sender.space(id).keys == Some(sender_keys),
        peer.space(id).keys == Some(peer_keys),
        crypto::key_material(&peer_keys.remote) == crypto::key_material(&sender_keys.local),
        connection::next_packet(sender, id) == Ok::<_, ConnectionError>(p),
        connection::sent_packet_opens(sender, id, p),
    ensures
        connection::received(peer, p) == Some(
            Ok::<_, ConnectionError>(
                (
                    id,
                    sender.space(id).next_send_pn,
                    connection::outgoing(sender, id) + protection::paddings(padding),
                ),
            ),
        ),
{
    let material = crypto::key_material(&sender_keys.local);
    let pn = sender.space(id).next_send_pn;
    let pn_len = protection::pn_len_for(pn);
    let payload = connection::next_payload(sender, id);
    let padding = lemma_next_payload_frames(sender, id);
    let length = protection::length_value(material, payload.len(), pn_len);
    let m = protection::long_model(
        id,
        sender.version,
        sender.dst_cid,
        sender.src_cid,
        length,
        pn_len,
    );
    let front = packet::long_front(m);
    let header = front + crate::wire::be_bytes(pn as nat, pn_len as nat);
    let sealed = crypto::aead_seal(material, pn, header, payload)->Some_0;
    let off = front.len() as int;
    assert(p == protection::protected(material, header, off, sealed));
    crate::wire::lemma_be_bytes_len(pn as nat, pn_len as nat);
    assert(front.len() > 0);
    assert(p.len() == header.len() + sealed.len());
    protection::law_protected_long_header(
        material,
        id,
        sender.version,
        sender.dst_cid,
        sender.src_cid,
        length,
        pn,
        pn_len,
        sealed,
    );
    protection::lemma_protected_first(material, header, off, sealed);
    packet::lemma_long_first(m.ty, m.pn_len);
    protection::law_first_packet_recoverable(pn);
    assert(off == protection::long_packet_pn_offset(
        material,
        id,
        sender.version,
        sender.dst_cid,
        sender.src_cid,
        payload.len(),
        pn_len,
    ));
    assert(protection::opens_to(material, p, off, 0, false, pn, payload));
    padding
}

/// A protected short header packet shows its connection ID.
proof fn lemma_short_packet_id(
    material: Seq<u8>,
    dst_cid: Seq<u8>,
    payload: Seq<u8>,
    pn: u64,
    pn_len: usize,
    p: Seq<u8>,
)
    requires
        dst_cid.len() <= 20,
        1 <= pn_len <= 4,
        protection::short_packet(material, dst_cid, payload, pn, pn_len, false) == Some(p),
    ensures
        p[0] < 0x80,
        packet::short_id_at(p, dst_cid.len() as usize) == Ok::<_, packet::PacketError>(dst_cid),
{
    let front = packet::short_front(protection::short_model(dst_cid, pn_len, false));
    let header = front + crate::wire::be_bytes(pn as nat, pn_len as nat);
    let sealed = crypto::aead_seal(material, pn, header, payload)->Some_0;
    let off = front.len() as int;
    let bits = packet::short_pn_bits(pn_len as u8);
    packet::lemma_short_first(0, 0, bits);
    assert(header[0] == 0x40u8 | 0u8 | 0u8 | bits);
    protection::lemma_protected_first(material, header, off, sealed);
    assert(p[0] / 32 == 2);
    assert(p.subrange(1, off) =~= dst_cid);
}

/// Law: a short header packet that a connection sends is read by a peer whose
/// keys match, and who is near enough for the packet number to be recovered,
/// to the packet number and the frames that were sent, followed by padding.
pub proof fn law_short_packet_delivered(
    sender: ConnModel,
    peer: ConnModel,
    sender_keys: Keys,
    peer_keys: Keys,
    p: Seq<u8>,
) -> (padding: nat)
    requires
        sender.wf(),
        fits_memory(sender, PacketNumberSpace::ApplicationData),
        sender.state == State::Established,
        peer.src_cid == sender.dst_cid,
        sender.appdata.keys == Some(sender_keys),
        peer.appdata.keys == Some(peer_keys),
        crypto::key_material(&peer_keys.remote) == crypto::key_material(&sender_keys.local),
        protection::pn_recoverable(
            peer.appdata.largest_recv_pn,
            sender.appdata.next_send_pn,
            protection::pn_len_for(sender.appdata.next_send_pn) as int,
        ),
        connection::next_packet(sender, PacketNumberSpace::ApplicationData) == Ok::<
            _,
            ConnectionError,
        >(p),
        connection::sent_packet_opens(sender, PacketNumberSpace::ApplicationData, p),
    ensures
        connection::received(peer, p) == Some(
            Ok::<_, ConnectionError>(
                (
                    PacketNumberSpace::ApplicationData,
                    sender.appdata.next_send_pn,
                    connection::outgoing(sender, PacketNumberSpace::ApplicationData)
                        + protection::paddings(padding),
                ),
            ),
        ),
{
    let id = PacketNumberSpace::ApplicationData;
    let material = crypto::key_material(&sender_keys.local);
    let pn = sender.appdata.next_send_pn;
    let pn_len = protection::pn_len_for(pn);
    let payload = connection::next_payload(sender, id);
    let padding = lemma_next_payload_frames(sender, id);
    let off = 1 + sender.dst_cid.len() as int;
    lemma_short_packet_id(material, sender.dst_cid, payload, pn, pn_len, p);
    assert(protection::opens_to(
        material,
        p,
        off,
        peer.appdata.largest_recv_pn,
        true,
        pn,
        payload,
    ));
    padding
}

/// Padding changes nothing.
proof fn lemma_padding_step(
    c: ConnModel,
    level: int,
    fs: Seq<FrameModel>,
    n: nat,
    ev: Seq<TlsEvent>,
)
    ensures
        connection::frames_step(c, level, fs + protection::paddings(n), ev)
            == connection::frames_step(c, level, fs, ev),
    decreases n,
{
    let all = fs + protection::paddings(n);
    if n == 0 {
        assert(all =~= fs);
    } else {
        lemma_padding_step(c, level, fs, (n - 1) as nat, ev);
        assert(all.drop_last() =~= fs + protection::paddings((n - 1) as nat));
        assert(all.last() == FrameModel::Padding);
    }
}

/// A frame, or none.
spec fn optional(f: FrameModel, there: bool) -> Seq<FrameModel> {
    if there {
        seq![f]
    } else {
        Seq::empty()
    }
}

/// What one more frame does, if it is there.
proof fn lemma_optional_step(
    c: ConnModel,
    level: int,
    fs: Seq<FrameModel>,
    f: FrameModel,
    there: bool,
    ev: Seq<TlsEvent>,
)
    ensures
        ({
            let p = connection::frames_step(c, level, fs, ev);
            connection::frames_step(c, level, fs + optional(f, there), ev) == if !there
                || p.error is Some {
                p
            } else {
                let q = connection::frame_step(p.conn, level, f, ev.skip(p.used as int));
                Progress {
                    conn: q.conn,
                    used: p.used + q.used,
                    error: q.error,
                    fits: p.fits && q.fits,
                }
            }
        }),
{
    let all = fs + optional(f, there);
    if there {
        assert(all.drop_last() =~= fs);
        assert(all.last() == f);
    } else {
        assert(all =~= fs);
    }
}

/// What frames other than CRYPTO and STREAM that a connection sends do: no
/// exchange with TLS, and no change but to the state.
proof fn lemma_control_step(
    c: ConnModel,
    level: int,
    fs: Seq<FrameModel>,
    f: FrameModel,
    there: bool,
    ev: Seq<TlsEvent>,
)
    requires
        f is Ack || f is HandshakeDone,
    ensures
        ({
            let p = connection::frames_step(c, level, fs, ev);
            let q = connection::frames_step(c, level, fs + optional(f, there), ev);
            q == (Progress { conn: ConnModel { state: q.conn.state, ..p.conn }, ..p })
        }),
{
    lemma_optional_step(c, level, fs, f, there, ev);
}

/// What a STREAM frame at the end does, if it is there.
proof fn lemma_stream_frame_step(
    c: ConnModel,
    level: int,
    fs: Seq<FrameModel>,
    offset: u64,
    data: Seq<u8>,
    there: bool,
    ev: Seq<TlsEvent>,
)
    ensures
        ({
            let f = FrameModel::Stream {
                stream_id: connection::APP_STREAM,
                offset,
                data,
                fin: false,
            };
            let p = connection::frames_step(c, level, fs, ev);
            connection::frames_step(c, level, fs + optional(f, there), ev) == if there
                && p.error is None {
                Progress {
                    conn: connection::stream_step(p.conn, connection::APP_STREAM, offset, data),
                    ..p
                }
            } else {
                p
            }
        }),
{
    let f = FrameModel::Stream { stream_id: connection::APP_STREAM, offset, data, fin: false };
    lemma_optional_step(c, level, fs, f, there, ev);
}

/// What a CRYPTO frame alone does, if it is there.
proof fn lemma_crypto_frame_step(
    c: ConnModel,
    level: int,
    data: Seq<u8>,
    there: bool,
    ev: Seq<TlsEvent>,
)
    ensures
        connection::frames_step(
            c,
            level,
            optional(FrameModel::Crypto { offset: 0, data }, there),
            ev,
        ) == if there {
            connection::crypto_step(c, level, 0, data, ev)
        } else {
            Progress { conn: c, used: 0, error: None, fits: true }
        },
{
    let f = FrameModel::Crypto { offset: 0, data };
    let none = Seq::<FrameModel>::empty();
    lemma_optional_step(c, level, none, f, there, ev);
    assert(none + optional(f, there) =~= optional(f, there));
    assert(ev.skip(0) =~= ev);
}

/// What the frames that wait in a space do: handshake data goes to TLS, and
/// behind it application data is received.
proof fn lemma_outgoing_step(
    c: ConnModel,
    sender: ConnModel,
    id: PacketNumberSpace,
    ev: Seq<TlsEvent>,
)
    ensures
        ({
            let level = connection::level_of(id);
            let data = sender.pending_crypto[level];
            let q = connection::frames_step(c, level, connection::outgoing(sender, id), ev);
            let p = if data.len() > 0 {
                connection::crypto_step(c, level, 0, data, ev)
            } else {
                Progress { conn: c, used: 0, error: None, fits: true }
            };
            &&& q.fits == p.fits
            &&& q.used == p.used
            &&& q.error == p.error
            &&& q.conn.crypto_recv_offset == p.conn.crypto_recv_offset
            &&& p.error is None && id is ApplicationData && sender.stream_out.len() > 0 ==> {
                let d = connection::stream_step(
                    p.conn,
                    connection::APP_STREAM,
                    sender.stream_sent,
                    sender.stream_out,
                );
                &&& q.conn.stream_in == d.stream_in
                &&& q.conn.stream_received == d.stream_received
            }
        }),
{
    let level = connection::level_of(id);
    let data = sender.pending_crypto[level];
    let acks = sender.space(id).pending_acks;
    let app = id is ApplicationData;
    let ack = FrameModel::Ack {
        largest_ack: connection::largest_of(acks),
        ack_delay: 0,
        ranges: seq![AckRange { gap: 0, range: (acks.len() - 1) as u64 }],
        ecn: None,
    };
    let done = FrameModel::HandshakeDone;
    let stream = FrameModel::Stream {
        stream_id: connection::APP_STREAM,
        offset: sender.stream_sent,
        data: sender.stream_out,
        fin: false,
    };
    let owes = app && connection::owes_done(sender);
    let streams = app && sender.stream_out.len() > 0;
    let f1 = optional(FrameModel::Crypto { offset: 0, data }, data.len() > 0);
    let f2 = f1 + optional(ack, acks.len() > 0);
    let f3 = f2 + optional(done, owes);
    assert(connection::outgoing(sender, id) == f3 + optional(stream, streams));
    lemma_crypto_frame_step(c, level, data, data.len() > 0, ev);
    lemma_control_step(c, level, f1, ack, acks.len() > 0, ev);
    lemma_control_step(c, level, f2, done, owes, ev);
    lemma_stream_frame_step(
        c,
        level,
        f3,
        sender.stream_sent,
        sender.stream_out,
        streams,
        ev,
    );
}

/// Law: handshake data that a connection sends reaches the peer's TLS as it
/// was queued, where the packet that carries it is delivered (see
/// [`law_long_packet_delivered`]) and nothing was read at that level before.
pub proof fn law_handshake_data_delivered(
    sender: ConnModel,
    peer: ConnModel,
    id: PacketNumberSpace,
    pn: u64,
    padding: nat,
    p: Seq<u8>,
    ev: Seq<TlsEvent>,
)
    requires
        p.len() > 0,
        peer.wf(),
        peer.state != State::Closed,
        peer.crypto_recv_offset[connection::level_of(id)] == 0,
        0 < sender.pending_crypto[connection::level_of(id)].len() <= u64::MAX,
        connection::received(peer, p) == Some(
            Ok::<_, ConnectionError>(
                (id, pn, connection::outgoing(sender, id) + protection::paddings(padding)),
            ),
        ),
        connection::ingest_step(peer, p, ev) matches Some((q, _)) && q.fits,
    ensures
        ({
            let level = connection::level_of(id);
            let data = sender.pending_crypto[level];
            &&& connection::ingest_step(peer, p, ev) matches Some((q, r))
            &&& ev[0] matches TlsEvent::Read { data: handed, outcome }
            &&& handed == data
            &&& r is Ok <==> outcome is Ok
            &&& outcome is Ok ==> q.conn.crypto_recv_offset[level] == data.len()
        }),
{
    let level = connection::level_of(id);
    let data = sender.pending_crypto[level];
    let c1 = peer.with_space(id, peer.space(id).after_recv(pn));
    lemma_padding_step(c1, level, connection::outgoing(sender, id), padding, ev);
    lemma_outgoing_step(c1, sender, id, ev);
    law_crypto_in_order(c1, level, 0, data, ev);
}

/// Law: application data that a connection sends is received by the peer as it
/// was queued, where the packet that carries it is delivered (see
/// [`law_short_packet_delivered`]), no handshake data goes before it, and the
/// peer has received what was sent before.
pub proof fn law_application_data_delivered(
    sender: ConnModel,
    peer: ConnModel,
    pn: u64,
    padding: nat,
    p: Seq<u8>,
    ev: Seq<TlsEvent>,
)
    requires
        p.len() > 0,
        peer.state != State::Closed,
        sender.pending_crypto[2].len() == 0,
        peer.stream_received == sender.stream_sent,
        0 < sender.stream_out.len(),
        sender.stream_sent + sender.stream_out.len() <= u64::MAX,
        connection::received(peer, p) == Some(
            Ok::<_, ConnectionError>(
                (
                    PacketNumberSpace::ApplicationData,
                    pn,
                    connection::outgoing(sender, PacketNumberSpace::ApplicationData)
                        + protection::paddings(padding),
                ),
            ),
        ),
    ensures
        ({
            let after = connection::after_egest(sender, PacketNumberSpace::ApplicationData);
            &&& connection::ingest_step(peer, p, ev) matches Some((q, r))
            &&& r == Ok::<_, ConnectionError>(p.len() as usize)
            &&& q.conn.stream_in == peer.stream_in + sender.stream_out
            &&& q.conn.stream_received == after.stream_sent
            &&& after.stream_out.len() == 0
        }),
{
    let id = PacketNumberSpace::ApplicationData;
    let c1 = peer.with_space(id, peer.space(id).after_recv(pn));
    lemma_padding_step(c1, 2, connection::outgoing(sender, id), padding, ev);
    lemma_outgoing_step(c1, sender, id, ev);
}

// ---------------------------------------------------------------------------
// Frames, one by one
// ---------------------------------------------------------------------------

/// Whether a frame is one that a connection acts on.
pub open spec fn is_acted_on(f: FrameModel) -> bool {
    f is Crypto || f is Stream || f is HandshakeDone || f is ConnectionClose
}

/// Law: the frames that a connection does not act on leave it as it was, ask
/// nothing of TLS and meet no error. Wherever such a frame stands in a packet,
/// the packet does what it would do without it.
pub proof fn law_other_frames_ignored(
    c: ConnModel,
    level: int,
    a: Seq<FrameModel>,
    f: FrameModel,
    b: Seq<FrameModel>,
    ev: Seq<TlsEvent>,
)
    requires
        !is_acted_on(f),
    ensures
        connection::frames_step(c, level, seq![f], ev) == (Progress {
            conn: c,
            used: 0,
            error: None,
            fits: true,
        }),
        connection::frames_step(c, level, a + seq![f] + b, ev) == connection::frames_step(
            c,
            level,
            a + b,
            ev,
        ),
    decreases b.len(),
{
    reveal_with_fuel(connection::frames_step, 2);
    assert(seq![f].drop_last() =~= Seq::<FrameModel>::empty());
    let with = a + seq![f] + b;
    let without = a + b;
    if b.len() == 0 {
        assert(with.drop_last() =~= a);
        assert(with.last() == f);
        assert(without =~= a);
    } else {
        law_other_frames_ignored(c, level, a, f, b.drop_last(), ev);
        assert(with.drop_last() =~= a + seq![f] + b.drop_last());
        assert(without.drop_last() =~= a + b.drop_last());
        assert(with.last() == without.last());
    }
}

/// Law: the frames of a packet take effect in order. The first error ends the
/// packet, and what came before it stands; without one, later frames find the
/// connection as the earlier ones left it.
pub proof fn law_frames_in_sequence(
    c: ConnModel,
    level: int,
    a: Seq<FrameModel>,
    b: Seq<FrameModel>,
    ev: Seq<TlsEvent>,
)
    requires
        connection::frames_step(c, level, a + b, ev).used <= ev.len(),
    ensures
        ({
            let p = connection::frames_step(c, level, a, ev);
            let q = connection::frames_step(p.conn, level, b, ev.skip(p.used as int));
            &&& p.used <= connection::frames_step(c, level, a + b, ev).used
            &&& connection::frames_step(c, level, a + b, ev) == if p.error is Some {
                p
            } else {
                Progress {
                    conn: q.conn,
                    used: p.used + q.used,
                    error: q.error,
                    fits: p.fits && q.fits,
                }
            }
        }),
    decreases b.len(),
{
    let all = a + b;
    if b.len() == 0 {
        assert(all =~= a);
    } else {
        assert(all.drop_last() =~= a + b.drop_last());
        assert(all.last() == b.last());
        law_frames_in_sequence(c, level, a, b.drop_last(), ev);
        let p = connection::frames_step(c, level, a, ev);
        let q = connection::frames_step(p.conn, level, b.drop_last(), ev.skip(p.used as int));
        if p.error is None && q.error is None {
            assert(ev.skip(p.used as int).skip(q.used as int) =~= ev.skip(
                (p.used + q.used) as int,
            ));
        }
    }
}

/// Law: HANDSHAKE_DONE establishes a client, and means nothing to a server. It
/// changes nothing else.
pub proof fn law_handshake_done_frame(c: ConnModel, level: int, ev: Seq<TlsEvent>)
    ensures
        connection::frames_step(c, level, seq![FrameModel::HandshakeDone], ev) == (Progress {
            conn: if c.side == Side::Client {
                ConnModel { state: State::Established, ..c }
            } else {
                c
            },
            used: 0,
            error: None,
            fits: true,
        }),
{
    let fs = seq![FrameModel::HandshakeDone];
    reveal_with_fuel(connection::frames_step, 2);
    assert(fs.drop_last() =~= Seq::<FrameModel>::empty());
}

/// Law: a STREAM frame of stream 0 that starts where the data received so far
/// ends adds its data to what the application can take. Any other STREAM frame
/// is dropped. Neither changes anything else.
pub proof fn law_stream_frame(
    c: ConnModel,
    level: int,
    stream_id: u64,
    offset: u64,
    data: Seq<u8>,
    fin: bool,
    ev: Seq<TlsEvent>,
)
    ensures
        ({
            let p = connection::frames_step(
                c,
                level,
                seq![FrameModel::Stream { stream_id, offset, data, fin }],
                ev,
            );
            let d = p.conn;
            &&& p.used == 0
            &&& p.error is None
            &&& p.fits
            &&& stream_id != 0 || offset != c.stream_received ==> d == c
            &&& stream_id == 0 && offset == c.stream_received ==> {
                &&& d.stream_in == c.stream_in + data
                &&& c.stream_received + data.len() <= u64::MAX ==> d.stream_received
                    == c.stream_received + data.len()
                &&& d == (ConnModel {
                    stream_in: d.stream_in,
                    stream_received: d.stream_received,
                    ..c
                })
            }
        }),
{
    let fs = seq![FrameModel::Stream { stream_id, offset, data, fin }];
    reveal_with_fuel(connection::frames_step, 2);
    assert(fs.drop_last() =~= Seq::<FrameModel>::empty());
}

/// Law: a CONNECTION_CLOSE frame closes the connection and leaves behind the
/// transport error that its code stands for, or an internal error where it
/// stands for none. It changes nothing else.
pub proof fn law_close_frame_alone(
    c: ConnModel,
    level: int,
    error_code: u64,
    frame_type: Option<u64>,
    reason: Seq<u8>,
    ev: Seq<TlsEvent>,
)
    ensures
        ({
            let f = FrameModel::ConnectionClose { error_code, frame_type, reason };
            let p = connection::frames_step(c, level, seq![f], ev);
            &&& p.used == 0
            &&& p.error is None
            &&& p.fits
            &&& p.conn == (ConnModel {
                state: State::Closed,
                close_reason: p.conn.close_reason,
                ..c
            })
            &&& p.conn.close_reason matches Some(ConnectionError::Transport(e))
            &&& error::transport_code(e) == error_code || e == TransportError::InternalError && !(
            error_code <= 17 || 256 <= error_code < 512)
        }),
{
    let f = FrameModel::ConnectionClose { error_code, frame_type, reason };
    reveal_with_fuel(connection::frames_step, 2);
    assert(seq![f].drop_last() =~= Seq::<FrameModel>::empty());
    error::law_transport_codes(error_code, 0);
}

/// The keys that TLS hands out with a key change, whichever level it names.
pub open spec fn handed_keys(change: Option<KeyChange>) -> Option<Keys> {
    match change {
        None => None,
        Some(KeyChange::Handshake { keys }) => Some(keys),
        Some(KeyChange::OneRtt { keys }) => Some(keys),
    }
}

/// What a CRYPTO frame leaves alone, whatever TLS makes of it.
pub open spec fn crypto_leaves(c: ConnModel, d: ConnModel) -> bool {
    &&& d.side == c.side
    &&& d.version == c.version
    &&& d.dst_cid == c.dst_cid
    &&& d.src_cid == c.src_cid
    &&& d.initial == c.initial
    &&& d.handshake == (SpaceModel { keys: d.handshake.keys, ..c.handshake })
    &&& d.appdata == (SpaceModel { keys: d.appdata.keys, ..c.appdata })
    &&& d.close_reason == c.close_reason
    &&& d.stream_out == c.stream_out
    &&& d.stream_sent == c.stream_sent
    &&& d.stream_in == c.stream_in
    &&& d.stream_received == c.stream_received
}

/// Law: a CRYPTO frame whose data does not start where the handshake data read
/// at its level ends is dropped: it changes nothing and TLS is not asked. One
/// that does is handed to TLS; where TLS refuses it, the refusal is the error and
/// nothing has changed.
pub proof fn law_crypto_frame_refused(
    c: ConnModel,
    level: int,
    offset: u64,
    data: Seq<u8>,
    ev: Seq<TlsEvent>,
)
    requires
        0 <= level <= 2,
    ensures
        ({
            let p = connection::frames_step(
                c,
                level,
                seq![FrameModel::Crypto { offset, data }],
                ev,
            );
            &&& offset != c.crypto_recv_offset[level] ==> p == (Progress {
                conn: c,
                used: 0,
                error: None,
                fits: true,
            })
            &&& offset == c.crypto_recv_offset[level] ==> {
                &&& p.used > 0
                &&& p.fits ==> (ev[0] matches TlsEvent::Read { data: handed, .. } && handed == data)
                &&& ev[0] matches TlsEvent::Read { outcome: Err(e), .. } ==> p.conn == c && p.used
                    == 1 && p.error == Some(ConnectionError::Tls(e))
                &&& ev[0] matches TlsEvent::Read { outcome: Ok(()), .. } ==> p.error is None
            }
        }),
{
    let fs = seq![FrameModel::Crypto { offset, data }];
    reveal_with_fuel(connection::frames_step, 2);
    assert(fs.drop_last() =~= Seq::<FrameModel>::empty());
    assert(ev.skip(0) =~= ev);
}

/// Law: handshake data that TLS takes moves the end of what was read at its
/// level, and that level's alone, by its length. What TLS has to send in answer
/// is queued at that level, behind what was queued before. Without new keys
/// nothing else happens, and new keys at the level of application data are
/// dropped.
pub proof fn law_crypto_frame_taken(
    c: ConnModel,
    level: int,
    data: Seq<u8>,
    ev: Seq<TlsEvent>,
    out: Seq<u8>,
    change: Option<KeyChange>,
)
    requires
        c.wf(),
        0 <= level <= 2,
        c.crypto_recv_offset[level] + data.len() <= u64::MAX,
        ev.len() >= 2,
        ev[0] == (TlsEvent::Read { data, outcome: Ok(()) }),
        ev[1] == (TlsEvent::Write { out, change }),
    ensures
        ({
            let offset = c.crypto_recv_offset[level];
            let p = connection::frames_step(
                c,
                level,
                seq![FrameModel::Crypto { offset, data }],
                ev,
            );
            let d = p.conn;
            &&& p.error is None
            &&& crypto_leaves(c, d)
            &&& d.wf()
            &&& d.crypto_recv_offset[level] == offset + data.len()
            &&& d.pending_crypto[level] == c.pending_crypto[level] + out
            &&& forall|other: int|
                0 <= other <= 2 && other != level ==> d.crypto_recv_offset[other]
                    == #[trigger] c.crypto_recv_offset[other]
            &&& handed_keys(change) is None || level == 2 ==> {
                &&& p.used == 2
                &&& p.fits
                &&& d.state == c.state
                &&& d.handshake == c.handshake
                &&& d.appdata == c.appdata
                &&& forall|other: int|
                    0 <= other <= 2 && other != level ==> d.pending_crypto[other]
                        == #[trigger] c.pending_crypto[other]
            }
            &&& handed_keys(change) is Some && level < 2 ==> {
                &&& p.used == 3
                &&& ev.len() >= 3 ==> (p.fits <==> ev[2] is Write)
            }
        }),
{
    let offset = c.crypto_recv_offset[level];
    let fs = seq![FrameModel::Crypto { offset, data }];
    reveal_with_fuel(connection::frames_step, 2);
    assert(fs.drop_last() =~= Seq::<FrameModel>::empty());
    assert(ev.skip(0) =~= ev);
    assert(ev.skip(1)[0] == ev[1]);
    if ev.len() >= 3 {
        assert(ev.skip(1)[1] == ev[2]);
    }
}

/// Law: keys that TLS hands out for Initial data become those of the handshake
/// space, unless it has some, and what TLS then has to send is queued as
/// Handshake data. Keys that come with that become those of application data,
/// unless there are some, and that establishes the connection.
pub proof fn law_initial_data_brings_keys(
    c: ConnModel,
    data: Seq<u8>,
    ev: Seq<TlsEvent>,
    out: Seq<u8>,
    change: Option<KeyChange>,
    more: Seq<u8>,
    next: Option<KeyChange>,
)
    requires
        c.wf(),
        c.crypto_recv_offset[0] + data.len() <= u64::MAX,
        ev.len() >= 3,
        ev[0] == (TlsEvent::Read { data, outcome: Ok(()) }),
        ev[1] == (TlsEvent::Write { out, change }),
        ev[2] == (TlsEvent::Write { out: more, change: next }),
        handed_keys(change) is Some,
    ensures
        ({
            let offset = c.crypto_recv_offset[0];
            let p = connection::frames_step(c, 0, seq![FrameModel::Crypto { offset, data }], ev);
            let d = p.conn;
            let established = c.appdata.keys is None && handed_keys(next) is Some;
            &&& p.fits
            &&& d.pending_crypto[0] == c.pending_crypto[0] + out
            &&& d.pending_crypto[1] == c.pending_crypto[1] + more
            &&& d.pending_crypto[2] == c.pending_crypto[2]
            &&& d.handshake.keys == if c.handshake.keys is Some {
                c.handshake.keys
            } else {
                handed_keys(change)
            }
            &&& d.appdata.keys == if established {
                handed_keys(next)
            } else {
                c.appdata.keys
            }
            &&& d.state == if established {
                State::Established
            } else {
                c.state
            }
        }),
{
    let offset = c.crypto_recv_offset[0];
    let fs = seq![FrameModel::Crypto { offset, data }];
    reveal_with_fuel(connection::frames_step, 2);
    assert(fs.drop_last() =~= Seq::<FrameModel>::empty());
    assert(ev.skip(0) =~= ev);
    assert(ev.skip(1)[0] == ev[1]);
    assert(ev.skip(1)[1] == ev[2]);
}

/// Law: keys that TLS hands out for Handshake data become those of application
/// data, unless there are some, and that establishes the connection. What TLS
/// then has to send is queued at the level of application data, and keys that
/// come with that replace those of application data.
pub proof fn law_handshake_data_brings_keys(
    c: ConnModel,
    data: Seq<u8>,
    ev: Seq<TlsEvent>,
    out: Seq<u8>,
    change: Option<KeyChange>,
    more: Seq<u8>,
    next: Option<KeyChange>,
)
    requires
        c.wf(),
        c.crypto_recv_offset[1] + data.len() <= u64::MAX,
        ev.len() >= 3,
        ev[0] == (TlsEvent::Read { data, outcome: Ok(()) }),
        ev[1] == (TlsEvent::Write { out, change }),
        ev[2] == (TlsEvent::Write { out: more, change: next }),
        handed_keys(change) is Some,
    ensures
        ({
            let offset = c.crypto_recv_offset[1];
            let p = connection::frames_step(c, 1, seq![FrameModel::Crypto { offset, data }], ev);
            let d = p.conn;
            &&& p.fits
            &&& d.pending_crypto[0] == c.pending_crypto[0]
            &&& d.pending_crypto[1] == c.pending_crypto[1] + out
            &&& d.pending_crypto[2] == c.pending_crypto[2] + more
            &&& d.handshake == c.handshake
            &&& d.appdata.keys == if handed_keys(next) is Some {
                handed_keys(next)
            } else if c.appdata.keys is Some {
                c.appdata.keys
            } else {
                handed_keys(change)
            }
            &&& d.state == if c.appdata.keys is None {
                State::Established
            } else {
                c.state
            }
        }),
{
    let offset = c.crypto_recv_offset[1];
    let fs = seq![FrameModel::Crypto { offset, data }];
    reveal_with_fuel(connection::frames_step, 2);
    assert(fs.drop_last() =~= Seq::<FrameModel>::empty());
    assert(ev.skip(0) =~= ev);
    assert(ev.skip(1)[0] == ev[1]);
    assert(ev.skip(1)[1] == ev[2]);
}

// ---------------------------------------------------------------------------
// Ingest
// ---------------------------------------------------------------------------

proof fn lemma_stays_open(c: ConnModel, level: int, fs: Seq<FrameModel>, ev: Seq<TlsEvent>)
    requires
        forall|i: int| 0 <= i < fs.len() ==> !(#[trigger] fs[i] is ConnectionClose),
    ensures
        ({
            let d = connection::frames_step(c, level, fs, ev).conn;
            &&& c.state != State::Closed ==> d.state != State::Closed
            &&& d.close_reason == c.close_reason
        }),
    decreases fs.len(),
{
    if fs.len() > 0 {
        assert forall|i: int| 0 <= i < fs.drop_last().len() implies !(
        #[trigger] fs.drop_last()[i] is ConnectionClose) by {
            assert(!(fs[i] is ConnectionClose));
        }
        lemma_stays_open(c, level, fs.drop_last(), ev);
        assert(!(fs[fs.len() - 1] is ConnectionClose));
    }
}

/// Law: a connection becomes closed, and gets a reason for it, only by a
/// CONNECTION_CLOSE frame. A packet that cannot be read, or that holds no such
/// frame, leaves an open connection open.
pub proof fn law_only_close_closes(c: ConnModel, buf: Seq<u8>, ev: Seq<TlsEvent>)
    requires
        c.state != State::Closed,
    ensures
        connection::ingest_step(c, buf, ev) matches Some((p, _)) ==> (p.conn.state == State::Closed
            || p.conn.close_reason != c.close_reason ==> {
            &&& buf.len() > 0
            &&& connection::received(c, buf) matches Some(Ok((_, _, fs)))
            &&& exists|i: int| 0 <= i < fs.len() && #[trigger] fs[i] is ConnectionClose
        }),
{
    if let Some(Ok((id, pn, fs))) = connection::received(c, buf) {
        if forall|i: int| 0 <= i < fs.len() ==> !(#[trigger] fs[i] is ConnectionClose) {
            let c1 = c.with_space(id, c.space(id).after_recv(pn));
            lemma_stays_open(c1, connection::level_of(id), fs, ev);
        }
    }
}

/// Law: which packet is read with which keys. A packet whose first byte is below
/// 0x80 has a short header behind which our connection ID stands; it is one of
/// application data, and its packet number is near the largest received there.
/// The first bytes from 0xc0, 0xd0 and 0xe0 are those of Initial, application and
/// Handshake data. Each is opened with the keys that its own space has for
/// receiving. Nothing else is read.
pub proof fn law_received(c: ConnModel, buf: Seq<u8>)
    requires
        c.wf(),
        buf.len() > 0,
    ensures
        connection::received(c, buf) matches Some(Ok((id, pn, fs))) ==> {
            &&& buf[0] < 0x80 ==> {
                &&& id == PacketNumberSpace::ApplicationData
                &&& buf[0] >= 0x40
                &&& c.appdata.keys matches Some(k)
                &&& protection::opened(
                    crypto::key_material(&k.remote),
                    buf,
                    1 + c.src_cid.len() as int,
                    c.appdata.largest_recv_pn,
                    true,
                ) == Some(Ok::<_, ConnectionError>((pn, fs)))
            }
            &&& buf[0] >= 0x80 ==> {
                &&& 0xc0 <= buf[0] < 0xf0
                &&& id == if buf[0] < 0xd0 {
                    PacketNumberSpace::Initial
                } else if buf[0] < 0xe0 {
                    PacketNumberSpace::ApplicationData
                } else {
                    PacketNumberSpace::Handshake
                }
                &&& (if buf[0] < 0xd0 {
                    c.initial.keys
                } else if buf[0] < 0xe0 {
                    c.appdata.keys
                } else {
                    c.handshake.keys
                }) matches Some(k)
                &&& packet::long_header_at(buf) matches Ok((h, _))
                &&& protection::opened(
                    crypto::key_material(&k.remote),
                    buf,
                    protection::long_pn_offset(h),
                    0,
                    false,
                ) == Some(Ok::<_, ConnectionError>((pn, fs)))
            }
        },
        buf[0] < 0x80 && c.appdata.keys is None ==> connection::received(c, buf) matches Some(
            Err(_),
        ),
        0xc0 <= buf[0] < 0xd0 && c.initial.keys is None ==> connection::received(c, buf) matches Some(
            Err(_),
        ),
        0xe0 <= buf[0] < 0xf0 && c.handshake.keys is None ==> connection::received(c, buf) matches Some(
            Err(_),
        ),
{
    packet::law_long_header_refused(buf);
}

/// Law: a packet that is read is noted in its space, as received and as waiting
/// for an ACK, and then its frames take effect at that space's level. Its whole
/// length is taken, unless one of the frames meets an error, which is then the
/// result.
pub proof fn law_ingest_read(c: ConnModel, buf: Seq<u8>, ev: Seq<TlsEvent>)
    requires
        c.state != State::Closed,
        buf.len() > 0,
        connection::received(c, buf) matches Some(Ok(_)),
    ensures
        ({
            let (id, pn, fs) = connection::received(c, buf)->Some_0->Ok_0;
            let was = match id {
                PacketNumberSpace::Initial => c.initial,
                PacketNumberSpace::Handshake => c.handshake,
                PacketNumberSpace::ApplicationData => c.appdata,
            };
            let now = SpaceModel {
                largest_recv_pn: if was.largest_recv_pn < pn {
                    pn
                } else {
                    was.largest_recv_pn
                },
                pending_acks: was.pending_acks.push(pn),
                received: true,
                ..was
            };
            let p = match id {
                PacketNumberSpace::Initial => connection::frames_step(
                    ConnModel { initial: now, ..c },
                    0,
                    fs,
                    ev,
                ),
                PacketNumberSpace::Handshake => connection::frames_step(
                    ConnModel { handshake: now, ..c },
                    1,
                    fs,
                    ev,
                ),
                PacketNumberSpace::ApplicationData => connection::frames_step(
                    ConnModel { appdata: now, ..c },
                    2,
                    fs,
                    ev,
                ),
            };
            connection::ingest_step(c, buf, ev) == Some(
                (
                    p,
                    match p.error {
                        None => Ok::<usize, ConnectionError>(buf.len() as usize),
                        Some(e) => Err(e),
                    },
                ),
            )
        }),
{
}

/// Law: a packet of no bytes is taken and does nothing.
pub proof fn law_ingest_nothing(c: ConnModel, ev: Seq<TlsEvent>)
    requires
        c.state != State::Closed,
    ensures
        connection::ingest_step(c, Seq::<u8>::empty(), ev) == Some(
            (
                Progress { conn: c, used: 0, error: None, fits: true },
                Ok::<usize, ConnectionError>(0),
            ),
        ),
{
}

// ---------------------------------------------------------------------------
// Egest
// ---------------------------------------------------------------------------

/// The space of an identifier.
pub open spec fn space_of(c: ConnModel, id: PacketNumberSpace) -> SpaceModel {
    match id {
        PacketNumberSpace::Initial => c.initial,
        PacketNumberSpace::Handshake => c.handshake,
        PacketNumberSpace::ApplicationData => c.appdata,
    }
}

/// The handshake data that waits to be sent in a space.
pub open spec fn crypto_waiting(c: ConnModel, id: PacketNumberSpace) -> Seq<u8> {
    match id {
        PacketNumberSpace::Initial => c.pending_crypto[0],
        PacketNumberSpace::Handshake => c.pending_crypto[1],
        PacketNumberSpace::ApplicationData => c.pending_crypto[2],
    }
}

/// Whether a connection is a server's that has yet to confirm the handshake.
pub open spec fn is_unconfirmed(c: ConnModel) -> bool {
    c.side == Side::Server && c.state == State::Handshaking
}

/// Whether a space has keys and anything to send: handshake data, packet numbers
/// to acknowledge, and with application data the confirmation of the handshake
/// or what the application has queued.
pub open spec fn has_to_send(c: ConnModel, id: PacketNumberSpace) -> bool {
    &&& space_of(c, id).keys is Some
    &&& {
        ||| crypto_waiting(c, id).len() > 0
        ||| space_of(c, id).pending_acks.len() > 0
        ||| id == PacketNumberSpace::ApplicationData && (is_unconfirmed(c) || c.stream_out.len()
            > 0)
    }
}

proof fn lemma_largest(pns: Seq<u64>)
    ensures
        pns.len() > 0 ==> pns.contains(connection::largest_of(pns)),
        forall|i: int| 0 <= i < pns.len() ==> #[trigger] pns[i] <= connection::largest_of(pns),
    decreases pns.len(),
{
    if pns.len() > 0 {
        let before = pns.drop_last();
        lemma_largest(before);
        assert(pns[pns.len() - 1] == pns.last());
        if before.len() > 0 {
            let i = choose|i: int| 0 <= i < before.len() && before[i] == connection::largest_of(
                before,
            );
            assert(pns[i] == before[i]);
        }
        assert forall|i: int| 0 <= i < pns.len() implies #[trigger] pns[i]
            <= connection::largest_of(pns) by {
            if i < before.len() {
                assert(before[i] == pns[i]);
            }
        }
    }
}

/// Whether an ACK frame acknowledges the packet numbers of a list: the largest
/// is one of them and at least every one of them, and its one range counts them.
pub open spec fn acknowledges(f: FrameModel, acks: Seq<u64>) -> bool {
    &&& f matches FrameModel::Ack { largest_ack, ack_delay, ranges, ecn }
    &&& acks.contains(largest_ack)
    &&& forall|i: int| 0 <= i < acks.len() ==> #[trigger] acks[i] <= largest_ack
    &&& ranges.len() == 1
    &&& ranges[0].gap == 0
    &&& ranges[0].range + 1 == acks.len()
    &&& ack_delay == 0
    &&& ecn is None
}

/// Law: what is sent in a space, and nothing else: all the handshake data that
/// waits, in one CRYPTO frame; one ACK of every packet number that waits for one;
/// and with application data the confirmation of the handshake, if it is owed,
/// and all that the application has queued, in one STREAM frame of stream 0 that
/// starts where the data sent before ended. They come in this order, each at most
/// once, and each only where there is something for it to carry.
pub proof fn law_outgoing(c: ConnModel, id: PacketNumberSpace)
    requires
        space_of(c, id).pending_acks.len() <= u64::MAX,
    ensures
        ({
            let fs = connection::outgoing(c, id);
            let data = crypto_waiting(c, id);
            let acks = space_of(c, id).pending_acks;
            let app = id == PacketNumberSpace::ApplicationData;
            let a = if data.len() > 0 {
                1int
            } else {
                0
            };
            let b = a + if acks.len() > 0 {
                1int
            } else {
                0
            };
            let d = b + if app && is_unconfirmed(c) {
                1int
            } else {
                0
            };
            let e = d + if app && c.stream_out.len() > 0 {
                1int
            } else {
                0
            };
            &&& fs.len() == e
            &&& data.len() > 0 ==> fs[0] == (FrameModel::Crypto { offset: 0, data })
            &&& acks.len() > 0 ==> acknowledges(fs[a], acks)
            &&& app && is_unconfirmed(c) ==> fs[b] == FrameModel::HandshakeDone
            &&& app && c.stream_out.len() > 0 ==> fs[d] == (FrameModel::Stream {
                stream_id: 0,
                offset: c.stream_sent,
                data: c.stream_out,
                fin: false,
            })
        }),
{
    lemma_largest(space_of(c, id).pending_acks);
}

/// Law: the packet of an open connection comes from the first space that has
/// something to send: Initial before Handshake before application data. Where
/// none has, there is no packet, and nothing changes.
pub proof fn law_egest_order(c: ConnModel, room: nat)
    requires
        c.state != State::Closed,
    ensures
        connection::sending_space(c) == if has_to_send(c, PacketNumberSpace::Initial) {
            Some(PacketNumberSpace::Initial)
        } else if has_to_send(c, PacketNumberSpace::Handshake) {
            Some(PacketNumberSpace::Handshake)
        } else if has_to_send(c, PacketNumberSpace::ApplicationData) {
            Some(PacketNumberSpace::ApplicationData)
        } else {
            None
        },
        (forall|id: PacketNumberSpace| !has_to_send(c, id)) ==> connection::egest_step(c, room)
            == Some((c, Ok::<Seq<u8>, ConnectionError>(Seq::empty()))),
        forall|id: PacketNumberSpace| #[trigger]
            has_to_send(c, id) && space_of(c, id).next_send_pn < u64::MAX ==> !(
            connection::egest_step(c, room) matches Some((_, Ok(p))) && p.len() == 0),
{
    assert forall|id: PacketNumberSpace| true implies has_to_send(c, id) == #[trigger] connection::ready(
        c,
        id,
    ) by {
        lemma_outgoing_some(c, id);
    }
    assert(connection::ready(c, PacketNumberSpace::Initial) == has_to_send(
        c,
        PacketNumberSpace::Initial,
    ));
    assert(connection::ready(c, PacketNumberSpace::Handshake) == has_to_send(
        c,
        PacketNumberSpace::Handshake,
    ));
    assert(connection::ready(c, PacketNumberSpace::ApplicationData) == has_to_send(
        c,
        PacketNumberSpace::ApplicationData,
    ));
    law_egest_idle(c, room);
}

proof fn lemma_outgoing_some(c: ConnModel, id: PacketNumberSpace)
    ensures
        connection::outgoing(c, id).len() > 0 <==> {
            ||| crypto_waiting(c, id).len() > 0
            ||| space_of(c, id).pending_acks.len() > 0
            ||| id == PacketNumberSpace::ApplicationData && (is_unconfirmed(c) || c.stream_out.len()
                > 0)
        },
{
}

/// Law: the packet that a space sends has the space's next packet number, is
/// sealed with its keys for sending, and carries what waits in it, to the peer's
/// connection ID and from ours. With it that space has sent one packet more,
/// nothing more waits in it, and a server that confirmed the handshake is
/// established. Nothing else changes.
pub proof fn law_egest_effect(c: ConnModel, room: nat, id: PacketNumberSpace)
    requires
        c.wf(),
        c.state != State::Closed,
        connection::sending_space(c) == Some(id),
        space_of(c, id).next_send_pn < u64::MAX,
    ensures
        ({
            let was = space_of(c, id);
            let app = id == PacketNumberSpace::ApplicationData;
            let made = protection::packet_for(
                was.keys,
                id,
                c.version,
                c.dst_cid,
                c.src_cid,
                connection::outgoing(c, id),
                was.next_send_pn,
                protection::pn_len_for(was.next_send_pn),
                c.state == State::Established,
            );
            &&& connection::egest_step(c, room) matches Some((d, r))
            &&& match made {
                Err(e) => r == Err::<Seq<u8>, _>(e),
                Ok(p) => if p.len() <= room {
                    r == Ok::<_, ConnectionError>(p)
                } else {
                    r is Err && d == c
                },
            }
            &&& (made is Err || made->Ok_0.len() <= room) ==> {
                &&& space_of(d, id) == (SpaceModel {
                    next_send_pn: (was.next_send_pn + 1) as u64,
                    pending_acks: Seq::empty(),
                    ..was
                })
                &&& forall|other: PacketNumberSpace|
                    other != id ==> #[trigger] space_of(d, other) == space_of(c, other)
                &&& crypto_waiting(d, id).len() == 0
                &&& forall|other: PacketNumberSpace|
                    other != id ==> #[trigger] crypto_waiting(d, other) == crypto_waiting(c, other)
                &&& d.state == if app && is_unconfirmed(c) {
                    State::Established
                } else {
                    c.state
                }
                &&& d.stream_out == if app {
                    Seq::empty()
                } else {
                    c.stream_out
                }
                &&& !app ==> d.stream_sent == c.stream_sent
                &&& app && c.stream_sent + c.stream_out.len() <= u64::MAX ==> d.stream_sent
                    == c.stream_sent + c.stream_out.len()
                &&& d.side == c.side
                &&& d.version == c.version
                &&& d.dst_cid == c.dst_cid
                &&& d.src_cid == c.src_cid
                &&& d.crypto_recv_offset == c.crypto_recv_offset
                &&& d.close_reason == c.close_reason
                &&& d.stream_in == c.stream_in
                &&& d.stream_received == c.stream_received
                &&& d.wf()
            }
        }),
{
    law_egest_idle(c, room);
}

// ---------------------------------------------------------------------------
// The start of a connection
// ---------------------------------------------------------------------------

/// Law: a client starts with the connection IDs that it drew and QUIC version 1.
/// It has sent its first Initial packet, whose handshake data is gone, and has
/// received nothing.
pub proof fn law_client_start(dst_cid: Seq<u8>, src_cid: Seq<u8>, keys: Keys)
    ensures
        ({
            let c = connection::client_start(dst_cid, src_cid, keys);
            &&& c.side == Side::Client
            &&& c.state == State::Connecting
            &&& c.version == 1
            &&& c.dst_cid == dst_cid
            &&& c.src_cid == src_cid
            &&& c.initial.keys == Some(keys)
            &&& c.initial.next_send_pn == 1
            &&& c.handshake.keys is None
            &&& c.handshake.next_send_pn == 0
            &&& c.appdata.keys is None
            &&& c.appdata.next_send_pn == 0
            &&& forall|id: PacketNumberSpace|
                {
                    &&& (#[trigger] space_of(c, id)).id == id
                    &&& space_of(c, id).pending_acks.len() == 0
                    &&& space_of(c, id).largest_recv_pn == 0
                    &&& !space_of(c, id).received
                    &&& crypto_waiting(c, id).len() == 0
                }
            &&& c.crypto_recv_offset == seq![0u64, 0, 0]
            &&& c.close_reason is None
            &&& c.stream_out.len() == 0
            &&& c.stream_in.len() == 0
            &&& c.stream_sent == 0
            &&& c.stream_received == 0
        }),
{
}

/// Law: a server that accepts a client's packet answers to the client's source
/// ID under the client's destination ID, in the client's version. It has read
/// all of the ClientHello, owes an ACK of packet number 0, and has queued what
/// TLS had to send: first as Initial data, and where that came with keys, under
/// them, as Handshake data. Keys that came with that are for application data.
pub proof fn law_server_start(
    h: LongModel,
    keys: Keys,
    hello: Seq<u8>,
    ev: Seq<TlsEvent>,
    out: Seq<u8>,
    change: Option<KeyChange>,
    more: Seq<u8>,
    next: Option<KeyChange>,
)
    requires
        hello.len() <= u64::MAX,
        ev.len() >= 2,
        ev[1] == (TlsEvent::Write { out, change }),
        handed_keys(change) is Some ==> ev.len() >= 3 && ev[2] == (TlsEvent::Write {
            out: more,
            change: next,
        }),
    ensures
        ({
            let c = connection::server_start(h, keys, hello, ev);
            let two = handed_keys(change) is Some;
            &&& c.side == Side::Server
            &&& c.state == State::Handshaking
            &&& c.version == h.version
            &&& c.dst_cid == h.src_cid
            &&& c.src_cid == h.dst_cid
            &&& c.initial.keys == Some(keys)
            &&& c.initial.pending_acks == seq![0u64]
            &&& c.initial.received
            &&& c.initial.largest_recv_pn == 0
            &&& c.handshake.keys == handed_keys(change)
            &&& c.handshake.pending_acks.len() == 0
            &&& c.appdata.keys == if two {
                handed_keys(next)
            } else {
                None
            }
            &&& c.appdata.pending_acks.len() == 0
            &&& forall|id: PacketNumberSpace|
                (#[trigger] space_of(c, id)).id == id && space_of(c, id).next_send_pn == 0
            &&& crypto_waiting(c, PacketNumberSpace::Initial) == out
            &&& crypto_waiting(c, PacketNumberSpace::Handshake) == if two {
                more
            } else {
                Seq::empty()
            }
            &&& crypto_waiting(c, PacketNumberSpace::ApplicationData).len() == 0
            &&& c.crypto_recv_offset[0] == hello.len()
            &&& c.crypto_recv_offset[1] == 0
            &&& c.crypto_recv_offset[2] == 0
            &&& c.close_reason is None
            &&& c.stream_out.len() == 0
            &&& c.stream_in.len() == 0
            &&& c.stream_sent == 0
            &&& c.stream_received == 0
        }),
{
}

/// Law: the handshake data that a server takes from a packet is that of the
/// CRYPTO frames at offset 0, in order. Frames of any other kind or offset add
/// nothing.
pub proof fn law_hello_in(a: Seq<FrameModel>, f: FrameModel, b: Seq<FrameModel>)
    ensures
        connection::hello_in(a + b) == connection::hello_in(a) + connection::hello_in(b),
        connection::hello_in(Seq::<FrameModel>::empty()) == Seq::<u8>::empty(),
        connection::hello_in(seq![f]) == match f {
            FrameModel::Crypto { offset, data } => if offset == 0 {
                data
            } else {
                Seq::empty()
            },
            _ => Seq::empty(),
        },
    decreases b.len(),
{
    reveal_with_fuel(connection::hello_in, 2);
    assert(seq![f].drop_last() =~= Seq::<FrameModel>::empty());
    if let FrameModel::Crypto { offset, data } = f {
        assert(Seq::<u8>::empty() + data =~= data);
    }
    let all = a + b;
    if b.len() == 0 {
        assert(all =~= a);
        assert(connection::hello_in(a) + Seq::<u8>::empty() =~= connection::hello_in(a));
    } else {
        law_hello_in(a, f, b.drop_last());
        assert(all.drop_last() =~= a + b.drop_last());
        assert(all.last() == b.last());
        if let FrameModel::Crypto { offset, data } = b.last() {
            assert(connection::hello_in(a) + connection::hello_in(b.drop_last()) + data
                =~= connection::hello_in(a) + (connection::hello_in(b.drop_last()) + data));
        }
    }
}

/// Frames whose handshake data is not due change no handshake state.
proof fn lemma_nothing_due(c: ConnModel, fs: Seq<FrameModel>, ev: Seq<TlsEvent>)
    requires
        c.side == Side::Server,
        forall|i: int|
            0 <= i < fs.len() ==> (#[trigger] fs[i] matches FrameModel::Crypto { offset, .. }
                ==> offset != c.crypto_recv_offset[0]),
    ensures
        ({
            let p = connection::frames_step(c, 0, fs, ev);
            &&& p.used == 0
            &&& p.error is None
            &&& p.fits
            &&& p.conn == (ConnModel {
                state: p.conn.state,
                close_reason: p.conn.close_reason,
                stream_in: p.conn.stream_in,
                stream_received: p.conn.stream_received,
                ..c
            })
            &&& (forall|i: int| 0 <= i < fs.len() ==> !is_acted_on(#[trigger] fs[i]) || fs[i] is Crypto)
                ==> p.conn == c
        }),
    decreases fs.len(),
{
    if fs.len() > 0 {
        let before = fs.drop_last();
        assert forall|i: int| 0 <= i < before.len() implies (
        #[trigger] before[i] matches FrameModel::Crypto { offset, .. } ==> offset
            != c.crypto_recv_offset[0]) by {
            assert(before[i] == fs[i]);
        }
        lemma_nothing_due(c, before, ev);
        assert(fs.last() == fs[fs.len() - 1]);
        if forall|i: int| 0 <= i < fs.len() ==> !is_acted_on(#[trigger] fs[i]) || fs[i] is Crypto {
            assert forall|i: int| 0 <= i < before.len() implies !is_acted_on(#[trigger] before[i])
                || before[i] is Crypto by {
                assert(before[i] == fs[i]);
            }
        }
    }
}

/// Law: a server that accepted an Initial packet has read the handshake data of
/// it. Ingesting that packet again asks nothing of TLS, moves no handshake data
/// and no keys, and takes its whole length: all that is noted is that it was
/// received. Packets with a CRYPTO frame that starts where the data at offset 0
/// ends hold more data than the server has read, and are another matter.
pub proof fn law_accepted_packet_again(
    packet: Seq<u8>,
    keys: Keys,
    ev: Seq<TlsEvent>,
    again: Seq<TlsEvent>,
    pn: u64,
    fs: Seq<FrameModel>,
)
    requires
        packet::long_header_at(packet) matches Ok((h, _)) && h.ty == LongType::Initial
            && crypto::are_initial_keys(keys, h.dst_cid, false) && protection::opened_long(
            crypto::initial_material(0, h.dst_cid, true),
            packet,
            protection::long_pn_offset(h),
        ) == Ok::<_, ConnectionError>((pn, fs)),
        connection::hello_in(fs).len() <= u64::MAX,
        forall|i: int|
            0 <= i < fs.len() ==> (#[trigger] fs[i] matches FrameModel::Crypto { offset, .. }
                ==> offset != connection::hello_in(fs).len()),
    ensures
        ({
            let h = packet::long_header_at(packet)->Ok_0.0;
            let c = connection::server_start(h, keys, connection::hello_in(fs), ev);
            &&& connection::ingest_step(c, packet, again) matches Some((p, r))
            &&& r == Ok::<usize, ConnectionError>(packet.len() as usize)
            &&& p.used == 0
            &&& p.conn.crypto_recv_offset == c.crypto_recv_offset
            &&& p.conn.pending_crypto == c.pending_crypto
            &&& p.conn.initial.keys == c.initial.keys
            &&& p.conn.initial.pending_acks == c.initial.pending_acks.push(pn)
            &&& p.conn.handshake == c.handshake
            &&& p.conn.appdata == c.appdata
            &&& (forall|i: int| 0 <= i < fs.len() ==> !(#[trigger] fs[i] is ConnectionClose))
                ==> p.conn.state == c.state
            &&& (forall|i: int|
                0 <= i < fs.len() ==> !is_acted_on(#[trigger] fs[i]) || fs[i] is Crypto)
                ==> p.conn == (ConnModel { initial: p.conn.initial, ..c })
        }),
{
    let h = packet::long_header_at(packet)->Ok_0.0;
    let hello = connection::hello_in(fs);
    let c = connection::server_start(h, keys, hello, ev);
    packet::law_long_header_refused(packet);
    assert(connection::received(c, packet) == Some(
        Ok::<_, ConnectionError>((PacketNumberSpace::Initial, pn, fs)),
    ));
    law_ingest_read(c, packet, again);
    let c1 = c.with_space(PacketNumberSpace::Initial, c.initial.after_recv(pn));
    assert(c1.crypto_recv_offset[0] == hello.len());
    lemma_nothing_due(c1, fs, again);
    if forall|i: int| 0 <= i < fs.len() ==> !(#[trigger] fs[i] is ConnectionClose) {
        lemma_server_state_kept(c1, fs, again);
    }
}

proof fn lemma_server_state_kept(c: ConnModel, fs: Seq<FrameModel>, ev: Seq<TlsEvent>)
    requires
        c.side == Side::Server,
        forall|i: int|
            0 <= i < fs.len() ==> (#[trigger] fs[i] matches FrameModel::Crypto { offset, .. }
                ==> offset != c.crypto_recv_offset[0]),
        forall|i: int| 0 <= i < fs.len() ==> !(#[trigger] fs[i] is ConnectionClose),
    ensures
        connection::frames_step(c, 0, fs, ev).conn.state == c.state,
    decreases fs.len(),
{
    if fs.len() > 0 {
        let before = fs.drop_last();
        assert forall|i: int| 0 <= i < before.len() implies (
        #[trigger] before[i] matches FrameModel::Crypto { offset, .. } ==> offset
            != c.crypto_recv_offset[0]) && !(before[i] is ConnectionClose) by {
            assert(before[i] == fs[i]);
        }
        lemma_nothing_due(c, before, ev);
        lemma_server_state_kept(c, before, ev);
        assert(fs.last() == fs[fs.len() - 1]);
    }
}

/// Law: a client and the server that accepts its first packet fit together. Each
/// sends to the ID that the other has for itself, in the same version, and opens
/// with the material that the other seals with. The server has read as much
/// handshake data as the client has sent, and owes an ACK of the one packet that
/// the client has sent. The packet is no news to the server: to ingest it, as
/// when it comes twice, notes that it came and does nothing else.
pub proof fn law_connect_accept(
    p: Seq<u8>,
    dst_cid: Seq<u8>,
    src_cid: Seq<u8>,
    hello: Seq<u8>,
    client_keys: Keys,
    server_keys: Keys,
    ev: Seq<TlsEvent>,
    again: Seq<TlsEvent>,
)
    requires
        connection::is_first_packet(p, dst_cid, src_cid, hello),
        0 < hello.len() <= u64::MAX,
        crypto::are_initial_keys(client_keys, dst_cid, true),
        crypto::are_initial_keys(server_keys, dst_cid, false),
    ensures
        ({
            let client = connection::client_start(dst_cid, src_cid, client_keys);
            let h = packet::long_header_at(p)->Ok_0.0;
            let server = connection::server_start(h, server_keys, hello, ev);
            &&& server.dst_cid == client.src_cid
            &&& server.src_cid == client.dst_cid
            &&& server.version == client.version
            &&& crypto::key_material(&client_keys.local) == crypto::key_material(
                &server_keys.remote,
            )
            &&& crypto::key_material(&server_keys.local) == crypto::key_material(
                &client_keys.remote,
            )
            &&& server.crypto_recv_offset[0] == hello.len()
            &&& server.initial.pending_acks == seq![0u64]
            &&& client.initial.next_send_pn == 1
            &&& connection::ingest_step(server, p, again) matches Some((q, r))
            &&& r == Ok::<usize, ConnectionError>(p.len() as usize)
            &&& q.used == 0
            &&& q.conn == (ConnModel {
                initial: SpaceModel {
                    pending_acks: seq![0u64, 0],
                    ..server.initial
                },
                ..server
            })
        }),
{
    law_first_packet_hello(p, dst_cid, src_cid, hello);
    crypto::law_initial_keys_match(client_keys, server_keys, dst_cid);
    let (h, _) = packet::long_header_at(p)->Ok_0;
    let (pn, fs) = protection::opened_long(
        crypto::initial_material(0, dst_cid, true),
        p,
        protection::long_pn_offset(h),
    )->Ok_0;
    assert forall|i: int| 0 <= i < fs.len() implies (
    #[trigger] fs[i] matches FrameModel::Crypto { offset, .. } ==> offset != hello.len()) && (
    !is_acted_on(fs[i]) || fs[i] is Crypto) by {
        if i > 0 {
            assert(fs[i] == FrameModel::Padding);
        }
    }
    law_accepted_packet_again(p, server_keys, ev, again, pn, fs);
    let server = connection::server_start(h, server_keys, hello, ev);
    assert(server.initial.pending_acks =~= seq![0u64]);
    assert(seq![0u64].push(0) =~= seq![0u64, 0]);
    law_ingest_read(server, p, again);
    lemma_nothing_due(server.with_space(PacketNumberSpace::Initial, server.initial.after_recv(pn)), fs, again);
}

// ---------------------------------------------------------------------------
// Calls
// ---------------------------------------------------------------------------

/// Law: no packet is longer than the room that there is for it.
pub proof fn law_egest_fits(c: ConnModel, room: nat)
    ensures
        connection::egest_step(c, room) matches Some((_, Ok(p))) ==> p.len() <= room,
{
}

/// Law: data that the application sends is queued behind what it sent before.
/// Nothing else changes.
pub proof fn law_send_data(c: &mut Connection, data: &[u8])
    requires
        call_ensures(Connection::send_data, (c, data), ()),
    ensures
        final(c)@.stream_out == old(c)@.stream_out + data@,
        final(c)@ == (ConnModel { stream_out: final(c)@.stream_out, ..old(c)@ }),
        final(c).tls_log() == old(c).tls_log(),
{
}

/// Law: data that the application takes is what it received first. It gets as
/// much as there is, or as there is room for; the rest stays, in order, to be
/// taken next. Nothing else changes.
pub proof fn law_recv_data(c: &mut Connection, buf: &mut [u8], n: usize)
    requires
        call_ensures(Connection::recv_data, (c, buf), n),
    ensures
        n <= old(buf)@.len(),
        n <= old(c)@.stream_in.len(),
        n == old(buf)@.len() || n == old(c)@.stream_in.len(),
        final(buf)@.len() == old(buf)@.len(),
        final(buf)@.take(n as int) + final(c)@.stream_in == old(c)@.stream_in,
        final(buf)@.skip(n as int) == old(buf)@.skip(n as int),
        final(c)@ == (ConnModel { stream_in: final(c)@.stream_in, ..old(c)@ }),
        final(c).tls_log() == old(c).tls_log(),
{
    let was = old(c)@.stream_in;
    assert(final(buf)@.take(n as int) =~= was.take(n as int));
    assert(was.take(n as int) + was.skip(n as int) =~= was);
    assert(final(buf)@.skip(n as int) =~= old(buf)@.skip(n as int));
}

/// Law: a call of [`Connection::ingest`] with a packet that holds no
/// CONNECTION_CLOSE frame leaves an open connection open. With a packet that
/// holds only frames that a connection does not act on, it takes the packet's
/// length, asks nothing of TLS, and changes nothing but what is noted of its
/// space.
///
/// [`Connection::ingest`]: crate::connection::Connection::ingest
pub proof fn law_ingest_stays_open(
    c: &mut Connection,
    buf: &[u8],
    r: Result<usize, ConnectionError>,
    id: PacketNumberSpace,
    pn: u64,
    fs: Seq<FrameModel>,
)
    requires
        old(c).wf(),
        old(c)@.state != State::Closed,
        buf@.len() > 0,
        connection::received(old(c)@, buf@) == Some(Ok::<_, ConnectionError>((id, pn, fs))),
        call_ensures(Connection::ingest, (c, buf), r),
    ensures
        (forall|i: int| 0 <= i < fs.len() ==> !(#[trigger] fs[i] is ConnectionClose))
            ==> final(c)@.state != State::Closed && final(c)@.close_reason
            == old(c)@.close_reason,
        (forall|i: int| 0 <= i < fs.len() ==> !is_acted_on(#[trigger] fs[i])) ==> {
            &&& r == Ok::<usize, ConnectionError>(buf@.len() as usize)
            &&& final(c).tls_log() == old(c).tls_log()
            &&& final(c)@ == (ConnModel {
                initial: final(c)@.initial,
                handshake: final(c)@.handshake,
                appdata: final(c)@.appdata,
                ..old(c)@
            })
            &&& forall|other: PacketNumberSpace|
                {
                    &&& (#[trigger] space_of(final(c)@, other)).keys == space_of(
                        old(c)@,
                        other,
                    ).keys
                    &&& other != id ==> space_of(final(c)@, other) == space_of(old(c)@, other)
                }
        },
{
    let log = old(c).tls_log();
    let ev = final(c).tls_log().skip(log.len() as int);
    law_only_close_closes(old(c)@, buf@, ev);
    law_ingest_read(old(c)@, buf@, ev);
    if forall|i: int| 0 <= i < fs.len() ==> !is_acted_on(#[trigger] fs[i]) {
        let c1 = old(c)@.with_space(id, old(c)@.space(id).after_recv(pn));
        lemma_none_acted_on(c1, connection::level_of(id), fs, ev);
        assert(log + ev =~= log);
    }
}

proof fn lemma_none_acted_on(c: ConnModel, level: int, fs: Seq<FrameModel>, ev: Seq<TlsEvent>)
    requires
        forall|i: int| 0 <= i < fs.len() ==> !is_acted_on(#[trigger] fs[i]),
    ensures
        connection::frames_step(c, level, fs, ev) == (Progress {
            conn: c,
            used: 0,
            error: None,
            fits: true,
        }),
    decreases fs.len(),
{
    if fs.len() > 0 {
        let before = fs.drop_last();
        assert forall|i: int| 0 <= i < before.len() implies !is_acted_on(#[trigger] before[i]) by {
            assert(before[i] == fs[i]);
        }
        lemma_none_acted_on(c, level, before, ev);
        assert(!is_acted_on(fs[fs.len() - 1]));
    }
}

/// Law: a call of [`Connection::accept`] with a client's first packet, and then
/// one of [`Connection::ingest`] with the same packet: it takes the packet's
/// length, asks nothing of TLS, and leaves the handshake as it was.
///
/// [`Connection::accept`]: crate::connection::Connection::accept
/// [`Connection::ingest`]: crate::connection::Connection::ingest
pub proof fn law_accept_ingest(
    packet: &[u8],
    config: Arc<ServerConfig>,
    accepted: Connection,
    c: &mut Connection,
    r: Result<usize, ConnectionError>,
    dst_cid: Seq<u8>,
    src_cid: Seq<u8>,
    hello: Seq<u8>,
)
    requires
        connection::is_first_packet(packet@, dst_cid, src_cid, hello),
        0 < hello.len() <= u64::MAX,
        call_ensures(
            Connection::accept,
            (packet, config),
            Ok::<Connection, ConnectionError>(accepted),
        ),
        *old(c) == accepted,
        call_ensures(Connection::ingest, (c, packet), r),
    ensures
        r == Ok::<usize, ConnectionError>(packet@.len() as usize),
        final(c).tls_log() == old(c).tls_log(),
        final(c)@ == (ConnModel { initial: final(c)@.initial, ..old(c)@ }),
        old(c)@.crypto_recv_offset[0] == hello.len(),
        old(c)@.dst_cid == src_cid,
        old(c)@.src_cid == dst_cid,
{
    law_first_packet_hello(packet@, dst_cid, src_cid, hello);
    let (h, _) = packet::long_header_at(packet@)->Ok_0;
    let keys = accepted@.initial.keys->Some_0;
    let (pn, fs) = protection::opened_long(
        crypto::initial_material(0, dst_cid, true),
        packet@,
        protection::long_pn_offset(h),
    )->Ok_0;
    let log = old(c).tls_log();
    let again = final(c).tls_log().skip(log.len() as int);
    assert forall|i: int| 0 <= i < fs.len() implies (
    #[trigger] fs[i] matches FrameModel::Crypto { offset, .. } ==> offset != hello.len()) && (
    !is_acted_on(fs[i]) || fs[i] is Crypto) by {
        if i > 0 {
            assert(fs[i] == FrameModel::Padding);
        }
    }
    law_accepted_packet_again(packet@, keys, log, again, pn, fs);
    assert(log + again =~= log);
}

/// Law: a call of [`Connection::egest`] that gives a packet: it is one that the
/// peer opens to the packet number and the frames of the first space that had
/// something to send, and nothing more waits in that space. A call that gives
/// none finds nothing to send, and changes nothing.
///
/// [`Connection::egest`]: crate::connection::Connection::egest
pub proof fn law_egest_call(c: &mut Connection, buf: &mut [u8], n: usize)
    requires
        old(c).wf(),
        call_ensures(Connection::egest, (c, buf), Ok::<usize, ConnectionError>(n)),
    ensures
        old(c)@.state != State::Closed,
        n <= old(buf)@.len(),
        final(c).tls_log() == old(c).tls_log(),
        n == 0 ==> final(c)@ == old(c)@ && forall|id: PacketNumberSpace| !#[trigger] has_to_send(
            old(c)@,
            id,
        ),
        n > 0 ==> {
            &&& connection::sending_space(old(c)@) matches Some(id)
            &&& has_to_send(old(c)@, id)
            &&& !has_to_send(final(c)@, id)
            &&& connection::sent_packet_opens(old(c)@, id, final(buf)@.take(n as int))
            &&& space_of(final(c)@, id).next_send_pn == space_of(old(c)@, id).next_send_pn + 1
        },
{
    let m = old(c)@;
    let room = old(buf)@.len();
    law_egest_order(m, room);
    law_egest_fits(m, room);
    if n == 0 {
        assert forall|id: PacketNumberSpace| !#[trigger] has_to_send(m, id) by {
            match id {
                PacketNumberSpace::Initial => {},
                PacketNumberSpace::Handshake => {},
                PacketNumberSpace::ApplicationData => {},
            }
        }
    } else if let Some(id) = connection::sending_space(m) {
        law_egest_effect(m, room, id);
    }
}

/// Law: what a connection says of itself.
pub proof fn law_queries(
    c: &Connection,
    established: bool,
    closed: bool,
    reason: Option<&ConnectionError>,
    version: u32,
)
    requires
        call_ensures(Connection::is_established, (c,), established),
        call_ensures(Connection::is_closed, (c,), closed),
        call_ensures(Connection::close_reason, (c,), reason),
        call_ensures(Connection::version, (c,), version),
    ensures
        established <==> c@.state == State::Established,
        closed <==> c@.state == State::Closed,
        !(established && closed),
        reason is Some <==> c@.close_reason is Some,
        reason matches Some(e) ==> c@.close_reason == Some(*e),
        version == c@.version,
{
}

/// Law: a call of [`Connection::connect`] that succeeds gives a client of QUIC
/// version 1 with connection IDs of 8 bytes, and as its first packet one of at
/// least 1200 bytes that a server reads as an Initial packet with these IDs, and
/// opens to packet number 0 and the ClientHello that TLS wrote.
///
/// [`Connection::connect`]: crate::connection::Connection::connect
pub proof fn law_connect_call(
    name: &str,
    config: Arc<ClientConfig>,
    conn: Connection,
    p: Vec<u8>,
)
    requires
        call_ensures(
            Connection::connect,
            (name, config),
            Ok::<(Connection, Vec<u8>), ConnectionError>((conn, p)),
        ),
    ensures
        conn@.side == Side::Client,
        conn@.version == 1,
        conn@.dst_cid.len() == 8,
        conn@.src_cid.len() == 8,
        conn@.initial.next_send_pn == 1,
        p@.len() >= 1200,
        conn.tls_log().len() == 1,
        conn.tls_log()[0] matches TlsEvent::Write { out, .. } && connection::is_first_packet(
            p@,
            conn@.dst_cid,
            conn@.src_cid,
            out,
        ),
        conn@.initial.keys matches Some(k) && crypto::are_initial_keys(k, conn@.dst_cid, true),
{
}

/// Law: a call of [`Connection::process_frames`] with one CONNECTION_CLOSE frame
/// closes the connection; with one frame that a connection does not act on, it
/// does nothing.
///
/// [`Connection::process_frames`]: crate::connection::Connection::process_frames
pub proof fn law_process_one_frame(
    c: &mut Connection,
    frames: &Vec<Frame>,
    id: PacketNumberSpace,
    r: Result<(), ConnectionError>,
)
    requires
        frames@.len() == 1,
        call_ensures(Connection::process_frames, (c, frames, id), r),
    ensures
        frames@[0]@ is ConnectionClose ==> r is Ok && final(c)@.state == State::Closed
            && final(c)@.close_reason is Some,
        !is_acted_on(frames@[0]@) ==> r is Ok && final(c)@ == old(c)@ && final(c).tls_log()
            == old(c).tls_log(),
{
    let log = old(c).tls_log();
    let ev = final(c).tls_log().skip(log.len() as int);
    let fs = protection::frame_models(frames@);
    if !is_acted_on(frames@[0]@) {
        assert(fs[0] == frames@[0]@);
        lemma_none_acted_on(old(c)@, connection::level_of(id), fs, ev);
        assert(log + ev =~= log);
    }
}

/// Law: why a packet is not read. A header that cannot be parsed is reported with
/// the parser's error, a Retry or Version Negotiation packet is a protocol
/// violation, and a packet of a space without keys is an internal error.
pub proof fn law_not_received(c: ConnModel, buf: Seq<u8>)
    requires
        c.wf(),
        buf.len() > 0,
    ensures
        buf[0] >= 0x80 ==> (packet::long_header_at(buf) matches Err(e) ==> connection::received(
            c,
            buf,
        ) == Some(
            Err::<(PacketNumberSpace, u64, Seq<FrameModel>), _>(ConnectionError::Packet(e)),
        )),
        buf[0] >= 0x80 ==> (packet::long_header_at(buf) matches Ok((h, _)) ==> (h.ty
            == LongType::Retry || h.ty == LongType::VersionNegotiation ==> connection::received(
            c,
            buf,
        ) == Some(
            Err::<(PacketNumberSpace, u64, Seq<FrameModel>), _>(
                ConnectionError::Transport(TransportError::ProtocolViolation),
            ),
        ))),
        buf[0] < 0x80 ==> (packet::short_id_at(buf, c.src_cid.len() as usize) matches Err(e)
            ==> connection::received(c, buf) == Some(
            Err::<(PacketNumberSpace, u64, Seq<FrameModel>), _>(ConnectionError::Packet(e)),
        )),
        0x40 <= buf[0] < 0x80 && buf.len() > c.src_cid.len() && c.appdata.keys is None
            ==> connection::received(c, buf) == Some(
            Err::<(PacketNumberSpace, u64, Seq<FrameModel>), _>(
                ConnectionError::Transport(TransportError::InternalError),
            ),
        ),
{
}

/// Law: a packet that does not fit is reported with its length and with the room
/// that there was.
pub proof fn law_no_room(c: ConnModel, room: nat, id: PacketNumberSpace)
    requires
        c.state != State::Closed,
        connection::sending_space(c) == Some(id),
        space_of(c, id).next_send_pn < u64::MAX,
        connection::next_packet(c, id) matches Ok(p) && room < p.len() <= usize::MAX,
    ensures
        connection::egest_step(c, room) == Some(
            (
                c,
                Err::<Seq<u8>, _>(
                    ConnectionError::Packet(
                        packet::PacketError::BufferTooShort {
                            needed: connection::next_packet(c, id)->Ok_0.len() as usize,
                            actual: room as usize,
                        },
                    ),
                ),
            ),
        ),
{
}

/// Law: a call of [`Connection::accept`] with a client's first packet that
/// succeeds has handed TLS the ClientHello of that packet, and nothing else, and
/// has queued what TLS answered: the first answer as Initial data and, where it
/// came with keys, the second as Handshake data. A packet whose header cannot be
/// read is refused with the parser's error.
///
/// [`Connection::accept`]: crate::connection::Connection::accept
pub proof fn law_accept_call(
    packet: &[u8],
    config: Arc<ServerConfig>,
    r: Result<Connection, ConnectionError>,
    dst_cid: Seq<u8>,
    src_cid: Seq<u8>,
    hello: Seq<u8>,
)
    requires
        call_ensures(Connection::accept, (packet, config), r),
    ensures
        packet::long_header_at(packet@) matches Err(e) ==> r == Err::<Connection, _>(
            ConnectionError::Packet(e),
        ),
        connection::is_first_packet(packet@, dst_cid, src_cid, hello) && hello.len() <= u64::MAX
            ==> {
            &&& r matches Err(e) ==> e is Tls
            &&& r matches Ok(conn) ==> {
                let log = conn.tls_log();
                &&& conn.wf()
                &&& conn.tls_origin() == (TlsOrigin::Server { config })
                &&& 2 <= log.len() <= 3
                &&& log[0] matches TlsEvent::Read { data, outcome }
                &&& data == hello
                &&& outcome is Ok
                &&& log[1] matches TlsEvent::Write { out, change }
                &&& conn@.pending_crypto[0] == out
                &&& conn@.handshake.keys == handed_keys(change)
                &&& log.len() == 3 <==> handed_keys(change) is Some
                &&& log.len() == 3 ==> (log[2] matches TlsEvent::Write { out: more, change: next }
                    && conn@.pending_crypto[1] == more && conn@.appdata.keys == handed_keys(next))
                &&& log.len() == 2 ==> conn@.pending_crypto[1].len() == 0
                &&& conn@.pending_crypto[2].len() == 0
                &&& conn@.side == Side::Server
                &&& conn@.state == State::Handshaking
                &&& conn@.dst_cid == src_cid
                &&& conn@.src_cid == dst_cid
                &&& conn@.crypto_recv_offset[0] == hello.len()
                &&& conn@.initial.keys matches Some(k)
                &&& crypto::key_material(&k.remote) == crypto::initial_material(0, dst_cid, true)
                &&& crypto::key_material(&k.local) == crypto::initial_material(0, dst_cid, false)
            }
        },
{
    if connection::is_first_packet(packet@, dst_cid, src_cid, hello) {
        law_first_packet_hello(packet@, dst_cid, src_cid, hello);
    }
}

/// Law: a call of [`Connection::connect_with`] that succeeds gives a client with
/// the given connection IDs and TLS session, and as its first packet one that
/// carries the given ClientHello under these IDs. Without both IDs it fails.
///
/// [`Connection::connect_with`]: crate::connection::Connection::connect_with
pub proof fn law_connect_with_call(
    tls: TlsSession,
    hello: &Vec<u8>,
    dst_cid: Option<Vec<u8>>,
    src_cid: Option<Vec<u8>>,
    r: Result<(Connection, Vec<u8>), ConnectionError>,
)
    requires
        call_ensures(Connection::connect_with, (tls, hello, dst_cid, src_cid), r),
    ensures
        dst_cid is None || src_cid is None ==> r is Err,
        r matches Ok((conn, p)) ==> {
            &&& dst_cid matches Some(d)
            &&& src_cid matches Some(s)
            &&& connection::is_first_packet(p@, d@, s@, hello@)
            &&& conn@.dst_cid == d@
            &&& conn@.src_cid == s@
            &&& conn@.side == Side::Client
            &&& conn@.version == 1
            &&& conn@.initial.next_send_pn == 1
            &&& conn.tls_log() == tls.log()
            &&& conn.tls_origin() == tls.origin()
            &&& conn@.initial.keys matches Some(k)
            &&& crypto::key_material(&k.local) == crypto::initial_material(0, d@, true)
            &&& crypto::key_material(&k.remote) == crypto::initial_material(0, d@, false)
        },
{
}

/// Law: a client's first packet has at least 1200 bytes and starts like an Initial
/// packet of QUIC version 1 with its connection IDs.
pub proof fn law_first_packet_bytes(
    p: Seq<u8>,
    dst_cid: Seq<u8>,
    src_cid: Seq<u8>,
    hello: Seq<u8>,
)
    requires
        connection::is_first_packet(p, dst_cid, src_cid, hello),
    ensures
        p.len() >= 1200,
        0xc0 <= p[0] < 0xd0,
        packet::long_header_at(p) matches Ok((h, _)) && h.ty == LongType::Initial && h.version == 1
            && h.dst_cid == dst_cid && h.src_cid == src_cid,
{
    packet::law_long_header_refused(p);
}

} // verus!
