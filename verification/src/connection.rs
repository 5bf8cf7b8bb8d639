//! QUIC connection state machine (sans-IO).
//!
//! The [`Connection`] struct is the core of deerquic. It exposes a pure
//! state machine API with no I/O, no async, no timers. The caller is
//! responsible for UDP sockets, event loops, and timer management.
//!
//! ```text
//!    caller                     Connection
//!    ------                     ----------
//!    connect() ---------------> creates state + first Initial packet
//!    accept()  ---------------> creates server from incoming Initial
//!    ingest(&[u8]) -----------> processes incoming QUIC packet
//!    egest(&mut [u8]) <-------- produces outgoing QUIC packet
//!    next_timeout() <---------- when to fire a timer
//!    on_timeout() ------------> timer fired
//! ```
//!
//! A [`ConnModel`] is what a connection is made of, and the step functions on
//! it say what each call does. What TLS answered on the way is an argument of
//! those functions: a list of [`TlsEvent`]s, which the connection records.

use bytes::Bytes;
use rustls::quic::Keys;
use rustls::{ClientConfig, ServerConfig};
use std::sync::Arc;
use std::time::Instant;
use vstd::prelude::*;

use crate::buffer;
use crate::crypto;
use crate::error::{ConnectionError, TransportError};
use crate::frame;
use crate::frame::{AckRange, Frame, FrameModel};
use crate::packet;
use crate::packet::{LongModel, LongType, PacketError, PacketNumberSpace};
use crate::protection;
use crate::space::{Space, SpaceModel};
use crate::tls::{KeyChange, TlsEvent, TlsOrigin, TlsSession};
use crate::varint::VARINT_MAX;

verus! {

#[derive(Debug, Clone, Copy, PartialEq, Eq, Structural)]
pub enum Side {
    Client,
    Server,
}

/// Connection state.
#[derive(Debug, Clone, Copy, PartialEq, Eq, Structural)]
pub enum State {
    Connecting,
    Handshaking,
    Established,
    Closed,
}

/// The stream that carries application data.
pub const APP_STREAM: u64 = 0;

pub struct Connection {
    side: Side,
    state: State,
    tls: TlsSession,
    /// QUIC version in use.
    version: u32,
    /// Destination Connection ID (the peer's CID, what we put in packets we send).
    dst_cid: Vec<u8>,
    /// Source Connection ID (our CID, what the peer sends to).
    src_cid: Vec<u8>,
    /// The three packet number spaces.
    pub initial_space: Space,
    pub handshake_space: Space,
    pub appdata_space: Space,
    /// Buffered CRYPTO data from TLS output, per encryption level.
    /// Index 0 = Initial, 1 = Handshake, 2 = ApplicationData.
    pending_crypto: [Vec<u8>; 3],
    /// Crypto stream receive offset per level (for ordering CRYPTO frames).
    crypto_recv_offset: [u64; 3],
    close_reason: Option<ConnectionError>,
    /// Application data that waits to be sent.
    stream_out: Vec<u8>,
    /// How much application data has been sent.
    stream_sent: u64,
    /// Application data that has been received and not been taken.
    stream_in: Vec<u8>,
    /// How much application data has been received.
    stream_received: u64,
}

/// What a connection is made of, without its TLS session.
pub struct ConnModel {
    pub side: Side,
    pub state: State,
    pub version: u32,
    pub dst_cid: Seq<u8>,
    pub src_cid: Seq<u8>,
    pub initial: SpaceModel,
    pub handshake: SpaceModel,
    pub appdata: SpaceModel,
    pub pending_crypto: Seq<Seq<u8>>,
    pub crypto_recv_offset: Seq<u64>,
    pub close_reason: Option<ConnectionError>,
    pub stream_out: Seq<u8>,
    pub stream_sent: u64,
    pub stream_in: Seq<u8>,
    pub stream_received: u64,
}

impl View for Connection {
    type V = ConnModel;

    closed spec fn view(&self) -> ConnModel {
        ConnModel {
            side: self.side,
            state: self.state,
            version: self.version,
            dst_cid: self.dst_cid@,
            src_cid: self.src_cid@,
            initial: self.initial_space@,
            handshake: self.handshake_space@,
            appdata: self.appdata_space@,
            pending_crypto: self.pending_crypto@.map_values(|v: Vec<u8>| v@),
            crypto_recv_offset: self.crypto_recv_offset@,
            close_reason: self.close_reason,
            stream_out: self.stream_out@,
            stream_sent: self.stream_sent,
            stream_in: self.stream_in@,
            stream_received: self.stream_received,
        }
    }
}

impl Connection {
    /// Every exchange with TLS so far.
    pub closed spec fn tls_log(&self) -> Seq<TlsEvent> {
        self.tls.log()
    }

    /// What the TLS session was created for.
    pub closed spec fn tls_origin(&self) -> TlsOrigin {
        self.tls.origin()
    }

    /// Connection IDs have at most 20 bytes.
    pub open spec fn wf(&self) -> bool {
        self@.wf()
    }
}

// ---------------------------------------------------------------------------
// Steps
// ---------------------------------------------------------------------------

/// The encryption level of a space.
pub open spec fn level_of(space: PacketNumberSpace) -> int {
    match space {
        PacketNumberSpace::Initial => 0,
        PacketNumberSpace::Handshake => 1,
        PacketNumberSpace::ApplicationData => 2,
    }
}

/// The keys that come with a key change.
pub open spec fn change_keys(change: Option<KeyChange>) -> Option<Keys> {
    match change {
        Some(KeyChange::Handshake { keys }) => Some(keys),
        Some(KeyChange::OneRtt { keys }) => Some(keys),
        None => None,
    }
}

/// What TLS handed out in an exchange: data and keys.
pub open spec fn written(e: TlsEvent) -> (Seq<u8>, Option<Keys>) {
    match e {
        TlsEvent::Write { out, change } => (out, change_keys(change)),
        TlsEvent::Read { .. } => (Seq::empty(), None),
    }
}

impl ConnModel {
    pub open spec fn wf(self) -> bool {
        &&& self.dst_cid.len() <= 20
        &&& self.src_cid.len() <= 20
        &&& self.pending_crypto.len() == 3
        &&& self.crypto_recv_offset.len() == 3
    }

    /// The space of an identifier.
    pub open spec fn space(self, id: PacketNumberSpace) -> SpaceModel {
        match id {
            PacketNumberSpace::Initial => self.initial,
            PacketNumberSpace::Handshake => self.handshake,
            PacketNumberSpace::ApplicationData => self.appdata,
        }
    }

    /// The connection with one of its spaces replaced.
    pub open spec fn with_space(self, id: PacketNumberSpace, s: SpaceModel) -> ConnModel {
        match id {
            PacketNumberSpace::Initial => ConnModel { initial: s, ..self },
            PacketNumberSpace::Handshake => ConnModel { handshake: s, ..self },
            PacketNumberSpace::ApplicationData => ConnModel { appdata: s, ..self },
        }
    }

    /// The connection with more handshake data queued at a level.
    pub open spec fn queued(self, level: int, data: Seq<u8>) -> ConnModel {
        ConnModel {
            pending_crypto: self.pending_crypto.update(level, self.pending_crypto[level] + data),
            ..self
        }
    }

    /// The connection once `n` more bytes of handshake data have been read at a
    /// level.
    pub open spec fn advanced(self, level: int, n: nat) -> ConnModel {
        ConnModel {
            crypto_recv_offset: self.crypto_recv_offset.update(
                level,
                (self.crypto_recv_offset[level] + n) as u64,
            ),
            ..self
        }
    }

    /// The connection with 1-RTT keys, if it had none: that establishes it.
    pub open spec fn established_with(self, keys: Keys) -> ConnModel {
        if self.appdata.keys is Some {
            self
        } else {
            ConnModel {
                appdata: self.appdata.with_keys(keys),
                state: State::Established,
                ..self
            }
        }
    }

    /// The connection with handshake keys, if it had none.
    pub open spec fn secured_with(self, keys: Keys) -> ConnModel {
        if self.handshake.keys is Some {
            self
        } else {
            ConnModel { handshake: self.handshake.with_keys(keys), ..self }
        }
    }
}

/// What a step makes of a connection: its new state, how many exchanges with
/// TLS it took, and the error that it ended with.
pub struct Progress {
    pub conn: ConnModel,
    pub used: nat,
    pub error: Option<ConnectionError>,
    /// Whether the exchanges are those that the step makes: TLS is handed the
    /// data of the frame, and then asked what it has to send.
    pub fits: bool,
}

/// What becomes of the data and the keys that TLS hands out once it has taken
/// handshake data at a level. New keys at the Initial or Handshake level have
/// TLS asked again, for what it has to send at the level above.
pub open spec fn tls_output_step(c: ConnModel, level: int, ev: Seq<TlsEvent>) -> (
    ConnModel,
    nat,
    bool,
) {
    let (out, keys) = written(ev[0]);
    let c1 = c.queued(level, out);
    match keys {
        None => (c1, 1, ev[0] is Write),
        Some(k) => if level == 0 {
            let (out2, keys2) = written(ev[1]);
            let c2 = c1.secured_with(k).queued(1, out2);
            (
                match keys2 {
                    None => c2,
                    Some(k2) => c2.established_with(k2),
                },
                2,
                ev[0] is Write && ev[1] is Write,
            )
        } else if level == 1 {
            let (out2, keys2) = written(ev[1]);
            let c2 = c1.established_with(k).queued(2, out2);
            (
                match keys2 {
                    None => c2,
                    Some(k2) => ConnModel { appdata: c2.appdata.with_keys(k2), ..c2 },
                },
                2,
                ev[0] is Write && ev[1] is Write,
            )
        } else {
            (c1, 1, ev[0] is Write)
        },
    }
}

/// What a CRYPTO frame does: data at the expected offset goes to TLS, and
/// other data is dropped.
pub open spec fn crypto_step(
    c: ConnModel,
    level: int,
    offset: u64,
    data: Seq<u8>,
    ev: Seq<TlsEvent>,
) -> Progress {
    if offset != c.crypto_recv_offset[level] {
        Progress { conn: c, used: 0, error: None, fits: true }
    } else {
        let handed = ev[0] matches TlsEvent::Read { data: d, .. } && d == data;
        match ev[0] {
            TlsEvent::Read { outcome: Err(e), .. } => Progress {
                conn: c,
                used: 1,
                error: Some(ConnectionError::Tls(e)),
                fits: handed,
            },
            _ => {
                let (c1, used, asked) = tls_output_step(c, level, ev.skip(1));
                Progress {
                    conn: c1.advanced(level, data.len()),
                    used: 1 + used,
                    error: None,
                    fits: handed && asked,
                }
            },
        }
    }
}

/// The error that a peer's CONNECTION_CLOSE leaves behind.
pub open spec fn close_error(code: u64) -> ConnectionError {
    ConnectionError::Transport(
        match crate::error::transport_error_of(code) {
            Some(e) => e,
            None => TransportError::InternalError,
        },
    )
}

/// What a STREAM frame does: data of the application's stream at the expected
/// offset is kept for the application, and other data is dropped.
pub open spec fn stream_step(c: ConnModel, stream_id: u64, offset: u64, data: Seq<u8>) -> ConnModel {
    if stream_id == APP_STREAM && offset == c.stream_received {
        ConnModel {
            stream_in: c.stream_in + data,
            stream_received: capped_u64(c.stream_received + data.len()),
            ..c
        }
    } else {
        c
    }
}

/// `n`, or the largest `u64` where `n` is larger.
pub open spec fn capped_u64(n: int) -> u64 {
    if n > u64::MAX {
        u64::MAX
    } else {
        n as u64
    }
}

/// What a frame does.
pub open spec fn frame_step(
    c: ConnModel,
    level: int,
    f: FrameModel,
    ev: Seq<TlsEvent>,
) -> Progress {
    match f {
        FrameModel::Crypto { offset, data } => crypto_step(c, level, offset, data, ev),
        FrameModel::ConnectionClose { error_code, .. } => Progress {
            conn: ConnModel {
                state: State::Closed,
                close_reason: Some(close_error(error_code)),
                ..c
            },
            used: 0,
            error: None,
            fits: true,
        },
        FrameModel::HandshakeDone => Progress {
            conn: if c.side == Side::Client {
                ConnModel { state: State::Established, ..c }
            } else {
                c
            },
            used: 0,
            error: None,
            fits: true,
        },
        FrameModel::Stream { stream_id, offset, data, .. } => Progress {
            conn: stream_step(c, stream_id, offset, data),
            used: 0,
            error: None,
            fits: true,
        },
        _ => Progress { conn: c, used: 0, error: None, fits: true },
    }
}

/// What a list of frames does, one after the other, up to the first error.
pub open spec fn frames_step(
    c: ConnModel,
    level: int,
    fs: Seq<FrameModel>,
    ev: Seq<TlsEvent>,
) -> Progress
    decreases fs.len(),
{
    if fs.len() == 0 {
        Progress { conn: c, used: 0, error: None, fits: true }
    } else {
        let p = frames_step(c, level, fs.drop_last(), ev);
        if p.error is Some {
            p
        } else {
            let q = frame_step(p.conn, level, fs.last(), ev.skip(p.used as int));
            Progress {
                conn: q.conn,
                used: p.used + q.used,
                error: q.error,
                fits: p.fits && q.fits,
            }
        }
    }
}

// ---------------------------------------------------------------------------
// Frame processing
// ---------------------------------------------------------------------------

/// The keys that come with a key change.
fn take_keys(change: Option<KeyChange>) -> (keys: Option<Keys>)
    ensures
        keys == change_keys(change),
{
    match change {
        Some(KeyChange::Handshake { keys }) => Some(keys),
        Some(KeyChange::OneRtt { keys }) => Some(keys),
        None => None,
    }
}

/// The encryption level of a space.
pub fn pn_space_to_level(id: PacketNumberSpace) -> (level: usize)
    ensures
        level == level_of(id),
        level <= 2,
{
    match id {
        PacketNumberSpace::Initial => 0,
        PacketNumberSpace::Handshake => 1,
        PacketNumberSpace::ApplicationData => 2,
    }
}

/// Whether a CRYPTO frame ends before the end of the 64-bit range.
pub open spec fn crypto_in_range(f: FrameModel) -> bool {
    f matches FrameModel::Crypto { offset, data } ==> offset + data.len() <= u64::MAX
}

impl Connection {
    /// Takes what TLS has to send at a level, and any new keys.
    fn process_tls_output(&mut self, level: usize) -> (keys: Option<Keys>)
        requires
            level <= 2,
        ensures
            final(self).tls_origin() == old(self).tls_origin(),
            final(self).tls_log().len() == old(self).tls_log().len() + 1,
            final(self).tls_log().drop_last() == old(self).tls_log(),
            final(self).tls_log().last() is Write,
            ({
                let (out, k) = written(final(self).tls_log().last());
                &&& final(self)@ == old(self)@.queued(level as int, out)
                &&& keys == k
            }),
    {
        let ghost before = self@;
        let ghost log = self.tls.log();
        let (out, change) = self.tls.write_hs();
        let ghost data = out@;
        self.pending_crypto[level].extend_from_slice(&out);
        proof {
            assert(self.tls.log().drop_last() =~= log);
            assert(self@.pending_crypto =~~= before.queued(level as int, data).pending_crypto);
        }
        take_keys(change)
    }

    /// Handle any key change that came with TLS output at a level.
    fn handle_crypto_output(&mut self, level: usize, new_keys: Option<Keys>)
        requires
            level <= 2,
        ensures
            final(self).tls_origin() == old(self).tls_origin(),
            ({
                let log = old(self).tls_log();
                let ev = final(self).tls_log().skip(log.len() as int);
                &&& final(self).tls_log() == log + ev
                &&& new_keys is None || level == 2 ==> ev.len() == 0 && final(self)@ == old(self)@
                &&& new_keys matches Some(k) ==> (level == 0 ==> {
                    let (out2, keys2) = written(ev[0]);
                    let c2 = old(self)@.secured_with(k).queued(1, out2);
                    &&& ev.len() == 1
                    &&& ev[0] is Write
                    &&& final(self)@ == match keys2 {
                        None => c2,
                        Some(k2) => c2.established_with(k2),
                    }
                })
                &&& new_keys matches Some(k) ==> (level == 1 ==> {
                    let (out2, keys2) = written(ev[0]);
                    let c2 = old(self)@.established_with(k).queued(2, out2);
                    &&& ev.len() == 1
                    &&& ev[0] is Write
                    &&& final(self)@ == match keys2 {
                        None => c2,
                        Some(k2) => ConnModel { appdata: c2.appdata.with_keys(k2), ..c2 },
                    }
                })
            }),
    {
        let ghost log = self.tls_log();
        let keys = match new_keys {
            Some(k) => k,
            None => {
                assert(log + Seq::<TlsEvent>::empty() =~= log);
                assert(log.skip(log.len() as int) =~= Seq::<TlsEvent>::empty());
                return;
            },
        };
        if level == 0 {
            if !self.handshake_space.has_keys() {
                self.handshake_space.set_keys(keys);
            }
            // There may be more to send at the level above.
            let keys2 = self.process_tls_output(1);
            if let Some(k2) = keys2 {
                if !self.appdata_space.has_keys() {
                    self.appdata_space.set_keys(k2);
                    self.state = State::Established;
                }
            }
            proof {
                let e = self.tls_log().last();
                assert(self.tls_log() =~= log + seq![e]);
                assert(self.tls_log().skip(log.len() as int) =~= seq![e]);
            }
        } else if level == 1 {
            if !self.appdata_space.has_keys() {
                self.appdata_space.set_keys(keys);
                self.state = State::Established;
            }
            let keys2 = self.process_tls_output(2);
            if let Some(k2) = keys2 {
                self.appdata_space.set_keys(k2);
            }
            proof {
                let e = self.tls_log().last();
                assert(self.tls_log() =~= log + seq![e]);
                assert(self.tls_log().skip(log.len() as int) =~= seq![e]);
            }
        } else {
            assert(log + Seq::<TlsEvent>::empty() =~= log);
            assert(log.skip(log.len() as int) =~= Seq::<TlsEvent>::empty());
        }
    }

    /// Feeds a CRYPTO frame at a level to TLS.
    fn process_crypto(&mut self, level: usize, offset: u64, data: &Bytes) -> (r: Result<
        (),
        ConnectionError,
    >)
        requires
            level <= 2,
            offset + buffer::bytes_content(data).len() <= u64::MAX,
        ensures
            final(self).tls_origin() == old(self).tls_origin(),
            ({
                let log = old(self).tls_log();
                let ev = final(self).tls_log().skip(log.len() as int);
                let p = crypto_step(
                    old(self)@,
                    level as int,
                    offset,
                    buffer::bytes_content(data),
                    ev,
                );
                &&& final(self).tls_log() == log + ev
                &&& p.used == ev.len()
                &&& p.fits
                &&& final(self)@ == p.conn
                &&& r == match p.error {
                    None => Ok::<(), ConnectionError>(()),
                    Some(e) => Err(e),
                }
            }),
    {
        let ghost log = self.tls_log();
        let ghost before = self@;
        if offset != self.crypto_recv_offset[level] {
            assert(log + Seq::<TlsEvent>::empty() =~= log);
            assert(log.skip(log.len() as int) =~= Seq::<TlsEvent>::empty());
            return Ok(());
        }
        match self.tls.read_hs(buffer::bytes_slice(data)) {
            Ok(()) => {},
            Err(e) => {
                proof {
                    let ev = self.tls_log().last();
                    assert(self.tls_log() =~= log + seq![ev]);
                    assert(self.tls_log().skip(log.len() as int) =~= seq![ev]);
                }
                return Err(ConnectionError::Tls(e));
            },
        }
        let ghost log1 = self.tls_log();
        let ghost e0 = self.tls_log().last();
        assert(log1 =~= log + seq![e0]);
        let new_keys = self.process_tls_output(level);
        let ghost log2 = self.tls_log();
        let ghost e1 = log2.last();
        assert(log2 =~= log1.push(e1));
        assert(log2 =~= log + seq![e0, e1]);
        self.handle_crypto_output(level, new_keys);
        proof {
            let more = self.tls_log().skip(log2.len() as int);
            let ev = self.tls_log().skip(log.len() as int);
            assert(ev =~= seq![e0, e1] + more);
            assert(ev.skip(1)[0] == e1);
            if more.len() > 0 {
                assert(ev.skip(1)[1] == more[0]);
            }
            assert(self.tls_log() =~= log + ev);
            assert(self@ == tls_output_step(before, level as int, ev.skip(1)).0);
        }
        let ghost mid = self@;
        let n: u64 = data.len() as u64;
        self.crypto_recv_offset[level] = self.crypto_recv_offset[level] + n;
        assert(self@.crypto_recv_offset =~= mid.advanced(level as int, n as nat).crypto_recv_offset);
        Ok(())
    }
}

/// A step reads no more exchanges than it takes.
proof fn lemma_frame_step_prefix(
    c: ConnModel,
    level: int,
    f: FrameModel,
    ev: Seq<TlsEvent>,
    more: Seq<TlsEvent>,
)
    requires
        frame_step(c, level, f, ev).used <= ev.len(),
    ensures
        frame_step(c, level, f, ev + more) == frame_step(c, level, f, ev),
{
    let all = ev + more;
    if ev.len() > 0 {
        assert(all[0] == ev[0]);
        assert(all.skip(1) =~= ev.skip(1) + more);
        if ev.len() > 1 {
            assert(all.skip(1)[0] == ev.skip(1)[0]);
        }
        if ev.len() > 2 {
            assert(all.skip(1)[1] == ev.skip(1)[1]);
        }
    }
}

proof fn lemma_frames_step_prefix(
    c: ConnModel,
    level: int,
    fs: Seq<FrameModel>,
    ev: Seq<TlsEvent>,
    more: Seq<TlsEvent>,
)
    requires
        frames_step(c, level, fs, ev).used <= ev.len(),
    ensures
        frames_step(c, level, fs, ev + more) == frames_step(c, level, fs, ev),
    decreases fs.len(),
{
    if fs.len() > 0 {
        let p = frames_step(c, level, fs.drop_last(), ev);
        lemma_frames_step_prefix(c, level, fs.drop_last(), ev, more);
        if p.error is None {
            assert((ev + more).skip(p.used as int) =~= ev.skip(p.used as int) + more);
            lemma_frame_step_prefix(
                p.conn,
                level,
                fs.last(),
                ev.skip(p.used as int),
                more,
            );
        }
    }
}

/// The step of a longer list is the step of its front, and of one frame more.
proof fn lemma_frames_step_next(
    c: ConnModel,
    level: int,
    fs: Seq<FrameModel>,
    i: int,
    done: Seq<TlsEvent>,
    new: Seq<TlsEvent>,
)
    requires
        0 <= i < fs.len(),
        frames_step(c, level, fs.take(i), done).used == done.len(),
        frames_step(c, level, fs.take(i), done).error is None,
    ensures
        ({
            let p = frames_step(c, level, fs.take(i), done);
            let q = frame_step(p.conn, level, fs[i], new);
            frames_step(c, level, fs.take(i + 1), done + new) == (Progress {
                conn: q.conn,
                used: p.used + q.used,
                error: q.error,
                fits: p.fits && q.fits,
            })
        }),
{
    lemma_frames_step_prefix(c, level, fs.take(i), done, new);
    assert(fs.take(i + 1).drop_last() =~= fs.take(i));
    assert(fs.take(i + 1).last() == fs[i]);
    assert((done + new).skip(done.len() as int) =~= new);
}

/// Once a list has ended in an error, frames after it change nothing.
proof fn lemma_frames_step_error(
    c: ConnModel,
    level: int,
    fs: Seq<FrameModel>,
    i: int,
    ev: Seq<TlsEvent>,
)
    requires
        0 <= i <= fs.len(),
        frames_step(c, level, fs.take(i), ev).error is Some,
    ensures
        frames_step(c, level, fs, ev) == frames_step(c, level, fs.take(i), ev),
    decreases fs.len() - i,
{
    if i == fs.len() {
        assert(fs.take(i) =~= fs);
    } else {
        assert(fs.take(i + 1).drop_last() =~= fs.take(i));
        lemma_frames_step_error(c, level, fs, i + 1, ev);
    }
}

impl Connection {
    /// Acts on one frame.
    fn process_frame(&mut self, frame: &Frame, level: usize) -> (r: Result<(), ConnectionError>)
        requires
            level <= 2,
            crypto_in_range(frame@),
        ensures
            final(self).tls_origin() == old(self).tls_origin(),
            ({
                let log = old(self).tls_log();
                let ev = final(self).tls_log().skip(log.len() as int);
                let p = frame_step(old(self)@, level as int, frame@, ev);
                &&& final(self).tls_log() == log + ev
                &&& p.used == ev.len()
                &&& p.fits
                &&& final(self)@ == p.conn
                &&& r == match p.error {
                    None => Ok::<(), ConnectionError>(()),
                    Some(e) => Err(e),
                }
            }),
    {
        proof {
            let log = self.tls_log();
            assert(log + Seq::<TlsEvent>::empty() =~= log);
            assert(log.skip(log.len() as int) =~= Seq::<TlsEvent>::empty());
        }
        match frame {
            Frame::Crypto { offset, data } => {
                return self.process_crypto(level, *offset, data);
            },
            Frame::ConnectionClose { error_code, .. } => {
                self.state = State::Closed;
                let error = match TransportError::from_code(*error_code) {
                    Some(e) => e,
                    None => TransportError::InternalError,
                };
                self.close_reason = Some(ConnectionError::Transport(error));
            },
            Frame::HandshakeDone => {
                if self.side == Side::Client {
                    self.state = State::Established;
                }
            },
            Frame::Stream { stream_id, offset, data, .. } => {
                if *stream_id == APP_STREAM && *offset == self.stream_received {
                    self.stream_in.extend_from_slice(buffer::bytes_slice(data));
                    self.stream_received = self.stream_received.saturating_add(data.len() as u64);
                    assert(self@.stream_in =~= old(self)@.stream_in + buffer::bytes_content(data));
                }
            },
            // Other frames are not processed yet.
            _ => {},
        }
        Ok(())
    }

    /// Acts on the frames of a packet, up to the first error.
    pub fn process_frames(&mut self, frames: &Vec<Frame>, pn_space_id: PacketNumberSpace) -> (r: Result<
        (),
        ConnectionError,
    >)
        requires
            forall|i: int| 0 <= i < frames@.len() ==> crypto_in_range(#[trigger] frames@[i]@),
        ensures
            old(self).wf() ==> final(self).wf(),
            frames@.len() == 1 ==> (frames@[0]@ matches FrameModel::ConnectionClose {
                error_code,
                ..
            } ==> {
                &&& r == Ok::<(), ConnectionError>(())
                &&& final(self)@.state == State::Closed
                &&& final(self)@.close_reason == Some(close_error(error_code))
            }),
            final(self).tls_origin() == old(self).tls_origin(),
            ({
                let log = old(self).tls_log();
                let ev = final(self).tls_log().skip(log.len() as int);
                let p = frames_step(
                    old(self)@,
                    level_of(pn_space_id),
                    protection::frame_models(frames@),
                    ev,
                );
                &&& final(self).tls_log() == log + ev
                &&& p.used == ev.len()
                &&& p.fits
                &&& final(self)@ == p.conn
                &&& r == match p.error {
                    None => Ok::<(), ConnectionError>(()),
                    Some(e) => Err(e),
                }
            }),
    {
        let level: usize = pn_space_to_level(pn_space_id);
        let ghost fs = protection::frame_models(frames@);
        let ghost log = self.tls_log();
        let ghost start = self@;
        let ghost mut done: Seq<TlsEvent> = Seq::empty();
        let mut i: usize = 0;
        proof {
            assert(fs.take(0) =~= Seq::<FrameModel>::empty());
            assert(log + done =~= log);
        }
        while i < frames.len()
            invariant
                i <= frames@.len(),
                level == level_of(pn_space_id),
                level <= 2,
                fs == protection::frame_models(frames@),
                forall|i: int| 0 <= i < frames@.len() ==> crypto_in_range(#[trigger] frames@[i]@),
                start == old(self)@,
                log == old(self).tls_log(),
                self.tls_origin() == old(self).tls_origin(),
                self.tls_log() == log + done,
                frames_step(start, level as int, fs.take(i as int), done) == (Progress {
                    conn: self@,
                    used: done.len(),
                    error: None,
                    fits: true,
                }),
            decreases frames@.len() - i,
        {
            let ghost before = self@;
            let ghost log_i = self.tls_log();
            let f = &frames[i];
            assert(fs[i as int] == f@);
            let r = self.process_frame(f, level);
            proof {
                let new = self.tls_log().skip(log_i.len() as int);
                lemma_frames_step_next(start, level as int, fs, i as int, done, new);
                assert(log_i + new =~= log + (done + new));
                done = done + new;
            }
            match r {
                Ok(()) => {},
                Err(e) => {
                    proof {
                        lemma_frames_step_error(start, level as int, fs, i + 1, done);
                        lemma_close_step(start, level as int, fs, done);
                        lemma_frames_step_wf(start, level as int, fs, done);
                        assert(self.tls_log().skip(log.len() as int) =~= done);
                    }
                    return Err(e);
                },
            }
            i += 1;
        }
        proof {
            assert(fs.take(i as int) =~= fs);
            lemma_close_step(start, level as int, fs, done);
            lemma_frames_step_wf(start, level as int, fs, done);
            assert(self.tls_log().skip(log.len() as int) =~= done);
        }
        Ok(())
    }
}

/// What a CONNECTION_CLOSE frame does by itself.
proof fn lemma_close_step(c: ConnModel, level: int, fs: Seq<FrameModel>, ev: Seq<TlsEvent>)
    ensures
        fs.len() == 1 ==> (fs[0] matches FrameModel::ConnectionClose { error_code, .. } ==> {
            let p = frames_step(c, level, fs, ev);
            &&& p.error is None
            &&& p.conn.state == State::Closed
            &&& p.conn.close_reason == Some(close_error(error_code))
        }),
{
    reveal_with_fuel(frames_step, 2);
}

// ---------------------------------------------------------------------------
// Ingest
// ---------------------------------------------------------------------------

/// What a packet from the peer opens to: its space, packet number and frames.
/// A short header carries our connection ID. `None` where the packet number of
/// a short header packet leaves 64 bits.
pub open spec fn received(c: ConnModel, buf: Seq<u8>) -> Option<
    Result<(PacketNumberSpace, u64, Seq<FrameModel>), ConnectionError>,
> {
    if buf[0] < 0x80 {
        match packet::short_id_at(buf, c.src_cid.len() as usize) {
            Err(e) => Some(Err(ConnectionError::Packet(e))),
            Ok(id) => match protection::received_short(
                c.appdata.keys,
                c.appdata.largest_recv_pn,
                buf,
                1 + id.len() as int,
            ) {
                None => None,
                Some(Err(e)) => Some(Err(e)),
                Some(Ok((pn, fs))) => Some(Ok((PacketNumberSpace::ApplicationData, pn, fs))),
            },
        }
    } else {
        match packet::long_header_at(buf) {
            Err(e) => Some(Err(ConnectionError::Packet(e))),
            Ok((h, _)) => match long_type_space(h.ty) {
                None => Some(
                    Err(ConnectionError::Transport(TransportError::ProtocolViolation)),
                ),
                Some(space) => match protection::received_long(
                    c.space(space).keys,
                    buf,
                    protection::long_pn_offset(h),
                ) {
                    Err(e) => Some(Err(e)),
                    Ok((pn, fs)) => Some(Ok((space, pn, fs))),
                },
            },
        }
    }
}

/// The space of a long header type. Retry and Version Negotiation have none.
pub open spec fn long_type_space(ty: LongType) -> Option<PacketNumberSpace> {
    match ty {
        LongType::Initial => Some(PacketNumberSpace::Initial),
        LongType::Handshake => Some(PacketNumberSpace::Handshake),
        LongType::ZeroRtt => Some(PacketNumberSpace::ApplicationData),
        _ => None,
    }
}

/// What a call of [`Connection::ingest`] does, given what TLS answered on the
/// way: the new state and the result. `None` where the packet cannot be
/// ingested (see [`received`]).
pub open spec fn ingest_step(c: ConnModel, buf: Seq<u8>, ev: Seq<TlsEvent>) -> Option<
    (Progress, Result<usize, ConnectionError>),
> {
    let same = Progress { conn: c, used: 0, error: None, fits: true };
    if c.state == State::Closed {
        Some((same, Err(ConnectionError::Closed)))
    } else if buf.len() == 0 {
        Some((same, Ok(0)))
    } else {
        match received(c, buf) {
            None => None,
            Some(Err(e)) => Some((same, Err(e))),
            Some(Ok((space, pn, fs))) => {
                let c1 = c.with_space(space, c.space(space).after_recv(pn));
                let p = frames_step(c1, level_of(space), fs, ev);
                Some(
                    (
                        p,
                        match p.error {
                            None => Ok(buf.len() as usize),
                            Some(e) => Err(e),
                        },
                    ),
                )
            },
        }
    }
}

/// Whether a packet can be ingested: the packet number of a short header packet
/// must be within 64 bits.
pub open spec fn can_ingest(c: ConnModel, buf: Seq<u8>) -> bool {
    c.state == State::Closed || buf.len() == 0 || received(c, buf) is Some
}

proof fn lemma_frames_in_range(s: Seq<u8>)
    ensures
        protection::frames_in(s) matches Ok(fs) ==> forall|i: int|
            0 <= i < fs.len() ==> crypto_in_range(#[trigger] fs[i]),
    decreases s.len(),
{
    if s.len() > 0 {
        frame::law_frame_progress(s);
        frame::lemma_crypto_frame_bounds(s);
        if let Ok((m, rest)) = frame::frame_at(s) {
            assert(crypto_in_range(m));
            lemma_frames_in_range(rest);
        }
    }
}

/// The frames of a received packet end within the 64-bit range.
proof fn lemma_opened_in_range(
    material: Seq<u8>,
    packet: Seq<u8>,
    pn_offset: int,
    largest: u64,
    short: bool,
)
    ensures
        protection::opened(material, packet, pn_offset, largest, short) matches Some(Ok((pn, fs)))
            ==> forall|i: int| 0 <= i < fs.len() ==> crypto_in_range(#[trigger] fs[i]),
{
    let (first, field) = protection::unmasked(material, packet, pn_offset, short);
    let truncated = crate::wire::be_value(field) as u64;
    let pn_len = field.len() as u8;
    let pn = packet::full_packet_number(largest, truncated, pn_len) as u64;
    let header = seq![first] + packet.subrange(1, pn_offset) + field;
    if let Some(payload) = crypto::aead_open(
        material,
        pn,
        header,
        packet.skip(pn_offset + field.len()),
    ) {
        lemma_frames_in_range(payload);
    }
}

proof fn lemma_received_in_range(c: ConnModel, buf: Seq<u8>)
    ensures
        received(c, buf) matches Some(Ok((space, pn, fs))) ==> forall|i: int|
            0 <= i < fs.len() ==> crypto_in_range(#[trigger] fs[i]),
{
    if buf[0] < 0x80 {
        if let Ok(id) = packet::short_id_at(buf, c.src_cid.len() as usize) {
            if let Some(k) = c.appdata.keys {
                lemma_opened_in_range(
                    crypto::key_material(&k.remote),
                    buf,
                    1 + id.len() as int,
                    c.appdata.largest_recv_pn,
                    true,
                );
            }
        }
    } else if let Ok((h, _)) = packet::long_header_at(buf) {
        if let Some(space) = long_type_space(h.ty) {
            if let Some(k) = c.space(space).keys {
                lemma_opened_in_range(
                    crypto::key_material(&k.remote),
                    buf,
                    protection::long_pn_offset(h),
                    0,
                    false,
                );
            }
        }
    }
}

impl Connection {
    /// Opens a packet.
    fn open(&self, buf: &[u8]) -> (r: Option<
        Result<(PacketNumberSpace, u64, Vec<Frame>), ConnectionError>,
    >)
        requires
            self.wf(),
            buf@.len() > 0,
        ensures
            match received(self@, buf@) {
                None => r is None,
                Some(Err(e)) => r == Some(Err::<(PacketNumberSpace, u64, Vec<Frame>), _>(e)),
                Some(Ok((space, pn, fs))) => r matches Some(Ok((s, n, v))) && s == space && n == pn
                    && protection::frame_models(v@) == fs,
            },
    {
        let first: u8 = buf[0];
        assert(((first & 0x80) != 0) == (first >= 0x80)) by (bit_vector);
        let is_long: bool = (first & 0x80) != 0;
        if !is_long {
            // The reserved bits and the packet number length are masked.
            let our_cid = match packet::parse_short_id(buf, self.src_cid.len()) {
                Ok(id) => id,
                Err(e) => {
                    return Some(Err(ConnectionError::Packet(e)));
                },
            };
            let pn_offset: usize = protection::hdr_pn_offset_short(&our_cid);
            match protection::decrypt_and_parse(&self.appdata_space, buf, pn_offset) {
                None => None,
                Some(Err(e)) => Some(Err(e)),
                Some(Ok((pn, frames))) => Some(
                    Ok((PacketNumberSpace::ApplicationData, pn, frames)),
                ),
            }
        } else {
            proof {
                packet::lemma_long_header_bounds(buf@);
            }
            let (hdr, _) = match packet::parse_long_header(buf) {
                Ok(parsed) => parsed,
                Err(e) => {
                    return Some(Err(ConnectionError::Packet(e)));
                },
            };
            let pn_offset: usize = protection::hdr_pn_offset_long(&hdr);
            let (id, space) = match hdr.ty {
                LongType::Initial => (PacketNumberSpace::Initial, &self.initial_space),
                LongType::Handshake => (PacketNumberSpace::Handshake, &self.handshake_space),
                LongType::ZeroRtt => (PacketNumberSpace::ApplicationData, &self.appdata_space),
                LongType::Retry | LongType::VersionNegotiation => {
                    return Some(
                        Err(ConnectionError::Transport(TransportError::ProtocolViolation)),
                    );
                },
            };
            match protection::decrypt_and_parse_long(space, buf, pn_offset) {
                Ok((pn, frames)) => Some(Ok((id, pn, frames))),
                Err(e) => Some(Err(e)),
            }
        }
    }

    /// Like [`Connection::ingest`], for any packet: returns `None`, and leaves
    /// the connection as it is, where the packet cannot be ingested.
    pub fn try_ingest(&mut self, buf: &[u8]) -> (r: Option<Result<usize, ConnectionError>>)
        requires
            old(self).wf(),
        ensures
            final(self).wf(),
            final(self).tls_origin() == old(self).tls_origin(),
            ({
                let log = old(self).tls_log();
                let ev = final(self).tls_log().skip(log.len() as int);
                &&& final(self).tls_log() == log + ev
                &&& match ingest_step(old(self)@, buf@, ev) {
                    None => r is None && final(self)@ == old(self)@ && ev.len() == 0,
                    Some((p, result)) => {
                        &&& r == Some(result)
                        &&& final(self)@ == p.conn
                        &&& ev.len() == p.used
                        &&& p.fits
                    },
                }
            }),
            r is None <==> !can_ingest(old(self)@, buf@),
    {
        let ghost start = self@;
        proof {
            let log = self.tls_log();
            assert(log + Seq::<TlsEvent>::empty() =~= log);
            assert(log.skip(log.len() as int) =~= Seq::<TlsEvent>::empty());
        }
        if self.state == State::Closed {
            return Some(Err(ConnectionError::Closed));
        }
        if buf.len() == 0 {
            return Some(Ok(0));
        }
        // Parse the header and decrypt.
        let (id, pn, frames) = match self.open(buf) {
            None => {
                return None;
            },
            Some(Err(e)) => {
                return Some(Err(e));
            },
            Some(Ok(opened)) => opened,
        };
        // Record receipt.
        self.space_mut(id).record_recv_pn(pn);
        let ghost c1 = self@;
        // Process frames.
        proof {
            lemma_received_in_range(start, buf@);
            let fs = protection::frame_models(frames@);
            assert forall|i: int| 0 <= i < frames@.len() implies crypto_in_range(
                #[trigger] frames@[i]@,
            ) by {
                assert(fs[i] == frames@[i]@);
            }
        }
        match self.process_frames(&frames, id) {
            Ok(()) => Some(Ok(buf.len())),
            Err(e) => Some(Err(e)),
        }
    }

    /// Feed a raw QUIC packet (UDP payload) into the connection.
    pub fn ingest(&mut self, buf: &[u8]) -> (r: Result<usize, ConnectionError>)
        requires
            old(self).wf(),
            can_ingest(old(self)@, buf@),
        ensures
            final(self).wf(),
            old(self)@.state == State::Closed ==> r == Err::<usize, _>(ConnectionError::Closed)
                && final(self)@ == old(self)@,
            final(self).tls_origin() == old(self).tls_origin(),
            ({
                let log = old(self).tls_log();
                let ev = final(self).tls_log().skip(log.len() as int);
                &&& final(self).tls_log() == log + ev
                &&& ingest_step(old(self)@, buf@, ev) matches Some((p, result))
                &&& r == result
                &&& final(self)@ == p.conn
                &&& ev.len() == p.used
                &&& p.fits
            }),
    {
        match self.try_ingest(buf) {
            Some(r) => r,
            None => Err(ConnectionError::Transport(TransportError::InternalError)),
        }
    }
}

/// Steps keep a connection well-formed.
proof fn lemma_frames_step_wf(c: ConnModel, level: int, fs: Seq<FrameModel>, ev: Seq<TlsEvent>)
    requires
        0 <= level <= 2,
    ensures
        c.wf() ==> frames_step(c, level, fs, ev).conn.wf(),
    decreases fs.len(),
{
    if fs.len() > 0 {
        lemma_frames_step_wf(c, level, fs.drop_last(), ev);
    }
}

// ---------------------------------------------------------------------------
// Egest
// ---------------------------------------------------------------------------

/// The largest of a list of packet numbers, or 0 if there is none.
pub open spec fn largest_of(pns: Seq<u64>) -> u64
    decreases pns.len(),
{
    if pns.len() == 0 {
        0
    } else if pns.last() > largest_of(pns.drop_last()) {
        pns.last()
    } else {
        largest_of(pns.drop_last())
    }
}

/// The frames that wait to be sent in a space: handshake data, an ACK of what
/// was received, and with application data a server's HANDSHAKE_DONE and what
/// the application has to send.
pub open spec fn outgoing(c: ConnModel, id: PacketNumberSpace) -> Seq<FrameModel> {
    let data = c.pending_crypto[level_of(id)];
    let acks = c.space(id).pending_acks;
    let app = id is ApplicationData;
    (if data.len() > 0 {
        seq![FrameModel::Crypto { offset: 0, data }]
    } else {
        Seq::empty()
    }) + (if acks.len() > 0 {
        seq![
            FrameModel::Ack {
                largest_ack: largest_of(acks),
                ack_delay: 0,
                ranges: seq![AckRange { gap: 0, range: (acks.len() - 1) as u64 }],
                ecn: None,
            },
        ]
    } else {
        Seq::empty()
    }) + (if app && owes_done(c) {
        seq![FrameModel::HandshakeDone]
    } else {
        Seq::empty()
    }) + (if app && c.stream_out.len() > 0 {
        seq![
            FrameModel::Stream {
                stream_id: APP_STREAM,
                offset: c.stream_sent,
                data: c.stream_out,
                fin: false,
            },
        ]
    } else {
        Seq::empty()
    })
}

/// Whether a server has yet to confirm the handshake.
pub open spec fn owes_done(c: ConnModel) -> bool {
    c.side == Side::Server && c.state == State::Handshaking
}

/// The connection once the frames that waited in a space have been taken. A
/// server that confirms the handshake is established.
pub open spec fn flushed(c: ConnModel, id: PacketNumberSpace) -> ConnModel {
    let app = id is ApplicationData;
    let sent = if app {
        c.stream_out
    } else {
        Seq::empty()
    };
    ConnModel {
        pending_crypto: c.pending_crypto.update(level_of(id), Seq::empty()),
        state: if app && owes_done(c) {
            State::Established
        } else {
            c.state
        },
        stream_out: if app {
            Seq::empty()
        } else {
            c.stream_out
        },
        stream_sent: capped_u64(c.stream_sent + sent.len()),
        ..c.with_space(id, c.space(id).acked())
    }
}

/// Whether a space has keys and something to send.
pub open spec fn ready(c: ConnModel, id: PacketNumberSpace) -> bool {
    c.space(id).keys is Some && outgoing(c, id).len() > 0
}

/// The space that sends next: the first that is ready.
pub open spec fn sending_space(c: ConnModel) -> Option<PacketNumberSpace> {
    if ready(c, PacketNumberSpace::Initial) {
        Some(PacketNumberSpace::Initial)
    } else if ready(c, PacketNumberSpace::Handshake) {
        Some(PacketNumberSpace::Handshake)
    } else if ready(c, PacketNumberSpace::ApplicationData) {
        Some(PacketNumberSpace::ApplicationData)
    } else {
        None
    }
}

/// The packet that a space sends next.
pub open spec fn next_packet(c: ConnModel, id: PacketNumberSpace) -> Result<
    Seq<u8>,
    ConnectionError,
> {
    let pn = c.space(id).next_send_pn;
    protection::packet_for(
        c.space(id).keys,
        id,
        c.version,
        c.dst_cid,
        c.src_cid,
        outgoing(c, id),
        pn,
        protection::pn_len_for(pn),
        c.state == State::Established,
    )
}

/// The connection once a space has sent: its frames are taken and a packet
/// number is used up.
pub open spec fn after_egest(c: ConnModel, id: PacketNumberSpace) -> ConnModel {
    let f = flushed(c, id);
    f.with_space(id, f.space(id).after_send())
}

/// The error of a buffer that is too small for a packet of `needed` bytes.
pub open spec fn no_room(needed: nat, room: nat) -> ConnectionError {
    ConnectionError::Packet(
        PacketError::BufferTooShort { needed: needed as usize, actual: room as usize },
    )
}

/// What a call of [`Connection::egest`] with room for `room` bytes does: the
/// new state, and the packet, which is empty where there is nothing to send. A
/// packet that does not fit is an error, and stays to be sent. `None` where the
/// space that sends has used up its packet numbers.
pub open spec fn egest_step(c: ConnModel, room: nat) -> Option<
    (ConnModel, Result<Seq<u8>, ConnectionError>),
> {
    if c.state == State::Closed {
        Some((c, Err(ConnectionError::Closed)))
    } else {
        match sending_space(c) {
            None => Some((c, Ok(Seq::empty()))),
            Some(id) => if c.space(id).next_send_pn == u64::MAX {
                None
            } else {
                match next_packet(c, id) {
                    Err(e) => Some((after_egest(c, id), Err(e))),
                    Ok(p) => if room < p.len() {
                        Some((c, Err(no_room(p.len(), room))))
                    } else {
                        Some((after_egest(c, id), Ok(p)))
                    },
                }
            },
        }
    }
}

/// The payload of the packet that a space sends next.
pub open spec fn next_payload(c: ConnModel, id: PacketNumberSpace) -> Seq<u8> {
    protection::packet_payload(
        crypto::key_material(&c.space(id).keys->Some_0.local),
        id,
        c.dst_cid.len(),
        c.src_cid.len(),
        protection::frames_bytes(outgoing(c, id))->Ok_0,
        protection::pn_len_for(c.space(id).next_send_pn),
    )
}

/// Whether a packet is one that a peer with matching keys can open: to the
/// packet number and the payload that the space that sent it put in. Initial
/// packets have at least the minimum size.
pub open spec fn sent_packet_opens(c: ConnModel, id: PacketNumberSpace, p: Seq<u8>) -> bool {
    let material = crypto::key_material(&c.space(id).keys->Some_0.local);
    let pn = c.space(id).next_send_pn;
    &&& protection::packet_opens(
        material,
        id,
        c.version,
        c.dst_cid,
        c.src_cid,
        next_payload(c, id),
        pn,
        protection::pn_len_for(pn),
        c.state == State::Established,
        p,
    )
    &&& id is Initial && crypto::aead_tag_len(material) <= 16 ==> p.len()
        >= protection::MIN_INITIAL_SIZE
}

/// Whether the connection has a packet number for its next packet.
pub open spec fn can_egest(c: ConnModel) -> bool {
    c.state == State::Closed || match sending_space(c) {
        None => true,
        Some(id) => c.space(id).next_send_pn < u64::MAX,
    }
}

/// The largest of a list of packet numbers, or 0 if there is none.
fn largest_pn(pns: &[u64]) -> (largest: u64)
    ensures
        largest == largest_of(pns@),
{
    let mut largest: u64 = 0;
    let mut i: usize = 0;
    assert(pns@.take(0) =~= Seq::<u64>::empty());
    while i < pns.len()
        invariant
            i <= pns@.len(),
            largest == largest_of(pns@.take(i as int)),
        decreases pns@.len() - i,
    {
        assert(pns@.take(i + 1).drop_last() =~= pns@.take(i as int));
        if pns[i] > largest {
            largest = pns[i];
        }
        i += 1;
    }
    assert(pns@.take(i as int) =~= pns@);
    largest
}

/// Copies `data` to the front of `buf`.
fn copy_front(buf: &mut [u8], data: &Vec<u8>)
    requires
        data@.len() <= old(buf)@.len(),
    ensures
        final(buf)@ == data@ + old(buf)@.skip(data@.len() as int),
{
    let ghost before = buf@;
    let n: usize = data.len();
    let mut i: usize = 0;
    while i < n
        invariant
            i <= n,
            n == data@.len(),
            n <= before.len(),
            buf@.len() == before.len(),
            forall|j: int| 0 <= j < i ==> buf@[j] == data@[j],
            forall|j: int| i <= j < before.len() ==> buf@[j] == before[j],
        decreases n - i,
    {
        buf[i] = data[i];
        i += 1;
    }
    assert(buf@ =~= data@ + before.skip(n as int));
}

impl Connection {
    /// Borrow a space.
    pub fn space_ref(&self, id: PacketNumberSpace) -> (s: &Space)
        ensures
            s@ == self@.space(id),
    {
        match id {
            PacketNumberSpace::Initial => &self.initial_space,
            PacketNumberSpace::Handshake => &self.handshake_space,
            PacketNumberSpace::ApplicationData => &self.appdata_space,
        }
    }

    /// Borrow a space to change it.
    fn space_mut(&mut self, id: PacketNumberSpace) -> (s: &mut Space)
        ensures
            s@ == old(self)@.space(id),
            final(self)@ == old(self)@.with_space(id, final(s)@),
            final(self).tls_log() == old(self).tls_log(),
            final(self).tls_origin() == old(self).tls_origin(),
    {
        match id {
            PacketNumberSpace::Initial => &mut self.initial_space,
            PacketNumberSpace::Handshake => &mut self.handshake_space,
            PacketNumberSpace::ApplicationData => &mut self.appdata_space,
        }
    }
}

impl Connection {
    /// Whether a space has something to send.
    fn has_outgoing(&self, id: PacketNumberSpace) -> (has: bool)
        requires
            self.wf(),
        ensures
            has == (outgoing(self@, id).len() > 0),
    {
        let level: usize = pn_space_to_level(id);
        assert(self@.pending_crypto[level as int] == self.pending_crypto@[level as int]@);
        if self.pending_crypto[level].len() > 0 || self.space_ref(id).has_pending_acks() {
            return true;
        }
        if id != PacketNumberSpace::ApplicationData {
            return false;
        }
        (self.side == Side::Server && self.state == State::Handshaking) || self.stream_out.len() > 0
    }

    /// The frames that wait in a space.
    fn outgoing_frames(&self, id: PacketNumberSpace) -> (frames: Vec<Frame>)
        requires
            self.wf(),
        ensures
            protection::frame_models(frames@) == outgoing(self@, id),
            protection::acks_have_ranges(frames@),
    {
        let ghost c = self@;
        let level: usize = pn_space_to_level(id);
        let mut frames: Vec<Frame> = Vec::new();
        let ghost mut ms: Seq<FrameModel> = Seq::empty();
        assert(protection::frame_models(frames@) =~= ms);
        let data = &self.pending_crypto[level];
        assert(data@ == c.pending_crypto[level as int]);
        if data.len() > 0 {
            let f = Frame::Crypto { offset: 0, data: Bytes::copy_from_slice(data) };
            proof {
                ms = ms.push(f@);
            }
            frames.push(f);
            assert(protection::frame_models(frames@) =~= ms);
        }
        let acks = self.space_ref(id).pending_acks();
        if acks.len() > 0 {
            let largest: u64 = largest_pn(acks);
            let ranges: Vec<AckRange> = vec![
                AckRange { gap: 0, range: (acks.len() - 1) as u64 },
            ];
            let f = Frame::Ack { largest_ack: largest, ack_delay: 0, ranges, ecn: None };
            proof {
                ms = ms.push(f@);
                assert(f@->Ack_ranges =~= seq![
                    AckRange { gap: 0, range: (acks@.len() - 1) as u64 },
                ]);
            }
            frames.push(f);
            assert(protection::frame_models(frames@) =~= ms);
        }
        if id == PacketNumberSpace::ApplicationData {
            if self.side == Side::Server && self.state == State::Handshaking {
                let f = Frame::HandshakeDone;
                proof {
                    ms = ms.push(f@);
                }
                frames.push(f);
                assert(protection::frame_models(frames@) =~= ms);
            }
            if self.stream_out.len() > 0 {
                let f = Frame::Stream {
                    stream_id: APP_STREAM,
                    offset: self.stream_sent,
                    data: Bytes::copy_from_slice(&self.stream_out),
                    fin: false,
                };
                proof {
                    ms = ms.push(f@);
                }
                frames.push(f);
                assert(protection::frame_models(frames@) =~= ms);
            }
        }
        assert(ms =~= outgoing(c, id));
        frames
    }

    /// Takes the frames that wait in a space, and a packet number.
    fn flush(&mut self, id: PacketNumberSpace)
        requires
            old(self).wf(),
            old(self)@.space(id).next_send_pn < u64::MAX,
        ensures
            final(self)@ == after_egest(old(self)@, id),
            final(self).tls_log() == old(self).tls_log(),
            final(self).tls_origin() == old(self).tls_origin(),
    {
        let ghost c = self@;
        let level: usize = pn_space_to_level(id);
        let mut data: Vec<u8> = Vec::new();
        std::mem::swap(&mut data, &mut self.pending_crypto[level]);
        assert(self@.pending_crypto =~~= c.pending_crypto.update(level as int, Seq::empty()));
        let _ = self.space_mut(id).take_pending_acks();
        if id == PacketNumberSpace::ApplicationData {
            if self.side == Side::Server && self.state == State::Handshaking {
                // Sent only once.
                self.state = State::Established;
            }
            let mut out: Vec<u8> = Vec::new();
            std::mem::swap(&mut out, &mut self.stream_out);
            self.stream_sent = self.stream_sent.saturating_add(out.len() as u64);
        }
        assert(self@ == flushed(c, id));
        let _ = self.space_mut(id).next_send_pn();
    }

    /// The space that sends next.
    fn next_space(&self) -> (r: Option<PacketNumberSpace>)
        requires
            self.wf(),
        ensures
            r == sending_space(self@),
    {
        if self.initial_space.has_keys() && self.has_outgoing(PacketNumberSpace::Initial) {
            Some(PacketNumberSpace::Initial)
        } else if self.handshake_space.has_keys() && self.has_outgoing(
            PacketNumberSpace::Handshake,
        ) {
            Some(PacketNumberSpace::Handshake)
        } else if self.appdata_space.has_keys() && self.has_outgoing(
            PacketNumberSpace::ApplicationData,
        ) {
            Some(PacketNumberSpace::ApplicationData)
        } else {
            None
        }
    }

    /// Makes the packet that a space sends next.
    fn make_packet(&self, id: PacketNumberSpace) -> (r: Result<Vec<u8>, ConnectionError>)
        requires
            self.wf(),
        ensures
            match next_packet(self@, id) {
                Err(e) => r == Err::<Vec<u8>, _>(e),
                Ok(p) => r matches Ok(v) && v@ == p && sent_packet_opens(self@, id, p),
            },
    {
        let space = self.space_ref(id);
        let frames = self.outgoing_frames(id);
        let pn: u64 = space.peek_send_pn();
        let pn_len: usize = protection::encoded_pn_len(pn, space.largest_recv_pn());
        protection::encrypt_packet(
            space,
            id,
            self.version,
            &self.dst_cid,
            &self.src_cid,
            &frames,
            pn,
            pn_len,
            self.state == State::Established,
        )
    }

    /// Like [`Connection::egest`], at any time: returns `None`, and leaves the
    /// connection as it is, where the space that sends has used up its packet
    /// numbers.
    pub fn try_egest(&mut self, buf: &mut [u8]) -> (r: Option<Result<usize, ConnectionError>>)
        requires
            old(self).wf(),
        ensures
            final(self).wf(),
            final(self).tls_origin() == old(self).tls_origin(),
            final(self).tls_log() == old(self).tls_log(),
            match egest_step(old(self)@, old(buf)@.len()) {
                None => r is None && final(self)@ == old(self)@ && final(buf)@ == old(buf)@,
                Some((c, result)) => {
                    &&& final(self)@ == c
                    &&& match result {
                        Err(e) => r == Some(Err::<usize, _>(e)) && final(buf)@ == old(buf)@,
                        Ok(p) => {
                            &&& r == Some(Ok::<_, ConnectionError>(p.len() as usize))
                            &&& p.len() <= old(buf)@.len()
                            &&& final(buf)@ == p + old(buf)@.skip(p.len() as int)
                        },
                    }
                },
            },
            r is None <==> !can_egest(old(self)@),
            r matches Some(Ok(n)) ==> (n == 0 <==> sending_space(old(self)@) is None),
            r matches Some(Ok(n)) ==> n > 0 ==> (sending_space(old(self)@) matches Some(id)
                && sent_packet_opens(old(self)@, id, final(buf)@.take(n as int))),
    {
        let ghost c = self@;
        proof {
            assert(Seq::<u8>::empty() + buf@.skip(0) =~= buf@);
        }
        if self.state == State::Closed {
            return Some(Err(ConnectionError::Closed));
        }
        let id = match self.next_space() {
            Some(id) => id,
            None => {
                return Some(Ok(0));
            },
        };
        if self.space_ref(id).peek_send_pn() == u64::MAX {
            return None;
        }
        match self.make_packet(id) {
            Ok(p) => {
                if buf.len() < p.len() {
                    // The packet stays to be sent.
                    return Some(
                        Err(
                            ConnectionError::Packet(
                                PacketError::BufferTooShort { needed: p.len(), actual: buf.len() },
                            ),
                        ),
                    );
                }
                self.flush(id);
                copy_front(buf, &p);
                assert(buf@.take(p@.len() as int) =~= p@);
                Some(Ok(p.len()))
            },
            Err(e) => {
                self.flush(id);
                Some(Err(e))
            },
        }
    }

    /// Produce the next outgoing packet. Returns bytes written (0 if idle). A
    /// buffer that is too small for the packet is an error, and the packet can
    /// be had with a larger one.
    pub fn egest(&mut self, buf: &mut [u8]) -> (r: Result<usize, ConnectionError>)
        requires
            old(self).wf(),
            can_egest(old(self)@),
        ensures
            final(self).wf(),
            final(self).tls_origin() == old(self).tls_origin(),
            final(self).tls_log() == old(self).tls_log(),
            egest_step(old(self)@, old(buf)@.len()) matches Some((c, result)) && final(self)@ == c
                && match result {
                Err(e) => r == Err::<usize, _>(e) && final(buf)@ == old(buf)@,
                Ok(p) => {
                    &&& r == Ok::<_, ConnectionError>(p.len() as usize)
                    &&& p.len() <= old(buf)@.len()
                    &&& final(buf)@ == p + old(buf)@.skip(p.len() as int)
                },
            },
            old(self)@.state == State::Closed ==> r == Err::<usize, _>(ConnectionError::Closed)
                && final(self)@ == old(self)@,
            r matches Ok(n) ==> (n == 0 <==> sending_space(old(self)@) is None),
            r matches Ok(n) ==> n > 0 ==> (sending_space(old(self)@) matches Some(id)
                && sent_packet_opens(old(self)@, id, final(buf)@.take(n as int))),
    {
        match self.try_egest(buf) {
            Some(r) => r,
            None => Err(ConnectionError::Transport(TransportError::InternalError)),
        }
    }
}

// ---------------------------------------------------------------------------
// Constructors
// ---------------------------------------------------------------------------

/// A client that has sent its first packet.
pub open spec fn client_start(dst_cid: Seq<u8>, src_cid: Seq<u8>, keys: Keys) -> ConnModel {
    ConnModel {
        side: Side::Client,
        state: State::Connecting,
        version: packet::VERSION_1,
        dst_cid,
        src_cid,
        initial: SpaceModel::empty(PacketNumberSpace::Initial).with_keys(keys).after_send(),
        handshake: SpaceModel::empty(PacketNumberSpace::Handshake),
        appdata: SpaceModel::empty(PacketNumberSpace::ApplicationData),
        pending_crypto: seq![Seq::empty(), Seq::empty(), Seq::empty()],
        crypto_recv_offset: seq![0, 0, 0],
        close_reason: None,
        stream_out: Seq::empty(),
        stream_sent: 0,
        stream_in: Seq::empty(),
        stream_received: 0,
    }
}

/// Whether a packet is a client's first: one that a server reads as an Initial
/// packet with these connection IDs, and opens to packet number 0 and a CRYPTO
/// frame with the ClientHello, followed by padding.
pub open spec fn is_first_packet(
    p: Seq<u8>,
    dst_cid: Seq<u8>,
    src_cid: Seq<u8>,
    hello: Seq<u8>,
) -> bool {
    let material = crypto::initial_material(0, dst_cid, true);
    &&& p.len() >= protection::MIN_INITIAL_SIZE
    &&& packet::long_header_at(p) matches Ok((h, _))
    &&& h.ty == LongType::Initial
    &&& h.version == packet::VERSION_1
    &&& h.dst_cid == dst_cid
    &&& h.src_cid == src_cid
    &&& protection::opened_long(material, p, protection::long_pn_offset(h)) matches Ok((pn, fs))
    &&& pn == 0
    &&& fs.len() > 0
    &&& fs[0] == (FrameModel::Crypto { offset: 0, data: hello })
    &&& forall|i: int| 1 <= i < fs.len() ==> #[trigger] fs[i] == FrameModel::Padding
}

/// Whether a connection ID, where it could be drawn, has the length of those
/// that this endpoint draws.
pub open spec fn is_drawn_id(id: Option<Vec<u8>>) -> bool {
    id matches Some(v) ==> v@.len() == 8
}

/// What a client comes to that has written `hello` and drawn these connection
/// IDs: its connection and its first packet. Without both IDs there is none.
pub open spec fn is_client_start(
    tls: TlsSession,
    hello: Seq<u8>,
    dst_cid: Option<Vec<u8>>,
    src_cid: Option<Vec<u8>>,
    r: Result<(Connection, Vec<u8>), ConnectionError>,
) -> bool {
    match (dst_cid, src_cid) {
        (Some(dst), Some(src)) => match protection::hello_packet(
            crypto::initial_material(0, dst@, true),
            dst@,
            src@,
            hello,
        ) {
            Err(e) => r == Err::<(Connection, Vec<u8>), _>(e),
            Ok(p) => {
                &&& r matches Ok((conn, v))
                &&& v@ == p
                &&& is_first_packet(p, dst@, src@, hello)
                &&& conn.tls_log() == tls.log()
                &&& conn.tls_origin() == tls.origin()
                &&& conn@.initial.keys matches Some(keys)
                &&& crypto::are_initial_keys(keys, dst@, true)
                &&& conn@ == client_start(dst@, src@, keys)
            },
        },
        _ => r == Err::<(Connection, Vec<u8>), _>(
            ConnectionError::Transport(TransportError::InternalError),
        ),
    }
}

impl Connection {
    /// Create a new client connection and produce the first Initial packet.
    pub fn connect(server_name: &str, config: Arc<ClientConfig>) -> (r: Result<
        (Self, Vec<u8>),
        ConnectionError,
    >)
        ensures
            match crate::tls::server_name_of(server_name@) {
                None => r == Err::<(Connection, Vec<u8>), _>(
                    ConnectionError::Transport(TransportError::InternalError),
                ),
                Some(name) => {
                    ||| r matches Err(ConnectionError::Tls(_))
                    ||| exists|tls: TlsSession, dst_cid: Option<Vec<u8>>, src_cid: Option<Vec<u8>>|
                        {
                            &&& tls.origin() == (TlsOrigin::Client { config, name })
                            &&& tls.log().len() == 1
                            &&& tls.log()[0] is Write
                            &&& is_drawn_id(dst_cid)
                            &&& is_drawn_id(src_cid)
                            &&& #[trigger] is_client_start(
                                tls,
                                written(tls.log()[0]).0,
                                dst_cid,
                                src_cid,
                                r,
                            )
                        }
                },
            },
            r matches Err(e) ==> e is Tls || e is Frame || e == ConnectionError::Transport(
                TransportError::InternalError,
            ),
            r matches Ok((conn, p)) ==> {
                let c = conn@;
                &&& conn.wf()
                &&& crate::tls::server_name_of(server_name@) matches Some(name)
                &&& conn.tls_origin() == (TlsOrigin::Client { config, name })
                &&& conn.tls_log().len() == 1
                &&& conn.tls_log()[0] matches TlsEvent::Write { out: hello, .. }
                &&& c.dst_cid.len() == 8
                &&& c.src_cid.len() == 8
                &&& c.initial.keys matches Some(keys)
                &&& crypto::are_initial_keys(keys, c.dst_cid, true)
                &&& c == client_start(c.dst_cid, c.src_cid, keys)
                &&& protection::hello_packet(
                    crypto::key_material(&keys.local),
                    c.dst_cid,
                    c.src_cid,
                    hello,
                ) == Ok::<_, ConnectionError>(p@)
                &&& is_first_packet(p@, c.dst_cid, c.src_cid, hello)
            },
    {
        let _ = crypto::install_provider();
        let name = match crate::tls::parse_server_name(server_name) {
            Some(name) => name,
            None => {
                return Err(ConnectionError::Transport(TransportError::InternalError));
            },
        };
        let mut tls = match TlsSession::client(config, name) {
            Ok(tls) => tls,
            Err(e) => {
                return Err(ConnectionError::Tls(e));
            },
        };
        let (client_hello, _) = tls.write_hs();
        let dst_cid = crypto::random_bytes(8);
        let src_cid = crypto::random_bytes(8);
        let ghost (session, dst, src) = (tls, dst_cid, src_cid);
        let r = Self::connect_with(tls, &client_hello, dst_cid, src_cid);
        assert(is_client_start(session, written(session.log()[0]).0, dst, src, r));
        r
    }

    /// The client connection of a TLS session that has written `client_hello`,
    /// with the connection IDs that were drawn, and its first Initial packet.
    pub fn connect_with(
        tls: TlsSession,
        client_hello: &Vec<u8>,
        dst_cid: Option<Vec<u8>>,
        src_cid: Option<Vec<u8>>,
    ) -> (r: Result<(Self, Vec<u8>), ConnectionError>)
        requires
            dst_cid matches Some(id) ==> id@.len() <= 20,
            src_cid matches Some(id) ==> id@.len() <= 20,
        ensures
            is_client_start(tls, client_hello@, dst_cid, src_cid, r),
            r matches Err(e) ==> e is Frame || e == ConnectionError::Transport(
                TransportError::InternalError,
            ),
    {
        let (dst_cid, src_cid) = match (dst_cid, src_cid) {
            (Some(dst_cid), Some(src_cid)) => (dst_cid, src_cid),
            _ => {
                return Err(ConnectionError::Transport(TransportError::InternalError));
            },
        };
        let keys = match crypto::client_initial_keys(&dst_cid) {
            Ok(keys) => keys,
            Err(e) => {
                return Err(ConnectionError::from(e));
            },
        };
        let p = protection::build_initial_packet(&keys, &dst_cid, &src_cid, client_hello)?;
        let hello_len: usize = client_hello.len();
        proof {
            let hello = client_hello@;
            let body = frame::frame_bytes(FrameModel::Crypto { offset: 0, data: hello });
            let target = protection::min_initial_payload(
                crypto::key_material(&keys.local),
                dst_cid@.len(),
                src_cid@.len(),
                body.len(),
                1,
            );
            assert(hello.len() == hello_len);
            lemma_first_packet(dst_cid@, src_cid@, hello, target, p@);
        }
        Ok((Self::new_client(tls, dst_cid, src_cid, keys), p))
    }

    /// A client that has sent its first packet.
    fn new_client(tls: TlsSession, dst_cid: Vec<u8>, src_cid: Vec<u8>, keys: Keys) -> (conn: Self)
        ensures
            conn@ == client_start(dst_cid@, src_cid@, keys),
            conn.tls_log() == tls.log(),
            conn.tls_origin() == tls.origin(),
    {
        let mut initial_space = Space::new(PacketNumberSpace::Initial);
        initial_space.set_keys(keys);
        // The first packet has taken packet number 0.
        let _ = initial_space.next_send_pn();
        let conn = Connection {
            side: Side::Client,
            state: State::Connecting,
            tls,
            version: packet::VERSION_1,
            dst_cid,
            src_cid,
            initial_space,
            handshake_space: Space::new(PacketNumberSpace::Handshake),
            appdata_space: Space::new(PacketNumberSpace::ApplicationData),
            pending_crypto: [Vec::new(), Vec::new(), Vec::new()],
            crypto_recv_offset: [0, 0, 0],
            close_reason: None,
            stream_out: Vec::new(),
            stream_sent: 0,
            stream_in: Vec::new(),
            stream_received: 0,
        };
        proof {
            let start = client_start(dst_cid@, src_cid@, keys);
            assert(conn@.pending_crypto =~~= start.pending_crypto);
            assert(conn@.crypto_recv_offset =~= start.crypto_recv_offset);
        }
        conn
    }
}

/// A ClientHello in a packet of the minimum size is a client's first packet.
pub proof fn lemma_first_packet(
    dst_cid: Seq<u8>,
    src_cid: Seq<u8>,
    hello: Seq<u8>,
    target: int,
    p: Seq<u8>,
)
    requires
        dst_cid.len() <= 20,
        src_cid.len() <= 20,
        hello.len() <= usize::MAX,
        p.len() >= protection::MIN_INITIAL_SIZE,
        protection::frame_write_error(FrameModel::Crypto { offset: 0, data: hello }) is None,
        ({
            let material = crypto::initial_material(0, dst_cid, true);
            let payload = protection::padded(
                frame::frame_bytes(FrameModel::Crypto { offset: 0, data: hello }),
                target,
            );
            &&& crypto::hp_sample_len(material) <= 16
            &&& protection::long_packet(
                material,
                PacketNumberSpace::Initial,
                packet::VERSION_1,
                dst_cid,
                src_cid,
                payload,
                0,
                1,
            ) == Some(p)
            &&& protection::packet_opens(
                material,
                PacketNumberSpace::Initial,
                packet::VERSION_1,
                dst_cid,
                src_cid,
                payload,
                0,
                1,
                false,
                p,
            )
        }),
    ensures
        is_first_packet(p, dst_cid, src_cid, hello),
{
    let fields = frame::frame_fields(FrameModel::Crypto { offset: 0, data: hello });
    assert(hello.len() <= VARINT_MAX) by {
        reveal_with_fuel(frame::sound_prefix, 3);
        assert(fields.skip(1) =~= seq![hello.len() as u64]);
        assert(fields.skip(1).skip(1) =~= Seq::<u64>::empty());
    }
    protection::law_hello_received(
        crypto::initial_material(0, dst_cid, true),
        dst_cid,
        src_cid,
        hello,
        target,
        p,
    );
}

/// The handshake data at the start of the stream in a list of frames.
pub open spec fn hello_in(fs: Seq<FrameModel>) -> Seq<u8>
    decreases fs.len(),
{
    if fs.len() == 0 {
        Seq::empty()
    } else {
        let before = hello_in(fs.drop_last());
        match fs.last() {
            FrameModel::Crypto { offset: 0, data } => before + data,
            _ => before,
        }
    }
}

/// A server that has accepted a client's first packet with header `h`, its
/// ClientHello and what TLS answered to it. With handshake keys TLS was asked
/// again, for what it has to send under them.
pub open spec fn server_start(
    h: LongModel,
    keys: Keys,
    hello: Seq<u8>,
    ev: Seq<TlsEvent>,
) -> ConnModel {
    let (out, hs_keys) = written(ev[1]);
    let (out2, app_keys) = if hs_keys is Some {
        written(ev[2])
    } else {
        (Seq::empty(), None)
    };
    let handshake = SpaceModel::empty(PacketNumberSpace::Handshake);
    let appdata = SpaceModel::empty(PacketNumberSpace::ApplicationData);
    ConnModel {
        side: Side::Server,
        state: State::Handshaking,
        version: h.version,
        dst_cid: h.src_cid,
        src_cid: h.dst_cid,
        initial: SpaceModel::empty(PacketNumberSpace::Initial).with_keys(keys).after_recv(0),
        handshake: match hs_keys {
            Some(k) => handshake.with_keys(k),
            None => handshake,
        },
        appdata: match app_keys {
            Some(k) => appdata.with_keys(k),
            None => appdata,
        },
        pending_crypto: seq![out, out2, Seq::empty()],
        crypto_recv_offset: seq![hello.len() as u64, 0, 0],
        close_reason: None,
        stream_out: Seq::empty(),
        stream_sent: 0,
        stream_in: Seq::empty(),
        stream_received: 0,
    }
}

/// The exchanges with TLS when a server accepts: the ClientHello is read, and
/// what TLS has to send is taken, twice if it comes with keys.
pub open spec fn accept_exchanges(hello: Seq<u8>, ev: Seq<TlsEvent>) -> bool {
    &&& ev.len() > 0
    &&& ev[0] matches TlsEvent::Read { data, outcome }
    &&& data == hello
    &&& outcome is Ok
    &&& answers_follow(ev[0], ev)
}

/// Whether TLS was asked what it has to send after a first exchange, and asked
/// again where the answer came with keys.
pub open spec fn answers_follow(first: TlsEvent, ev: Seq<TlsEvent>) -> bool {
    &&& ev.len() >= 2
    &&& ev[0] == first
    &&& ev[1] is Write
    &&& ev.len() == if written(ev[1]).1 is Some {
        3
    } else {
        2nat
    }
    &&& ev.len() == 3 ==> ev[2] is Write
}

/// The handshake data at the start of the stream in a list of frames.
fn collect_hello(frames: &Vec<Frame>) -> (hello: Vec<u8>)
    ensures
        hello@ == hello_in(protection::frame_models(frames@)),
{
    let ghost fs = protection::frame_models(frames@);
    let mut hello: Vec<u8> = Vec::new();
    let mut i: usize = 0;
    assert(fs.take(0) =~= Seq::<FrameModel>::empty());
    while i < frames.len()
        invariant
            i <= frames@.len(),
            fs == protection::frame_models(frames@),
            hello@ == hello_in(fs.take(i as int)),
        decreases frames@.len() - i,
    {
        proof {
            assert(fs.take(i + 1).drop_last() =~= fs.take(i as int));
            assert(fs.take(i + 1).last() == frames@[i as int]@);
        }
        let ghost before = hello@;
        if let Frame::Crypto { offset, data } = &frames[i] {
            if *offset == 0 {
                hello.extend_from_slice(buffer::bytes_slice(data));
                assert(hello@ =~= before + buffer::bytes_content(data));
            }
        }
        i += 1;
    }
    assert(fs.take(i as int) =~= fs);
    hello
}

/// A copy of the bytes of a connection ID.
fn cid_bytes(id: &frame::ConnectionId) -> (v: Vec<u8>)
    ensures
        v@ == id@,
{
    let mut v: Vec<u8> = Vec::new();
    v.extend_from_slice(buffer::bytes_slice(&id.0));
    assert(v@ =~= id@);
    v
}

impl Connection {
    /// Accept a connection from an incoming client Initial packet.
    ///
    /// Returns the new server [`Connection`]. The caller should call
    /// [`egest`](Self::egest) to retrieve response packets.
    pub fn accept(initial_packet: &[u8], server_config: Arc<ServerConfig>) -> (r: Result<
        Self,
        ConnectionError,
    >)
        ensures
            match packet::long_header_at(initial_packet@) {
                Err(e) => r == Err::<Connection, _>(ConnectionError::Packet(e)),
                Ok((h, _)) => match protection::opened_long(
                    crypto::initial_material(0, h.dst_cid, true),
                    initial_packet@,
                    protection::long_pn_offset(h),
                ) {
                    Err(e) => r == Err::<Connection, _>(e),
                    Ok((_, fs)) => match r {
                        Err(e) => {
                            &&& e matches ConnectionError::Tls(cause)
                            &&& match crate::tls::server_refusal(&*server_config) {
                                Some(refusal) => cause == refusal,
                                None => exists|tls: TlsSession|
                                    {
                                        &&& #[trigger] tls.origin() == (TlsOrigin::Server {
                                            config: server_config,
                                        })
                                        &&& tls.log() == seq![
                                            TlsEvent::Read {
                                                data: hello_in(fs),
                                                outcome: Err(cause),
                                            },
                                        ]
                                    },
                            }
                        },
                        Ok(conn) => {
                            &&& crate::tls::server_refusal(&*server_config) is None
                            &&& conn.wf()
                            &&& conn.tls_origin() == (TlsOrigin::Server { config: server_config })
                            &&& accept_exchanges(hello_in(fs), conn.tls_log())
                            &&& conn@.initial.keys matches Some(keys)
                            &&& crypto::are_initial_keys(keys, h.dst_cid, false)
                            &&& conn@ == server_start(h, keys, hello_in(fs), conn.tls_log())
                        },
                    },
                },
            },
    {
        let _ = crypto::install_provider();
        proof {
            packet::lemma_long_header_bounds(initial_packet@);
        }
        // Parse the Initial packet header.
        let (hdr, _) = match packet::parse_long_header(initial_packet) {
            Ok(parsed) => parsed,
            Err(e) => {
                return Err(ConnectionError::Packet(e));
            },
        };
        // The server receives with the material that the client sends with.
        let keys = match crypto::server_initial_keys(buffer::bytes_slice(&hdr.dst_cid.0)) {
            Ok(keys) => keys,
            Err(e) => {
                return Err(ConnectionError::from(e));
            },
        };
        let (frames, _) = protection::decrypt_initial(initial_packet, &hdr, &keys)?;
        // Extract the ClientHello and feed it to TLS.
        let client_hello = collect_hello(&frames);
        let mut tls = match TlsSession::server(server_config) {
            Ok(tls) => tls,
            Err(e) => {
                return Err(ConnectionError::Tls(e));
            },
        };
        let outcome = tls.read_hs(&client_hello);
        proof {
            let read = TlsEvent::Read { data: client_hello@, outcome };
            assert(tls.log() =~= seq![read]);
            assert(tls.origin() == (TlsOrigin::Server { config: server_config }));
        }
        Self::accept_with(tls, outcome, &hdr, keys, &client_hello)
    }

    /// The server connection of a TLS session that was handed the ClientHello
    /// of the packet with header `hdr`, by what TLS made of it.
    pub fn accept_with(
        tls: TlsSession,
        outcome: Result<(), rustls::Error>,
        hdr: &packet::LongHeader,
        keys: Keys,
        client_hello: &Vec<u8>,
    ) -> (r: Result<Self, ConnectionError>)
        requires
            tls.log().len() == 1,
        ensures
            match outcome {
                Err(e) => r == Err::<Connection, _>(ConnectionError::Tls(e)),
                Ok(()) => {
                    &&& r matches Ok(conn)
                    &&& conn.tls_origin() == tls.origin()
                    &&& answers_follow(tls.log()[0], conn.tls_log())
                    &&& conn@ == server_start(hdr@, keys, client_hello@, conn.tls_log())
                },
            },
    {
        match outcome {
            Ok(()) => Ok(Self::new_server(tls, hdr, keys, client_hello)),
            Err(e) => Err(ConnectionError::Tls(e)),
        }
    }

    /// A server whose TLS session has read the ClientHello, with what TLS
    /// answers to it.
    fn new_server(
        mut tls: TlsSession,
        hdr: &packet::LongHeader,
        keys: Keys,
        client_hello: &Vec<u8>,
    ) -> (conn: Self)
        requires
            tls.log().len() == 1,
        ensures
            conn.tls_origin() == tls.origin(),
            answers_follow(tls.log()[0], conn.tls_log()),
            conn@ == server_start(hdr@, keys, client_hello@, conn.tls_log()),
    {
        let (out, change) = tls.write_hs();
        let hs_keys = take_keys(change);
        let mut out2: Vec<u8> = Vec::new();
        let mut handshake_space = Space::new(PacketNumberSpace::Handshake);
        let mut appdata_space = Space::new(PacketNumberSpace::ApplicationData);
        if let Some(k) = hs_keys {
            handshake_space.set_keys(k);
            // TLS has more to send under the handshake keys.
            let (more, change2) = tls.write_hs();
            out2 = more;
            if let Some(k2) = take_keys(change2) {
                appdata_space.set_keys(k2);
            }
        }
        let mut initial_space = Space::new(PacketNumberSpace::Initial);
        initial_space.set_keys(keys);
        // The client's Initial has been received.
        initial_space.record_recv_pn(0);
        let ghost (o1, o2) = (out@, out2@);
        let conn = Connection {
            side: Side::Server,
            state: State::Handshaking,
            tls,
            version: hdr.version,
            // We send to the client's ID, and the client sends to ours.
            dst_cid: cid_bytes(&hdr.src_cid),
            src_cid: cid_bytes(&hdr.dst_cid),
            initial_space,
            handshake_space,
            appdata_space,
            pending_crypto: [out, out2, Vec::new()],
            crypto_recv_offset: [client_hello.len() as u64, 0, 0],
            close_reason: None,
            stream_out: Vec::new(),
            stream_sent: 0,
            stream_in: Vec::new(),
            stream_received: 0,
        };
        proof {
            assert(conn@.pending_crypto =~~= seq![o1, o2, Seq::<u8>::empty()]);
            assert(conn@.crypto_recv_offset =~= seq![client_hello@.len() as u64, 0, 0]);
        }
        conn
    }
}

// ---------------------------------------------------------------------------
// Application data, timers and queries
// ---------------------------------------------------------------------------

impl Connection {
    /// Queue application data for the next packet that carries it.
    pub fn send_data(&mut self, data: &[u8])
        ensures
            final(self)@ == (ConnModel {
                stream_out: old(self)@.stream_out + data@,
                ..old(self)@
            }),
            final(self).tls_log() == old(self).tls_log(),
            final(self).tls_origin() == old(self).tls_origin(),
    {
        self.stream_out.extend_from_slice(data);
        assert(self@.stream_out =~= old(self)@.stream_out + data@);
    }

    /// Take received application data. Returns bytes copied.
    pub fn recv_data(&mut self, buf: &mut [u8]) -> (n: usize)
        ensures
            n == if old(self)@.stream_in.len() < old(buf)@.len() {
                old(self)@.stream_in.len()
            } else {
                old(buf)@.len()
            },
            final(buf)@ == old(self)@.stream_in.take(n as int) + old(buf)@.skip(n as int),
            final(self)@ == (ConnModel {
                stream_in: old(self)@.stream_in.skip(n as int),
                ..old(self)@
            }),
            final(self).tls_log() == old(self).tls_log(),
            final(self).tls_origin() == old(self).tls_origin(),
    {
        let ghost had = self.stream_in@;
        let n: usize = if self.stream_in.len() < buf.len() {
            self.stream_in.len()
        } else {
            buf.len()
        };
        let mut rest: Vec<u8> = self.stream_in.split_off(n);
        std::mem::swap(&mut rest, &mut self.stream_in);
        copy_front(buf, &rest);
        proof {
            assert(rest@ =~= had.take(n as int));
            assert(self@.stream_in =~= had.skip(n as int));
        }
        n
    }

    /// When to fire a timer. There are no timers yet.
    pub fn next_timeout(&self) -> (r: Option<Instant>)
        ensures
            r is None,
    {
        None
    }

    /// A timer fired. There are no timers yet.
    pub fn on_timeout(&mut self)
        ensures
            *final(self) == *old(self),
    {
    }

    pub fn is_established(&self) -> (r: bool)
        ensures
            r == (self@.state == State::Established),
    {
        self.state == State::Established
    }

    pub fn is_closed(&self) -> (r: bool)
        ensures
            r == (self@.state == State::Closed),
    {
        self.state == State::Closed
    }

    pub fn close_reason(&self) -> (r: Option<&ConnectionError>)
        ensures
            r == match self@.close_reason {
                Some(e) => Some(&e),
                None => None,
            },
    {
        match &self.close_reason {
            Some(e) => Some(e),
            None => None,
        }
    }

    pub fn version(&self) -> (v: u32)
        ensures
            v == self@.version,
    {
        self.version
    }
}

} // verus!
