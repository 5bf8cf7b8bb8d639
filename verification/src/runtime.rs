//! The event loop of a connection, without its I/O.
//!
//! An [`EventLoop`] pairs a [`Connection`] with datagram buffers. It says what
//! is to be done next, an [`IoAction`]; the caller does it and hands back what
//! came of it, an [`IoEvent`].

use vstd::prelude::*;

use crate::connection;
use crate::connection::{ConnModel, Connection};
use crate::error::{ConnectionError, TransportError};
use crate::laws;
use crate::packet::PacketNumberSpace;
use crate::tls::TlsEvent;

verus! {

/// Max datagram size (QUIC requires at least 1200).
pub const MAX_DGRAM: usize = 2048;

/// How many steps a handshake may take.
pub const MAX_HANDSHAKE_STEPS: u32 = 1000;

/// What the caller is to do next.
pub enum IoAction {
    /// Wait for data to become available.
    Poll,
    /// Receive a datagram into the receive buffer.
    Receive,
    /// Send the first bytes of the send buffer.
    Send(usize),
    /// The step is over. Whether data was available.
    Done(bool),
    /// The step failed.
    Fail(ConnectionError),
    /// The connection cannot take the packet, or has no packet number left.
    Overrun,
}

/// What came of an action.
#[derive(Debug, Clone, Copy, PartialEq, Eq)]
pub enum IoEvent {
    /// Data is available.
    PollReady,
    /// No data is available.
    PollIdle,
    /// Waiting failed.
    PollFailed,
    /// A datagram was received.
    Received(usize),
    /// No datagram was received.
    ReceiveFailed,
    /// The bytes were sent.
    Sent,
    /// Sending failed.
    SendFailed,
}

/// What the event loop waits for.
#[derive(Debug, Clone, Copy, PartialEq, Eq, Structural)]
pub enum Phase {
    /// Nothing: no step is under way.
    Idle,
    /// The outcome of [`IoAction::Poll`].
    Polling,
    /// The outcome of [`IoAction::Receive`].
    Receiving,
    /// The outcome of [`IoAction::Send`].
    Sending,
}

/// A connection with its datagram buffers.
pub struct EventLoop {
    conn: Connection,
    send_buf: Vec<u8>,
    recv_buf: Vec<u8>,
    worked: bool,
    phase: Phase,
}

/// What an event loop is made of.
pub struct LoopModel {
    pub conn: ConnModel,
    pub send_buf: Seq<u8>,
    pub recv_buf: Seq<u8>,
    pub worked: bool,
    pub phase: Phase,
}

impl View for EventLoop {
    type V = LoopModel;

    closed spec fn view(&self) -> LoopModel {
        LoopModel {
            conn: self.conn@,
            send_buf: self.send_buf@,
            recv_buf: self.recv_buf@,
            worked: self.worked,
            phase: self.phase,
        }
    }
}

/// Whether an event is an outcome that a phase waits for.
pub open spec fn expected(m: LoopModel, event: IoEvent) -> bool {
    match event {
        IoEvent::PollReady | IoEvent::PollIdle | IoEvent::PollFailed => m.phase == Phase::Polling,
        IoEvent::Received(n) => m.phase == Phase::Receiving && n <= m.recv_buf.len(),
        IoEvent::ReceiveFailed => m.phase == Phase::Receiving,
        IoEvent::Sent | IoEvent::SendFailed => m.phase == Phase::Sending,
    }
}

/// The failure of an I/O operation.
pub open spec fn io_failure() -> IoAction {
    IoAction::Fail(ConnectionError::Transport(TransportError::InternalError))
}

/// Sends what the connection has to send, one packet at a time, and ends the
/// step when there is no more.
pub open spec fn flush_step(m: LoopModel) -> (LoopModel, IoAction) {
    match connection::egest_step(m.conn, m.send_buf.len()) {
        None => (LoopModel { phase: Phase::Idle, ..m }, IoAction::Overrun),
        Some((c, Err(e))) => (
            LoopModel { conn: c, phase: Phase::Idle, ..m },
            IoAction::Fail(e),
        ),
        Some((c, Ok(p))) => if p.len() == 0 {
            (LoopModel { conn: c, phase: Phase::Idle, ..m }, IoAction::Done(m.worked))
        } else {
            (
                LoopModel {
                    conn: c,
                    send_buf: p + m.send_buf.skip(p.len() as int),
                    phase: Phase::Sending,
                    ..m
                },
                IoAction::Send(p.len() as usize),
            )
        },
    }
}

/// Feeds a received datagram to the connection. A packet that it rejects ends
/// the step.
pub open spec fn receive_step(m: LoopModel, n: usize, ev: Seq<TlsEvent>) -> (
    LoopModel,
    IoAction,
    nat,
) {
    match connection::ingest_step(m.conn, m.recv_buf.take(n as int), ev) {
        None => (LoopModel { phase: Phase::Idle, ..m }, IoAction::Overrun, 0),
        Some((p, Err(e))) => (
            LoopModel { conn: p.conn, phase: Phase::Idle, ..m },
            IoAction::Fail(e),
            p.used,
        ),
        Some((p, Ok(_))) => (LoopModel { conn: p.conn, ..m }, IoAction::Receive, p.used),
    }
}

/// What an event does, given what TLS answered on the way: the new state, what
/// to do next, and how many exchanges with TLS it took.
pub open spec fn event_step(m: LoopModel, event: IoEvent, ev: Seq<TlsEvent>) -> (
    LoopModel,
    IoAction,
    nat,
) {
    match event {
        IoEvent::PollReady => (
            LoopModel { worked: true, phase: Phase::Receiving, ..m },
            IoAction::Receive,
            0,
        ),
        IoEvent::PollFailed | IoEvent::SendFailed => (
            LoopModel { phase: Phase::Idle, ..m },
            io_failure(),
            0,
        ),
        IoEvent::Received(n) => if n == 0 {
            let (d, a) = flush_step(m);
            (d, a, 0)
        } else {
            receive_step(m, n, ev)
        },
        IoEvent::PollIdle | IoEvent::ReceiveFailed | IoEvent::Sent => {
            let (d, a) = flush_step(m);
            (d, a, 0)
        },
    }
}

/// Whether the exchanges with TLS are those that the event makes.
pub open spec fn exchanges_fit(m: LoopModel, event: IoEvent, ev: Seq<TlsEvent>) -> bool {
    match event {
        IoEvent::Received(n) => n > 0 ==> (connection::ingest_step(
            m.conn,
            m.recv_buf.take(n as int),
            ev,
        ) matches Some((p, _)) ==> p.fits),
        _ => true,
    }
}

impl EventLoop {
    /// The connection is well-formed, and the buffers hold a datagram.
    pub closed spec fn wf(&self) -> bool {
        &&& self.conn.wf()
        &&& self.send_buf@.len() == MAX_DGRAM
        &&& self.recv_buf@.len() == MAX_DGRAM
    }

    /// Every exchange with TLS so far.
    pub closed spec fn tls_log(&self) -> Seq<TlsEvent> {
        self.conn.tls_log()
    }

    /// Create a new event loop.
    pub fn new(conn: Connection) -> (r: Self)
        requires
            conn.wf(),
        ensures
            r.wf(),
            r.tls_log() == conn.tls_log(),
            r@.conn == conn@,
            r@.send_buf.len() == MAX_DGRAM,
            r@.recv_buf.len() == MAX_DGRAM,
            r@.phase == Phase::Idle,
            !r@.worked,
    {
        EventLoop {
            conn,
            send_buf: vec![0u8; MAX_DGRAM],
            recv_buf: vec![0u8; MAX_DGRAM],
            worked: false,
            phase: Phase::Idle,
        }
    }

    pub fn conn(&self) -> (c: &Connection)
        ensures
            c@ == self@.conn,
            self.wf() ==> c.wf(),
    {
        &self.conn
    }

    pub fn conn_mut(&mut self) -> (c: &mut Connection)
        ensures
            c@ == old(self)@.conn,
            old(self).wf() ==> c.wf(),
            final(self)@ == (LoopModel { conn: final(c)@, ..old(self)@ }),
            old(self).wf() && final(c).wf() ==> final(self).wf(),
            final(self).tls_log() == final(c).tls_log(),
            c.tls_log() == old(self).tls_log(),
    {
        &mut self.conn
    }

    /// The buffer to receive the next datagram into.
    pub fn recv_buf(&mut self) -> (b: &mut [u8])
        ensures
            b@ == old(self)@.recv_buf,
            final(self)@ == (LoopModel { recv_buf: final(b)@, ..old(self)@ }),
            final(self).tls_log() == old(self).tls_log(),
            old(self).wf() ==> b@.len() == MAX_DGRAM,
            old(self).wf() && final(b)@.len() == MAX_DGRAM ==> final(self).wf(),
    {
        self.recv_buf.as_mut_slice()
    }

    /// The first `n` bytes of the send buffer.
    pub fn outgoing(&self, n: usize) -> (b: &[u8])
        requires
            n <= self@.send_buf.len(),
        ensures
            b@ == self@.send_buf.take(n as int),
    {
        let b = vstd::slice::slice_subrange(self.send_buf.as_slice(), 0, n);
        assert(b@ =~= self@.send_buf.take(n as int));
        b
    }

    pub fn is_established(&self) -> (r: bool)
        ensures
            r == (self@.conn.state == connection::State::Established),
    {
        self.conn.is_established()
    }

    /// Whether an event is an outcome that is waited for.
    pub fn expects(&self, event: IoEvent) -> (r: bool)
        ensures
            r == expected(self@, event),
    {
        match event {
            IoEvent::PollReady | IoEvent::PollIdle | IoEvent::PollFailed => self.phase
                == Phase::Polling,
            IoEvent::Received(n) => self.phase == Phase::Receiving && n <= self.recv_buf.len(),
            IoEvent::ReceiveFailed => self.phase == Phase::Receiving,
            IoEvent::Sent | IoEvent::SendFailed => self.phase == Phase::Sending,
        }
    }

    /// Begins one iteration of the event loop: wait for data, feed what comes
    /// to the connection, and send what it has to send.
    pub fn begin_step(&mut self) -> (a: IoAction)
        ensures
            a == IoAction::Poll,
            final(self)@ == (LoopModel { worked: false, phase: Phase::Polling, ..old(self)@ }),
            old(self).wf() ==> final(self).wf(),
            final(self).tls_log() == old(self).tls_log(),
    {
        self.worked = false;
        self.phase = Phase::Polling;
        IoAction::Poll
    }

    /// Begins sending what the connection has to send.
    pub fn begin_flush(&mut self) -> (a: IoAction)
        requires
            old(self).wf(),
        ensures
            (final(self)@, a) == flush_step(old(self)@),
            final(self).wf(),
            final(self).tls_log() == old(self).tls_log(),
    {
        let r = self.conn.try_egest(self.send_buf.as_mut_slice());
        proof {
            let before = old(self)@.send_buf;
            assert(Seq::<u8>::empty() + before.skip(0) =~= before);
            if let Some((_, Ok(p))) = connection::egest_step(old(self)@.conn, before.len()) {
                if p.len() == 0 {
                    assert(p =~= Seq::<u8>::empty());
                }
            }
        }
        match r {
            None => {
                self.phase = Phase::Idle;
                IoAction::Overrun
            },
            Some(Err(e)) => {
                self.phase = Phase::Idle;
                IoAction::Fail(e)
            },
            Some(Ok(n)) => {
                if n == 0 {
                    self.phase = Phase::Idle;
                    IoAction::Done(self.worked)
                } else {
                    self.phase = Phase::Sending;
                    IoAction::Send(n)
                }
            },
        }
    }

    /// Feeds the first `n` bytes of the receive buffer to the connection.
    fn receive(&mut self, n: usize) -> (a: IoAction)
        requires
            old(self).wf(),
            n <= old(self)@.recv_buf.len(),
        ensures
            ({
                let log = old(self).tls_log();
                let ev = final(self).tls_log().skip(log.len() as int);
                &&& final(self).tls_log() == log + ev
                &&& (final(self)@, a, ev.len()) == receive_step(old(self)@, n, ev)
                &&& exchanges_fit(old(self)@, IoEvent::Received(n), ev)
            }),
            final(self).wf(),
    {
        let datagram = vstd::slice::slice_subrange(self.recv_buf.as_slice(), 0, n);
        assert(datagram@ =~= self@.recv_buf.take(n as int));
        match self.conn.try_ingest(datagram) {
            None => {
                self.phase = Phase::Idle;
                IoAction::Overrun
            },
            Some(Err(e)) => {
                self.phase = Phase::Idle;
                IoAction::Fail(e)
            },
            Some(Ok(_)) => IoAction::Receive,
        }
    }

    /// Says what to do next, once an action has come to its end.
    pub fn on_event(&mut self, event: IoEvent) -> (a: IoAction)
        requires
            old(self).wf(),
            expected(old(self)@, event),
        ensures
            final(self).wf(),
            ({
                let log = old(self).tls_log();
                let ev = final(self).tls_log().skip(log.len() as int);
                &&& final(self).tls_log() == log + ev
                &&& (final(self)@, a, ev.len()) == event_step(old(self)@, event, ev)
                &&& exchanges_fit(old(self)@, event, ev)
            }),
    {
        proof {
            let log = self.tls_log();
            assert(log + Seq::<TlsEvent>::empty() =~= log);
            assert(log.skip(log.len() as int) =~= Seq::<TlsEvent>::empty());
        }
        match event {
            IoEvent::PollReady => {
                self.worked = true;
                self.phase = Phase::Receiving;
                IoAction::Receive
            },
            IoEvent::PollFailed | IoEvent::SendFailed => {
                self.phase = Phase::Idle;
                IoAction::Fail(ConnectionError::Transport(TransportError::InternalError))
            },
            IoEvent::Received(n) => {
                if n == 0 {
                    self.begin_flush()
                } else {
                    self.receive(n)
                }
            },
            IoEvent::PollIdle | IoEvent::ReceiveFailed | IoEvent::Sent => self.begin_flush(),
        }
    }
}

/// What a loop that waits for a handshake is to do next.
#[derive(Debug, Clone, Copy, PartialEq, Eq, Structural)]
pub enum Verdict {
    /// Take another step.
    Step,
    /// The handshake is complete.
    Done,
    /// It takes too long.
    Fail,
}

/// Whether one endpoint that has taken `steps` steps goes on with its
/// handshake. The limit counts before completion does.
pub fn handshake_verdict(steps: u32, established: bool) -> (v: Verdict)
    ensures
        v == if steps > MAX_HANDSHAKE_STEPS {
            Verdict::Fail
        } else if established {
            Verdict::Done
        } else {
            Verdict::Step
        },
{
    if steps > MAX_HANDSHAKE_STEPS {
        Verdict::Fail
    } else if established {
        Verdict::Done
    } else {
        Verdict::Step
    }
}

/// Whether two endpoints that have taken `steps` steps each go on with their
/// handshake. Completion counts before the limit does.
pub fn drive_verdict(steps: u32, client_established: bool, server_established: bool) -> (v: Verdict)
    ensures
        v == if client_established && server_established {
            Verdict::Done
        } else if steps > MAX_HANDSHAKE_STEPS {
            Verdict::Fail
        } else {
            Verdict::Step
        },
{
    if client_established && server_established {
        Verdict::Done
    } else if steps > MAX_HANDSHAKE_STEPS {
        Verdict::Fail
    } else {
        Verdict::Step
    }
}

/// Law: a step ends in [`IoAction::Done`] only where the connection has nothing
/// left to send: no packet number space has keys and anything that waits. Asked
/// for another packet, it has none. What is reported is whether data was
/// available in this step.
pub proof fn law_done_has_sent_all(m: LoopModel, event: IoEvent, ev: Seq<TlsEvent>, room: nat)
    ensures
        ({
            let (d, a, used) = event_step(m, event, ev);
            a matches IoAction::Done(worked) ==> {
                &&& forall|id: PacketNumberSpace| !#[trigger] laws::has_to_send(d.conn, id)
                &&& connection::egest_step(d.conn, room) == Some(
                    (d.conn, Ok::<Seq<u8>, ConnectionError>(Seq::empty())),
                )
                &&& worked == m.worked
                &&& d.conn == m.conn
                &&& used == 0
            }
        }),
        flush_step(m).1 matches IoAction::Done(worked) ==> worked == m.worked && forall|
            id: PacketNumberSpace,
        | !#[trigger] laws::has_to_send(flush_step(m).0.conn, id),
{
    if m.conn.state != connection::State::Closed {
        laws::law_egest_order(m.conn, m.send_buf.len());
        laws::law_egest_order(m.conn, room);
        laws::law_egest_idle(m.conn, m.send_buf.len());
        assert forall|id: PacketNumberSpace| connection::sending_space(m.conn) is None implies
            !#[trigger] laws::has_to_send(m.conn, id) by {
            match id {
                PacketNumberSpace::Initial => {},
                PacketNumberSpace::Handshake => {},
                PacketNumberSpace::ApplicationData => {},
            }
        }
    }
}

/// Law: once there is no more to receive, and after each packet that was sent,
/// the loop goes on to send: it hands out the connection's next packet, which
/// stands at the front of the send buffer, or ends the step. It neither waits nor
/// receives before everything is sent.
pub proof fn law_sends_what_is_pending(m: LoopModel, event: IoEvent, ev: Seq<TlsEvent>)
    requires
        event is PollIdle || event is ReceiveFailed || event is Sent || event
            == IoEvent::Received(0),
        m.send_buf.len() <= usize::MAX,
    ensures
        ({
            let (d, a, used) = event_step(m, event, ev);
            &&& used == 0
            &&& d.recv_buf == m.recv_buf
            &&& d.worked == m.worked
            &&& match connection::egest_step(m.conn, m.send_buf.len()) {
                None => a is Overrun && d.conn == m.conn,
                Some((c, Err(e))) => a == IoAction::Fail(e) && d.conn == c,
                Some((c, Ok(p))) => {
                    &&& d.conn == c
                    &&& p.len() > 0 && p.len() <= m.send_buf.len() ==> {
                        &&& a == IoAction::Send(p.len() as usize)
                        &&& d.send_buf.take(p.len() as int) == p
                        &&& d.send_buf.len() == m.send_buf.len()
                        &&& d.phase == Phase::Sending
                    }
                    &&& p.len() == 0 ==> a == IoAction::Done(m.worked)
                },
            }
        }),
        flush_step(m) == (event_step(m, event, ev).0, event_step(m, event, ev).1),
{
    if let Some((c, Ok(p))) = connection::egest_step(m.conn, m.send_buf.len()) {
        if p.len() <= m.send_buf.len() {
            let sent = p + m.send_buf.skip(p.len() as int);
            assert(sent.take(p.len() as int) =~= p);
        }
    }
}

/// Law: a datagram that was received is ingested, all of it and nothing but it.
/// Where the connection takes it, the loop receives again, and where not, its
/// error ends the step.
pub proof fn law_ingests_what_is_received(m: LoopModel, n: usize, ev: Seq<TlsEvent>)
    requires
        0 < n <= m.recv_buf.len(),
    ensures
        ({
            let (d, a, used) = event_step(m, IoEvent::Received(n), ev);
            &&& d.send_buf == m.send_buf
            &&& d.recv_buf == m.recv_buf
            &&& d.worked == m.worked
            &&& match connection::ingest_step(m.conn, m.recv_buf.subrange(0, n as int), ev) {
                None => a is Overrun && d.conn == m.conn && used == 0,
                Some((p, Ok(_))) => a is Receive && d.conn == p.conn && used == p.used,
                Some((p, Err(e))) => a == IoAction::Fail(e) && d.conn == p.conn && used == p.used,
            }
        }),
{
    assert(m.recv_buf.subrange(0, n as int) =~= m.recv_buf.take(n as int));
}

/// Law: data that becomes available is received, and makes the step one in which
/// data was available. Failing to wait or to send ends the step with an internal
/// error. None of this touches the connection.
pub proof fn law_waiting(m: LoopModel, ev: Seq<TlsEvent>)
    ensures
        ({
            let (d, a, used) = event_step(m, IoEvent::PollReady, ev);
            &&& a is Receive
            &&& d.worked
            &&& d.conn == m.conn
            &&& d.phase == Phase::Receiving
            &&& used == 0
        }),
        forall|event: IoEvent|
            event is PollFailed || event is SendFailed ==> {
                let (d, a, used) = #[trigger] event_step(m, event, ev);
                &&& a == IoAction::Fail(ConnectionError::Transport(TransportError::InternalError))
                &&& d.conn == m.conn
                &&& d.phase == Phase::Idle
                &&& used == 0
            },
{
}

/// Law: what the loop waits for is the outcome of what it asked for: after
/// [`IoAction::Receive`] a datagram or none, after [`IoAction::Send`] that it was
/// sent or not. After an action that ends the step it waits for nothing.
pub proof fn law_awaits_what_it_asked_for(
    m: LoopModel,
    event: IoEvent,
    ev: Seq<TlsEvent>,
    n: usize,
    other: IoEvent,
)
    requires
        expected(m, event),
    ensures
        ({
            let (d, a, used) = event_step(m, event, ev);
            &&& !(a is Poll)
            &&& a is Receive ==> expected(d, IoEvent::ReceiveFailed) && (n <= d.recv_buf.len()
                ==> expected(d, IoEvent::Received(n))) && !expected(d, IoEvent::Sent)
            &&& a is Send ==> expected(d, IoEvent::Sent) && expected(d, IoEvent::SendFailed)
                && !expected(d, IoEvent::ReceiveFailed)
            &&& a is Done || a is Fail || a is Overrun ==> !expected(d, other)
        }),
        ({
            let begun = LoopModel { worked: false, phase: Phase::Polling, ..m };
            &&& expected(begun, IoEvent::PollReady)
            &&& expected(begun, IoEvent::PollIdle)
            &&& expected(begun, IoEvent::PollFailed)
            &&& !expected(begun, IoEvent::Received(n))
            &&& !expected(begun, IoEvent::Sent)
        }),
{
}

/// Law: a handshake that is complete is over, and one that is not goes on, for a
/// thousand steps. With more, a single endpoint has failed in any case, and a
/// pair of endpoints only where its handshake is not complete at both.
pub proof fn law_verdicts(steps: u32, client: bool, server: bool, v: Verdict, w: Verdict)
    requires
        call_ensures(handshake_verdict, (steps, client), v),
        call_ensures(drive_verdict, (steps, client, server), w),
    ensures
        v == Verdict::Fail <==> steps > 1000,
        v == Verdict::Done <==> steps <= 1000 && client,
        v == Verdict::Step <==> steps <= 1000 && !client,
        w == Verdict::Done <==> client && server,
        w == Verdict::Fail <==> steps > 1000 && !(client && server),
        w == Verdict::Step <==> steps <= 1000 && !(client && server),
{
}

/// Law: when a call of [`EventLoop::on_event`] or [`EventLoop::begin_flush`]
/// answers that the step is done, no packet number space of the connection has
/// anything to send. When it answers to send, the first bytes of the send buffer
/// are the connection's next packet.
pub proof fn law_on_event_done(l: &mut EventLoop, event: IoEvent, a: IoAction)
    requires
        old(l).wf(),
        call_ensures(EventLoop::on_event, (l, event), a),
    ensures
        final(l).wf(),
        a is Done ==> forall|id: PacketNumberSpace| !#[trigger] laws::has_to_send(
            final(l)@.conn,
            id,
        ),
        a matches IoAction::Done(worked) ==> worked == old(l)@.worked,
        a matches IoAction::Send(n) ==> n > 0 && n <= final(l)@.send_buf.len()
            && connection::egest_step(old(l)@.conn, old(l)@.send_buf.len()) == Some(
            (
                final(l)@.conn,
                Ok::<_, ConnectionError>(final(l)@.send_buf.take(n as int)),
            ),
        ),
        event is ReceiveFailed || event is PollIdle || event is Sent ==> a is Send || a is Done
            || a is Fail || a is Overrun,
{
    let log = old(l).tls_log();
    let ev = final(l).tls_log().skip(log.len() as int);
    let m = old(l)@;
    law_done_has_sent_all(m, event, ev, m.send_buf.len());
    if a is Send {
        if let Some((c, Ok(p))) = connection::egest_step(m.conn, m.send_buf.len()) {
            let sent = p + m.send_buf.skip(p.len() as int);
            assert(p.len() <= m.send_buf.len()) by {
                laws::law_egest_fits(m.conn, m.send_buf.len());
            }
            assert(sent.take(p.len() as int) =~= p);
        }
    }
}

/// Law: a step begins with waiting for data, and none has been available in it.
pub proof fn law_begin_step(l: &mut EventLoop, a: IoAction)
    requires
        call_ensures(EventLoop::begin_step, (l,), a),
    ensures
        a is Poll,
        !final(l)@.worked,
        final(l)@.conn == old(l)@.conn,
        expected(final(l)@, IoEvent::PollReady),
{
}

/// Law: a new event loop holds the connection as it is, with room for 2048 bytes
/// to send and to receive, and waits for nothing.
pub proof fn law_new_loop(conn: Connection, l: EventLoop, event: IoEvent)
    requires
        conn.wf(),
        call_ensures(EventLoop::new, (conn,), l),
    ensures
        l@.conn == conn@,
        l@.send_buf.len() == 2048,
        l@.recv_buf.len() == 2048,
        !expected(l@, event),
{
}

} // verus!
