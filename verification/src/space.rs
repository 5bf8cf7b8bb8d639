//! Per-packet-number-space state.
//!
//! Each encryption level (Initial, Handshake, ApplicationData) maintains
//! independent packet number counters and key material.

use rustls::quic::{DirectionalKeys, Keys};
use std::time::{Duration, Instant};
use vstd::prelude::*;

use crate::packet::PacketNumberSpace;

verus! {

#[verifier::external_type_specification]
#[verifier::external_body]
pub struct ExInstant(Instant);

/// `Instant::now`: the time of the call.
#[verifier::external_body]
fn now() -> Instant {
    Instant::now()
}

/// `Instant::elapsed`: the time since `t`.
#[verifier::external_body]
fn elapsed_since(t: &Instant) -> Duration {
    t.elapsed()
}

/// Key material and packet number state for one encryption level.
pub struct Space {
    /// Which space this is (Initial / Handshake / ApplicationData).
    pub id: PacketNumberSpace,
    /// Key material for this encryption level.
    /// `keys.local` encrypts outgoing packets; `keys.remote` decrypts incoming.
    keys: Option<Keys>,
    /// Next packet number to use for sending.
    next_send_pn: u64,
    /// Largest received packet number that has been authenticated.
    largest_recv_pn: u64,
    /// Time of the last received packet in this space.
    last_recv_time: Option<Instant>,
    /// Received packet numbers that no ACK has been sent for.
    pending_acks: Vec<u64>,
}

/// A space without its clock.
pub struct SpaceModel {
    pub id: PacketNumberSpace,
    pub keys: Option<Keys>,
    pub next_send_pn: u64,
    pub largest_recv_pn: u64,
    pub pending_acks: Seq<u64>,
    /// Whether a packet has been received.
    pub received: bool,
}

impl View for Space {
    type V = SpaceModel;

    closed spec fn view(&self) -> SpaceModel {
        SpaceModel {
            id: self.id,
            keys: self.keys,
            next_send_pn: self.next_send_pn,
            largest_recv_pn: self.largest_recv_pn,
            pending_acks: self.pending_acks@,
            received: self.last_recv_time is Some,
        }
    }
}

impl SpaceModel {
    /// A space without keys that has sent and received nothing.
    pub open spec fn empty(id: PacketNumberSpace) -> SpaceModel {
        SpaceModel {
            id,
            keys: None,
            next_send_pn: 0,
            largest_recv_pn: 0,
            pending_acks: Seq::empty(),
            received: false,
        }
    }

    /// The space with keys installed.
    pub open spec fn with_keys(self, keys: Keys) -> SpaceModel {
        SpaceModel { keys: Some(keys), ..self }
    }

    /// The space once packet `pn` has been received.
    pub open spec fn after_recv(self, pn: u64) -> SpaceModel {
        SpaceModel {
            largest_recv_pn: if pn > self.largest_recv_pn {
                pn
            } else {
                self.largest_recv_pn
            },
            pending_acks: self.pending_acks.push(pn),
            received: true,
            ..self
        }
    }

    /// The space once a packet has been sent.
    pub open spec fn after_send(self) -> SpaceModel {
        SpaceModel { next_send_pn: (self.next_send_pn + 1) as u64, ..self }
    }

    /// The space with no ACK outstanding.
    pub open spec fn acked(self) -> SpaceModel {
        SpaceModel { pending_acks: Seq::empty(), ..self }
    }
}

impl Space {
    /// Create a new, empty space (no keys yet).
    pub fn new(id: PacketNumberSpace) -> (s: Self)
        ensures
            s@ == SpaceModel::empty(id),
    {
        Self {
            id,
            keys: None,
            next_send_pn: 0,
            largest_recv_pn: 0,
            last_recv_time: None,
            pending_acks: Vec::new(),
        }
    }

    /// Which space this is.
    pub fn id(&self) -> (id: PacketNumberSpace)
        ensures
            id == self@.id,
    {
        self.id
    }

    /// Install keys for this space.
    pub fn set_keys(&mut self, keys: Keys)
        ensures
            final(self)@ == old(self)@.with_keys(keys),
    {
        self.keys = Some(keys);
    }

    /// Borrow the local (send) keys.
    pub fn local_keys(&self) -> (r: Option<&DirectionalKeys>)
        ensures
            r == match self@.keys {
                Some(k) => Some(&k.local),
                None => None,
            },
    {
        match &self.keys {
            Some(k) => Some(&k.local),
            None => None,
        }
    }

    /// Borrow the remote (recv) keys.
    pub fn remote_keys(&self) -> (r: Option<&DirectionalKeys>)
        ensures
            r == match self@.keys {
                Some(k) => Some(&k.remote),
                None => None,
            },
    {
        match &self.keys {
            Some(k) => Some(&k.remote),
            None => None,
        }
    }

    /// Whether keys have been installed.
    pub fn has_keys(&self) -> (has: bool)
        ensures
            has == (self@.keys is Some),
    {
        self.keys.is_some()
    }

    /// Take the next send packet number and advance the counter.
    pub fn next_send_pn(&mut self) -> (pn: u64)
        requires
            old(self)@.next_send_pn < u64::MAX,
        ensures
            pn == old(self)@.next_send_pn,
            final(self)@ == old(self)@.after_send(),
    {
        let pn: u64 = self.next_send_pn;
        self.next_send_pn = self.next_send_pn + 1;
        pn
    }

    /// Peek at the next send packet number without advancing.
    pub fn peek_send_pn(&self) -> (pn: u64)
        ensures
            pn == self@.next_send_pn,
    {
        self.next_send_pn
    }

    /// Largest received authenticated packet number so far.
    pub fn largest_recv_pn(&self) -> (pn: u64)
        ensures
            pn == self@.largest_recv_pn,
    {
        self.largest_recv_pn
    }

    /// Record a received packet number.
    pub fn record_recv_pn(&mut self, pn: u64)
        ensures
            final(self)@ == old(self)@.after_recv(pn),
    {
        if pn > self.largest_recv_pn {
            self.largest_recv_pn = pn;
        }
        self.pending_acks.push(pn);
        self.last_recv_time = Some(now());
    }

    /// Take the received packet numbers that no ACK has been sent for, in the
    /// order in which they came.
    pub fn take_pending_acks(&mut self) -> (acks: Vec<u64>)
        ensures
            acks@ == old(self)@.pending_acks,
            final(self)@ == old(self)@.acked(),
    {
        let mut acks: Vec<u64> = Vec::new();
        std::mem::swap(&mut acks, &mut self.pending_acks);
        acks
    }

    /// The received packet numbers that no ACK has been sent for, in the order
    /// in which they came.
    pub fn pending_acks(&self) -> (acks: &[u64])
        ensures
            acks@ == self@.pending_acks,
    {
        self.pending_acks.as_slice()
    }

    /// Whether received packet numbers wait for an ACK.
    pub fn has_pending_acks(&self) -> (has: bool)
        ensures
            has == (self@.pending_acks.len() > 0),
    {
        self.pending_acks.len() > 0
    }

    /// Time since the last received packet (None if never received).
    pub fn time_since_last_recv(&self) -> (r: Option<Duration>)
        ensures
            r is Some == self@.received,
    {
        match &self.last_recv_time {
            Some(t) => Some(elapsed_since(t)),
            None => None,
        }
    }
}

/// Law: the numbers that a space hands out for sending are consecutive,
/// whatever is received in between.
pub proof fn law_send_numbers_consecutive(m: SpaceModel, pn: u64)
    requires
        m.next_send_pn < u64::MAX,
    ensures
        m.after_send().next_send_pn == m.next_send_pn + 1,
        m.after_recv(pn).next_send_pn == m.next_send_pn,
        m.acked().next_send_pn == m.next_send_pn,
{
}

/// Law: the largest received packet number never goes down, and receiving one
/// makes it at least that one.
pub proof fn law_largest_recv_monotone(m: SpaceModel, pn: u64)
    ensures
        m.after_recv(pn).largest_recv_pn >= m.largest_recv_pn,
        m.after_recv(pn).largest_recv_pn >= pn,
        m.after_recv(pn).largest_recv_pn == m.largest_recv_pn || m.after_recv(pn).largest_recv_pn
            == pn,
        m.after_send().largest_recv_pn == m.largest_recv_pn,
{
}

/// Law: a packet that is received is added to those that wait for an ACK, and one
/// that is sent takes nothing from them. Sending an ACK takes them all. No keys
/// are changed by any of this, and installing keys changes nothing else.
pub proof fn law_space_steps(m: SpaceModel, pn: u64, keys: Keys)
    ensures
        m.after_recv(pn).pending_acks == m.pending_acks.push(pn),
        m.after_recv(pn).received,
        m.after_recv(pn).keys == m.keys,
        m.after_recv(pn).id == m.id,
        m.after_send().pending_acks == m.pending_acks,
        m.after_send().keys == m.keys,
        m.after_send().id == m.id,
        m.after_send().received == m.received,
        m.acked().pending_acks.len() == 0,
        m.acked() == (SpaceModel { pending_acks: m.acked().pending_acks, ..m }),
        m.with_keys(keys).keys == Some(keys),
        m.with_keys(keys) == (SpaceModel { keys: Some(keys), ..m }),
{
}

/// Law: a new space has no keys, has sent and received nothing, and starts
/// sending at packet number 0.
pub proof fn law_empty_space(id: PacketNumberSpace)
    ensures
        ({
            let m = SpaceModel::empty(id);
            &&& m.id == id
            &&& m.keys is None
            &&& m.next_send_pn == 0
            &&& m.largest_recv_pn == 0
            &&& m.pending_acks.len() == 0
            &&& !m.received
        }),
{
}

} // verus!
