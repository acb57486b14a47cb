//! The seam between lockstep logic and the actual network.
//!
//! A session never touches a socket: it consumes `TransportEv`s and writes down what is to be
//! sent, so the same engine runs over a TCP mesh, WebRTC data channels, or nothing at all.
//! Transports move opaque bytes; envelopes, signatures and message decoding live above.

use crate::state::ConnId;
use vstd::prelude::*;

verus! {

#[allow(inconsistent_fields)]
#[derive(Debug)]
pub enum TransportEv {
    /// A link (inbound or dialed) is up and can carry frames.
    Connected { conn: ConnId },
    /// A raw frame (an encoded, signed Envelope) arrived on `conn`.
    Data { conn: ConnId, bytes: Vec<u8> },
    /// The link is gone (error, close, or remote shutdown).
    Closed { conn: ConnId },
}

/// What was handed to a transport.
#[allow(inconsistent_fields)]
#[verifier::ext_equal]
pub enum SentV {
    Frame { conn: ConnId, bytes: Seq<u8> },
    Close { conn: ConnId },
}

pub trait Transport {
    /// What was handed over so far, in its order. It is for proofs alone: an implementation that
    /// is not verified leaves it out.
    open spec fn sent(&self) -> Seq<SentV> {
        Seq::empty()
    }

    /// Drain pending network events. Non-blocking; call once per frame.
    fn poll(&mut self) -> (r: Vec<TransportEv>)
        ensures
            final(self).sent() == old(self).sent(),
    ;

    /// Send a raw frame. Sends on a still-dialing conn are queued and flushed when it
    /// connects; sends on a dead conn drop silently.
    fn send(&mut self, conn: ConnId, bytes: &[u8])
        ensures
            final(self).sent() == old(self).sent().push(SentV::Frame { conn, bytes: bytes@ }),
    ;

    /// Start connecting to a peer address. Returns a ConnId immediately; `Connected` (or
    /// `Closed`, on failure) follows from `poll`.
    fn dial(&mut self, addr: &str) -> (r: Option<ConnId>)
        ensures
            final(self).sent() == old(self).sent(),
    ;

    /// Tear a link down. No `Closed` event is emitted for our own closes.
    fn close(&mut self, conn: ConnId)
        ensures
            final(self).sent() == old(self).sent().push(SentV::Close { conn }),
    ;

    /// Remote IP of a conn, for building dial-back addresses.
    fn remote_ip(&self, conn: ConnId) -> (r: String);

    /// Local port peers can dial. 0 where meaningless.
    fn listen_port(&self) -> (r: u16);

    /// Wall-clock nanoseconds since an arbitrary epoch, for liveness watchdogs. The default 0
    /// disables watchdogs entirely.
    fn now_ns(&self) -> (r: u64) {
        0
    }
}

/// Solo worlds and unit tests: no peers, no events, sends vanish.
pub struct NullTransport {
    log: Ghost<Seq<SentV>>,
}

impl NullTransport {
    pub fn new() -> (t: NullTransport)
        ensures
            t.sent() == Seq::<SentV>::empty(),
    {
        NullTransport { log: Ghost(Seq::empty()) }
    }
}

impl Transport for NullTransport {
    closed spec fn sent(&self) -> Seq<SentV> {
        self.log@
    }

    fn poll(&mut self) -> (r: Vec<TransportEv>)
        ensures
            r@ == Seq::<TransportEv>::empty(),
    {
        Vec::new()
    }

    fn send(&mut self, conn: ConnId, bytes: &[u8]) {
        self.log = Ghost(self.log@.push(SentV::Frame { conn, bytes: bytes@ }));
    }

    fn dial(&mut self, addr: &str) -> (r: Option<ConnId>)
        ensures
            r is None,
    {
        None
    }

    fn close(&mut self, conn: ConnId) {
        self.log = Ghost(self.log@.push(SentV::Close { conn }));
    }

    fn remote_ip(&self, conn: ConnId) -> (r: String)
        ensures
            r@ == Seq::<char>::empty(),
    {
        String::new()
    }

    fn listen_port(&self) -> (r: u16)
        ensures
            r == 0,
    {
        0
    }
}

} // verus!
