//! The join handshake, as a pollable state machine.
//!
//! Say Hello on the dialled link, wait for a verified Welcome. The owner of the link feeds the
//! events; the Welcome, once its snapshot is loaded and its peers are dialled, makes the
//! session.

use crate::crypto::{key_eq, unix_millis, Identity, PubKey};
use crate::protocol::{envelope_of, envelope_valid, msg_of, sealed, Envelope, Msg, MsgV};
use crate::session::{first_seq, Session, Welcome, WelcomeV, World};
use crate::state;
use crate::state::ConnId;
use crate::text::{push_text, text_of};
use crate::transport::TransportEv;
use vstd::prelude::*;

verus! {

/// A join in progress, by its contents.
#[verifier::ext_equal]
pub struct JoinerV {
    pub host_conn: u64,
    pub secret: Seq<u8>,
    pub key: Seq<u8>,
    pub seq: u64,
    pub name: Seq<char>,
    pub color: u8,
    pub hello_sent: bool,
    /// The key the Welcome must be signed by, if it is known in advance.
    pub expect_host: Option<Seq<u8>>,
}

/// Where a join stands.
#[derive(Debug)]
pub enum JoinStep {
    Waiting,
    Failed { reason: String },
    Welcomed { welcome: Welcome },
}

/// Where a join stands, by its contents.
#[verifier::ext_equal]
pub enum JoinStepV {
    Waiting,
    Failed { reason: Seq<char> },
    Welcomed { welcome: WelcomeV },
}

impl View for JoinStep {
    type V = JoinStepV;

    open spec fn view(&self) -> JoinStepV {
        match *self {
            JoinStep::Waiting => JoinStepV::Waiting,
            JoinStep::Failed { reason } => JoinStepV::Failed { reason: reason@ },
            JoinStep::Welcomed { welcome } => JoinStepV::Welcomed { welcome: welcome@ },
        }
    }
}

/// What a frame on the host's link means to a joiner.
pub open spec fn on_frame(expect_host: Option<Seq<u8>>, bytes: Seq<u8>) -> JoinStepV {
    match envelope_of(bytes) {
        None => JoinStepV::Waiting,
        Some(e) => if !envelope_valid(e) {
            JoinStepV::Waiting
        } else if expect_host is Some && expect_host != Some(e.sender) {
            JoinStepV::Failed { reason: "host is not who the beacon claimed"@ }
        } else {
            match msg_of(e.payload) {
                Some(MsgV::Welcome { pid, start_tick, peers, snapshot }) => JoinStepV::Welcomed {
                    welcome: WelcomeV { host_key: e.sender, host_seq: e.seq, pid, start_tick, peers, snapshot },
                },
                Some(MsgV::Deny { reason }) => JoinStepV::Failed { reason: "denied: "@ + reason },
                _ => JoinStepV::Waiting,
            }
        },
    }
}

/// What an event means to a joiner.
pub open spec fn join_step(j: JoinerV, ev: TransportEv) -> JoinStepV {
    match ev {
        TransportEv::Data { conn, bytes } => if conn == j.host_conn {
            on_frame(j.expect_host, bytes@)
        } else {
            JoinStepV::Waiting
        },
        TransportEv::Closed { conn } => if conn == j.host_conn {
            JoinStepV::Failed { reason: "connection to host lost"@ }
        } else {
            JoinStepV::Waiting
        },
        TransportEv::Connected { conn } => JoinStepV::Waiting,
    }
}

pub struct Joiner {
    host_conn: ConnId,
    identity: Identity,
    seq: u64,
    name: String,
    color: u8,
    hello_sent: bool,
    expect_host: Option<PubKey>,
}

impl View for Joiner {
    type V = JoinerV;

    closed spec fn view(&self) -> JoinerV {
        JoinerV {
            host_conn: self.host_conn,
            secret: self.identity.secret(),
            key: self.identity.public(),
            seq: self.seq,
            name: self.name@,
            color: self.color,
            hello_sent: self.hello_sent,
            expect_host: match self.expect_host {
                Some(k) => Some(k@),
                None => None,
            },
        }
    }
}

impl Joiner {
    /// Begin to join over the link that dialling the host gave, if it gave one, with the given
    /// first envelope number.
    pub fn new_at(host_conn: Option<ConnId>, identity: Identity, name: &str, color: u8, seq: u64) -> (r: Option<Joiner>)
        ensures
            r is Some <==> host_conn is Some,
            r matches Some(j) ==> j@ == (JoinerV {
                host_conn: host_conn->0,
                secret: identity.secret(),
                key: identity.public(),
                seq,
                name: name@,
                color,
                hello_sent: false,
                expect_host: None,
            }),
    {
        match host_conn {
            Some(conn) => {
                let mut nm = String::new();
                push_text(&mut nm, name);
                proof {
                    assert(nm@ =~= name@);
                }
                Some(Joiner { host_conn: conn, identity, seq, name: nm, color, hello_sent: false, expect_host: None })
            },
            None => None,
        }
    }

    /// Begin to join over the link that dialling the host gave, if it gave one.
    pub fn new(host_conn: Option<ConnId>, identity: Identity, name: &str, color: u8) -> (r: Option<Joiner>)
        ensures
            r is Some <==> host_conn is Some,
            r matches Some(j) ==> j@ == (JoinerV {
                host_conn: host_conn->0,
                secret: identity.secret(),
                key: identity.public(),
                seq: j@.seq,
                name: name@,
                color,
                hello_sent: false,
                expect_host: None,
            }),
            r matches Some(j) ==> exists|ms: u64| j@.seq == #[trigger] state::first_seq(ms),
    {
        Joiner::new_at(host_conn, identity, name, color, first_seq(unix_millis()))
    }

    /// Require the Welcome to be signed by this exact key.
    pub fn expect_host_key(&mut self, key: PubKey)
        ensures
            final(self)@ == (JoinerV { expect_host: Some(key@), ..old(self)@ }),
    {
        self.expect_host = Some(key);
    }

    /// The Hello to send to the host, the first time; nothing once it is on its way.
    pub fn hello(&mut self, listen_port: u16) -> (r: Option<Vec<u8>>)
        ensures
            old(self)@.hello_sent ==> r is None && final(self)@ == old(self)@,
            !old(self)@.hello_sent ==> sealed(
                old(self)@.secret,
                old(self)@.key,
                old(self)@.seq,
                MsgV::Hello { name: old(self)@.name, color: old(self)@.color, listen_port },
                r,
            ),
            !old(self)@.hello_sent ==> final(self)@ == if r is Some {
                JoinerV { hello_sent: true, seq: state::next_seq(old(self)@.seq), ..old(self)@ }
            } else {
                old(self)@
            },
    {
        if self.hello_sent {
            return None;
        }
        let hello = Msg::Hello { name: self.name.clone(), color: self.color, listen_port };
        let r: Option<Vec<u8>> = Envelope::seal(&self.identity, self.seq, &hello);
        if r.is_some() {
            self.hello_sent = true;
            if self.seq < u64::MAX {
                self.seq = self.seq + 1;
            }
        }
        r
    }

    fn on_frame(&self, bytes: &Vec<u8>) -> (r: JoinStep)
        ensures
            r@ == on_frame(self@.expect_host, bytes@),
    {
        let env: Envelope = match Envelope::decode(bytes.as_slice()) {
            Ok(env) => env,
            Err(_) => {
                return JoinStep::Waiting;
            },
        };
        if !env.verify() {
            return JoinStep::Waiting;
        }
        match &self.expect_host {
            Some(expected) => {
                if !key_eq(expected, &env.sender) {
                    return JoinStep::Failed { reason: text_of("host is not who the beacon claimed") };
                }
            },
            None => {},
        }
        match Msg::decode(env.payload.as_slice()) {
            Ok(Msg::Welcome { pid, start_tick, peers, snapshot }) => JoinStep::Welcomed {
                welcome: Welcome { host_key: env.sender, host_seq: env.seq, pid, start_tick, peers, snapshot },
            },
            Ok(Msg::Deny { reason }) => {
                let mut why = String::new();
                push_text(&mut why, "denied: ");
                push_text(&mut why, reason.as_str());
                proof {
                    assert(why@ =~= "denied: "@ + reason@);
                }
                JoinStep::Failed { reason: why }
            },
            // Freeze etc: expected pre-welcome chatter
            _ => JoinStep::Waiting,
        }
    }

    /// Take one event of the transport.
    pub fn handle_ev(&self, ev: &TransportEv) -> (r: JoinStep)
        ensures
            r@ == join_step(self@, *ev),
    {
        match ev {
            TransportEv::Data { conn, bytes } => {
                if *conn == self.host_conn {
                    self.on_frame(bytes)
                } else {
                    JoinStep::Waiting
                }
            },
            TransportEv::Closed { conn } => {
                if *conn == self.host_conn {
                    JoinStep::Failed { reason: text_of("connection to host lost") }
                } else {
                    JoinStep::Waiting
                }
            },
            TransportEv::Connected { .. } => JoinStep::Waiting,
        }
    }

    /// Take events until the handshake resolves: where it stands, and how many events that
    /// took. The events after them are real traffic for the new session.
    pub fn poll(&self, evs: &Vec<TransportEv>) -> (r: (JoinStep, usize))
        ensures
            r.1 <= evs@.len(),
            forall|i: int| 0 <= i < r.1 - 1 ==> join_step(self@, #[trigger] evs@[i]) is Waiting,
            r.0@ is Waiting ==> r.1 == evs@.len() && forall|i: int|
                0 <= i < evs@.len() ==> join_step(self@, #[trigger] evs@[i]) is Waiting,
            !(r.0@ is Waiting) ==> r.1 >= 1 && r.0@ == join_step(self@, evs@[r.1 - 1]),
    {
        let mut i: usize = 0;
        while i < evs.len()
            invariant
                i <= evs@.len(),
                forall|j: int| 0 <= j < i ==> join_step(self@, #[trigger] evs@[j]) is Waiting,
            decreases evs@.len() - i,
        {
            let step: JoinStep = self.handle_ev(&evs[i]);
            i = i + 1;
            match step {
                JoinStep::Waiting => {},
                _ => {
                    return (step, i);
                },
            }
        }
        (JoinStep::Waiting, i)
    }

    /// The Welcome's snapshot is loaded (or not) and its peers are dialled: make the session.
    pub fn finish(self, now: u64, welcome: Welcome, world: Option<World>, dialled: &Vec<Option<ConnId>>) -> (r: Result<
        Session,
        String,
    >)
        requires
            dialled@.len() == welcome@.peers.len(),
        ensures
            match r {
                Ok(s) => state::lists_host(welcome@.peers, welcome@.host_key) && world is Some && s@ == state::welcomed(
                    world->0@,
                    self@.secret,
                    self@.key,
                    self@.name,
                    self@.color,
                    self@.seq,
                    now,
                    self@.host_conn,
                    welcome@.host_key,
                    welcome@.host_seq,
                    welcome@.pid,
                    welcome@.start_tick,
                    welcome@.peers,
                    dialled@,
                ),
                Err(why) => if !state::lists_host(welcome@.peers, welcome@.host_key) {
                    why@ == "host key mismatch in Welcome"@
                } else {
                    world is None && why@ == "bad snapshot"@
                },
            },
    {
        Session::from_welcome(
            self.identity,
            self.name.as_str(),
            self.color,
            self.seq,
            now,
            self.host_conn,
            welcome,
            world,
            dialled,
        )
    }
}

} // verus!
